//! Exact decimal rendering of sizes and shares.
//!
//! Sizes and shares are shown with one decimal, as IEEE-754 binary64 arithmetic
//! and round-half-to-even decimal formatting give them. Everything here is done
//! on integers: a `u64` converts to the nearest binary64 (53 significant bits,
//! ties to even), a quotient or product of binary64 values is rounded the same
//! way, and the printed digit is the nearest tenth of the exact binary value,
//! ties to even.

use vstd::prelude::*;
use crate::text::push_char;

verus! {

/// `2^e`.
pub open spec fn two_pow(e: nat) -> nat
    decreases e,
{
    if e == 0 {
        1
    } else {
        2 * two_pow((e - 1) as nat)
    }
}

/// Number of binary digits of `n` (0 for 0).
pub open spec fn bit_len(n: nat) -> nat
    decreases n,
{
    if n == 0 {
        0
    } else {
        1 + bit_len(n / 2)
    }
}

/// `n / d` rounded to the nearest integer, ties to even.
pub open spec fn rne_div(n: nat, d: nat) -> nat {
    let q = n / d;
    let r = n % d;
    if 2 * r > d || (2 * r == d && q % 2 == 1) {
        q + 1
    } else {
        q
    }
}

/// `n` rounded to 53 significant bits, ties to even: the value of `n as f64`.
pub open spec fn f64_of(n: nat) -> nat {
    if bit_len(n) <= 53 {
        n
    } else {
        let s = (bit_len(n) - 53) as nat;
        rne_div(n, two_pow(s)) * two_pow(s)
    }
}

/// The character of a decimal digit.
pub open spec fn digit_char(d: int) -> char {
    (48 + d) as char
}

/// Decimal representation of `n`, without leading zeros.
pub open spec fn decimal(n: nat) -> Seq<char>
    decreases n,
{
    if n < 10 {
        seq![digit_char(n as int)]
    } else {
        decimal(n / 10).push(digit_char((n % 10) as int))
    }
}

/// A number of tenths written with one decimal, e.g. `15` as `1.5`.
pub open spec fn one_decimal(tenths: nat) -> Seq<char> {
    decimal(tenths / 10).push('.').push(digit_char((tenths % 10) as int))
}

/// Unit names by power of 1024.
pub open spec fn unit_name(k: nat) -> Seq<char> {
    if k == 1 {
        "KB"@
    } else if k == 2 {
        "MB"@
    } else if k == 3 {
        "GB"@
    } else {
        "TB"@
    }
}

/// The power of 1024 used to show a size of at least 1 KiB.
pub open spec fn unit_power(bytes: nat) -> nat {
    if bytes < two_pow(20) {
        1
    } else if bytes < two_pow(30) {
        2
    } else if bytes < two_pow(40) {
        3
    } else {
        4
    }
}

/// A size for humans: whole bytes below 1 KiB, otherwise one decimal in KB,
/// MB, GB or TB (powers of 1024).
pub open spec fn humanized(bytes: nat) -> Seq<char> {
    if bytes < 1024 {
        decimal(bytes) + " B"@
    } else {
        let k = unit_power(bytes);
        let tenths = rne_div(10 * f64_of(bytes), two_pow(10 * k));
        one_decimal(tenths) + seq![' '] + unit_name(k)
    }
}

proof fn lemma_two_pow_pos(e: nat)
    ensures
        two_pow(e) >= 1,
    decreases e,
{
    if e > 0 {
        lemma_two_pow_pos((e - 1) as nat);
    }
}

proof fn lemma_two_pow_add(a: nat, b: nat)
    ensures
        two_pow(a + b) == two_pow(a) * two_pow(b),
    decreases b,
{
    if b > 0 {
        lemma_two_pow_add(a, (b - 1) as nat);
        assert(two_pow(a + b) == 2 * two_pow((a + b - 1) as nat));
        assert(two_pow(a) * two_pow(b) == two_pow(a) * (2 * two_pow((b - 1) as nat)));
        assert(two_pow(a) * (2 * two_pow((b - 1) as nat)) == 2 * (two_pow(a) * two_pow(
            (b - 1) as nat,
        ))) by (nonlinear_arith);
    } else {
        assert(two_pow(0) == 1);
    }
}

proof fn lemma_two_pow_small()
    ensures
        two_pow(0) == 1,
        two_pow(1) == 2,
        two_pow(2) == 4,
        two_pow(8) == 0x100,
        two_pow(10) == 0x400,
        two_pow(12) == 0x1000,
{
    reveal_with_fuel(two_pow, 13);
}

proof fn lemma_two_pow_values()
    ensures
        two_pow(10) == 0x400,
        two_pow(20) == 0x10_0000,
        two_pow(30) == 0x4000_0000,
        two_pow(40) == 0x100_0000_0000,
        two_pow(52) == 0x10_0000_0000_0000,
        two_pow(53) == 0x20_0000_0000_0000,
        two_pow(60) == 0x1000_0000_0000_0000,
        two_pow(64) == 0x1_0000_0000_0000_0000,
        two_pow(116) == 0x10_0000_0000_0000_0000_0000_0000_0000,
        two_pow(126) == 0x4000_0000_0000_0000_0000_0000_0000_0000,
        two_pow(128) == 0x1_0000_0000_0000_0000_0000_0000_0000_0000,
{
    lemma_two_pow_small();
    lemma_two_pow_add(10, 10);
    assert(two_pow(20) == 0x10_0000);
    lemma_two_pow_add(20, 10);
    assert(two_pow(30) == 0x4000_0000);
    lemma_two_pow_add(30, 10);
    assert(two_pow(40) == 0x100_0000_0000);
    lemma_two_pow_add(40, 12);
    assert(two_pow(52) == 0x10_0000_0000_0000);
    lemma_two_pow_add(52, 1);
    assert(two_pow(53) == 0x20_0000_0000_0000);
    lemma_two_pow_add(52, 8);
    assert(two_pow(60) == 0x1000_0000_0000_0000);
    lemma_two_pow_add(52, 12);
    assert(two_pow(64) == 0x1_0000_0000_0000_0000);
    lemma_two_pow_add(64, 52);
    assert(two_pow(116) == 0x10_0000_0000_0000_0000_0000_0000_0000);
    lemma_two_pow_add(52, 10);
    assert(two_pow(62) == 0x4000_0000_0000_0000);
    lemma_two_pow_add(64, 62);
    assert(two_pow(126) == 0x4000_0000_0000_0000_0000_0000_0000_0000);
    lemma_two_pow_add(64, 64);
    assert(two_pow(128) == 0x1_0000_0000_0000_0000_0000_0000_0000_0000);
}

proof fn lemma_two_pow_mono(a: nat, b: nat)
    requires
        a <= b,
    ensures
        two_pow(a) <= two_pow(b),
{
    lemma_two_pow_add(a, (b - a) as nat);
    lemma_two_pow_pos((b - a) as nat);
    lemma_two_pow_pos(a);
    assert(two_pow(a) * two_pow((b - a) as nat) >= two_pow(a)) by (nonlinear_arith)
        requires
            two_pow((b - a) as nat) >= 1,
            two_pow(a) >= 1,
    ;
}

/// `bit_len(n) <= k` exactly when `n < 2^k`.
proof fn lemma_bit_len_bound(n: nat, k: nat)
    ensures
        bit_len(n) <= k <==> n < two_pow(k),
    decreases k,
{
    if k == 0 {
        if n > 0 {
            assert(bit_len(n) >= 1);
        }
    } else {
        lemma_bit_len_bound(n / 2, (k - 1) as nat);
        if n == 0 {
            lemma_two_pow_pos(k);
        }
    }
}

/// `n` shifted right `s` bits still has `bit_len(n) - s` bits.
proof fn lemma_bit_len_div(n: nat, s: nat)
    requires
        s <= bit_len(n),
    ensures
        bit_len(n / two_pow(s)) == bit_len(n) - s,
    decreases s,
{
    if s > 0 {
        lemma_two_pow_pos((s - 1) as nat);
        assert(bit_len(n) >= 1);
        assert(n > 0);
        lemma_bit_len_div(n / 2, (s - 1) as nat);
        assert(two_pow(s) == 2 * two_pow((s - 1) as nat));
        assert(n / 2 / two_pow((s - 1) as nat) == n / (2 * two_pow((s - 1) as nat))) by {
            vstd::arithmetic::div_mod::lemma_div_denominator(
                n as int,
                2,
                two_pow((s - 1) as nat) as int,
            );
        }
    } else {
        assert(two_pow(0) == 1);
    }
}

pub fn rne_div_exec(n: u128, d: u128) -> (q: u128)
    requires
        0 < d <= 0x4000_0000_0000_0000_0000_0000_0000_0000,
        n / d < 0xffff_ffff_ffff_ffff_ffff_ffff_ffff_ffff,
    ensures
        q == rne_div(n as nat, d as nat),
{
    let q = n / d;
    let r = n % d;
    if 2 * r > d || (2 * r == d && q % 2 == 1) {
        q + 1
    } else {
        q
    }
}

/// `2^e` as a `u128`.
pub fn two_pow_exec(e: u32) -> (p: u128)
    requires
        e <= 126,
    ensures
        p == two_pow(e as nat),
{
    let mut p: u128 = 1;
    let mut i: u32 = 0;
    while i < e
        invariant
            i <= e <= 126,
            p == two_pow(i as nat),
        decreases e - i,
    {
        proof {
            assert(two_pow((i + 1) as nat) == 2 * two_pow(i as nat));
            lemma_two_pow_mono((i + 1) as nat, 126);
            lemma_two_pow_values();
        }
        p = p * 2;
        i = i + 1;
    }
    p
}

/// Number of binary digits of `n`.
pub fn bit_len_exec(n: u128) -> (b: u32)
    ensures
        b == bit_len(n as nat),
        b <= 128,
{
    proof {
        lemma_two_pow_values();
        lemma_bit_len_bound(n as nat, 128);
    }
    let mut t = n;
    let mut b: u32 = 0;
    while t > 0
        invariant
            bit_len(n as nat) == b + bit_len(t as nat),
            b + bit_len(t as nat) <= 128,
        decreases t,
    {
        t = t / 2;
        b = b + 1;
    }
    proof {
        lemma_bit_len_bound(n as nat, 128);
        lemma_two_pow_values();
    }
    b
}

/// Appends the decimal representation of `n`.
pub fn push_decimal(s: &mut String, n: u64)
    ensures
        final(s)@ == old(s)@ + decimal(n as nat),
    decreases n,
{
    if n >= 10 {
        push_decimal(s, n / 10);
    }
    let d: u8 = (n % 10) as u8;
    push_char(s, (d + 48) as char);
    proof {
        assert(((d + 48) as u8) as char == digit_char((n % 10) as int));
    }
}

/// The value of `n as f64` (an integer, at most `2^64`).
pub fn f64_of_exec(n: u64) -> (v: u128)
    ensures
        v == f64_of(n as nat),
        v <= 0x1_0000_0000_0000_0000,
{
    let l = bit_len_exec(n as u128);
    proof {
        lemma_two_pow_values();
        lemma_bit_len_bound(n as nat, 64);
    }
    if l <= 53 {
        return n as u128;
    }
    let sh: u32 = l - 53;
    let p = two_pow_exec(sh);
    proof {
        lemma_two_pow_pos(sh as nat);
        lemma_two_pow_mono(sh as nat, 11);
        reveal_with_fuel(two_pow, 12);
        lemma_bit_len_div(n as nat, sh as nat);
        lemma_bit_len_bound((n as nat) / two_pow(sh as nat), 53);
    }
    let q = rne_div_exec(n as u128, p);
    proof {
        assert(q <= (n as nat) / two_pow(sh as nat) + 1);
        assert(q <= 0x20_0000_0000_0000);
        lemma_two_pow_add(53, sh as nat);
        lemma_two_pow_mono((53 + sh) as nat, 64);
        assert(q * p <= 0x20_0000_0000_0000 * p) by (nonlinear_arith)
            requires
                q <= 0x20_0000_0000_0000,
                p >= 1,
        ;
    }
    q * p
}

/// Appends a number of tenths with one decimal.
pub fn push_one_decimal(s: &mut String, tenths: u64)
    ensures
        final(s)@ == old(s)@ + one_decimal(tenths as nat),
{
    push_decimal(s, tenths / 10);
    push_char(s, '.');
    let d: u8 = (tenths % 10) as u8;
    push_char(s, (d + 48) as char);
    proof {
        assert(((d + 48) as u8) as char == digit_char((tenths % 10) as int));
    }
}

/// Formats a byte count for humans: `512 B`, `1.5 KB`, `2.0 MB`, `1.0 TB`.
pub fn humanize_bytes(bytes: u64) -> (s: String)
    ensures
        s@ == humanized(bytes as nat),
{
    let mut s = String::new();
    if bytes < 1024 {
        push_decimal(&mut s, bytes);
        s.append(" B");
        return s;
    }
    proof {
        lemma_two_pow_values();
    }
    let k: u32 = if bytes < 0x10_0000 {
        1
    } else if bytes < 0x4000_0000 {
        2
    } else if bytes < 0x100_0000_0000 {
        3
    } else {
        4
    };
    let v = f64_of_exec(bytes);
    let unit = two_pow_exec(10 * k);
    proof {
        lemma_two_pow_mono(10, (10 * k) as nat);
    }
    let t = rne_div_exec(10 * v, unit);
    proof {
        assert(t <= (10 * v) as int / unit as int + 1);
        assert((10 * v) as int / unit as int <= (10 * v) as int / 1024) by {
            vstd::arithmetic::div_mod::lemma_div_is_ordered_by_denominator(
                (10 * v) as int,
                1024,
                unit as int,
            );
        }
    }
    push_one_decimal(&mut s, t as u64);
    push_char(&mut s, ' ');
    if k == 1 {
        s.append("KB");
    } else if k == 2 {
        s.append("MB");
    } else if k == 3 {
        s.append("GB");
    } else {
        s.append("TB");
    }
    s
}

/// The smallest `j` with `n * 2^j >= 2^52 * d` (0 when `n` is 0).
pub open spec fn norm_shift(n: nat, d: nat) -> nat
    decreases (if n == 0 || n >= two_pow(52) * d {
        0
    } else {
        two_pow(52) * d - n
    }) as nat,
{
    if n == 0 || n >= two_pow(52) * d {
        0
    } else {
        1 + norm_shift(2 * n, d)
    }
}

/// `part / whole * 100.0` in binary64, shown with one decimal: the number of
/// tenths of a percent that `{:.1}` prints.
pub open spec fn share_tenths(part: nat, whole: nat) -> nat {
    let bf = f64_of(part);
    let tf = f64_of(whole);
    if bf == 0 {
        0
    } else {
        let j = norm_shift(bf, tf);
        let mq = rne_div(bf * two_pow(j), tf);
        percent_tenths_of_quotient(mq, j)
    }
}

/// For the quotient `mq * 2^-j`: times 100 rounded to binary64, then the
/// nearest tenth, ties to even.
pub open spec fn percent_tenths_of_quotient(mq: nat, j: nat) -> nat {
    let x = mq * 100;
    let sh: nat = if bit_len(x) > 53 {
        (bit_len(x) - 53) as nat
    } else {
        0
    };
    let mp = rne_div(x, two_pow(sh));
    rne_div(mp * 10, two_pow((j - sh) as nat))
}

proof fn lemma_f64_of_bounds(n: nat)
    requires
        n <= u64::MAX,
    ensures
        f64_of(n) <= two_pow(64),
        n > 0 ==> f64_of(n) > 0,
{
    lemma_two_pow_values();
    lemma_bit_len_bound(n, 64);
    if bit_len(n) > 53 {
        let sh = (bit_len(n) - 53) as nat;
        lemma_two_pow_pos(sh);
        lemma_bit_len_div(n, sh);
        lemma_bit_len_bound(n / two_pow(sh), 53);
        lemma_bit_len_bound(n, 53);
        assert(n / two_pow(sh) >= 1) by {
            if n / two_pow(sh) == 0 {
                assert(bit_len(0) == 0);
            }
        }
        let q = rne_div(n, two_pow(sh));
        assert(q <= two_pow(53));
        lemma_two_pow_add(53, sh);
        lemma_two_pow_mono(53 + sh, 64);
        assert(q * two_pow(sh) <= two_pow(53) * two_pow(sh)) by (nonlinear_arith)
            requires
                q <= two_pow(53),
        ;
        assert(q * two_pow(sh) >= 1) by (nonlinear_arith)
            requires
                q >= 1,
                two_pow(sh) >= 1,
        ;
    }
}

proof fn lemma_rne_div_mono(a: nat, b: nat, d: nat)
    requires
        a <= b,
        d > 0,
    ensures
        rne_div(a, d) <= rne_div(b, d),
        a / d <= rne_div(a, d) <= a / d + 1,
{
    vstd::arithmetic::div_mod::lemma_div_is_ordered(a as int, b as int, d as int);
    vstd::arithmetic::div_mod::lemma_fundamental_div_mod(a as int, d as int);
    vstd::arithmetic::div_mod::lemma_fundamental_div_mod(b as int, d as int);
    if a / d == b / d {
        assert(a % d <= b % d);
    }
}

/// `2^a < 2^b` only when `a < b`.
proof fn lemma_two_pow_lt(a: nat, b: nat)
    requires
        two_pow(a) < two_pow(b),
    ensures
        a < b,
{
    if a >= b {
        lemma_two_pow_mono(b, a);
    }
}

/// For `n` of more than 53 bits, its rounding lies within the binade of `n`:
/// between `2^(bit_len - 1)` and `2^bit_len`.
proof fn lemma_f64_of_binade(n: nat)
    requires
        bit_len(n) > 53,
    ensures
        two_pow((bit_len(n) - 1) as nat) <= f64_of(n) <= two_pow(bit_len(n)),
{
    let l = bit_len(n);
    let sh = (l - 53) as nat;
    lemma_two_pow_pos(sh);
    lemma_bit_len_div(n, sh);
    let q0 = n / two_pow(sh);
    lemma_bit_len_bound(q0, 53);
    lemma_bit_len_bound(q0, 52);
    lemma_rne_div_mono(n, n, two_pow(sh));
    let q = rne_div(n, two_pow(sh));
    assert(two_pow(52) <= q <= two_pow(53));
    lemma_two_pow_add(52, sh);
    lemma_two_pow_add(53, sh);
    assert(two_pow(52) * two_pow(sh) <= q * two_pow(sh) <= two_pow(53) * two_pow(sh))
        by (nonlinear_arith)
        requires
            two_pow(52) <= q <= two_pow(53),
            two_pow(sh) >= 1,
    ;
    assert((l - 1) as nat == 52 + sh);
    assert(l == 53 + sh);
}

/// Rounding to 53 bits keeps the order of two integers.
proof fn lemma_f64_of_mono(a: nat, b: nat)
    requires
        a <= b,
    ensures
        f64_of(a) <= f64_of(b),
{
    let la = bit_len(a);
    let lb = bit_len(b);
    lemma_bit_len_bound(b, la);
    lemma_bit_len_bound(a, la);
    if la > lb {
        lemma_bit_len_bound(a, lb);
        lemma_bit_len_bound(b, lb);
        lemma_two_pow_mono(lb, la);
    }
    assert(la <= lb) by {
        if la > lb {
            lemma_bit_len_bound(a, lb);
            lemma_bit_len_bound(b, lb);
        }
    }
    if lb <= 53 {
    } else if la <= 53 {
        lemma_f64_of_binade(b);
        lemma_bit_len_bound(a, 53);
        lemma_two_pow_mono(53, (lb - 1) as nat);
    } else if la == lb {
        lemma_two_pow_pos((la - 53) as nat);
        lemma_rne_div_mono(a, b, two_pow((la - 53) as nat));
        let d = two_pow((la - 53) as nat);
        assert(rne_div(a, d) * d <= rne_div(b, d) * d) by (nonlinear_arith)
            requires
                rne_div(a, d) <= rne_div(b, d),
        ;
    } else {
        lemma_f64_of_binade(a);
        lemma_f64_of_binade(b);
        lemma_two_pow_mono(la, (lb - 1) as nat);
    }
}

/// Scales `bf` by the power of two that brings `bf / tf` into `[2^52, 2^53)`.
fn normalize_quotient(bf: u128, tf: u128) -> (r: (u128, u32))
    requires
        0 < bf <= tf <= 0x1_0000_0000_0000_0000,
    ensures
        r.0 == bf * two_pow(r.1 as nat),
        r.1 == norm_shift(bf as nat, tf as nat),
        two_pow(52) * tf <= r.0 < two_pow(53) * tf,
        52 <= r.1 <= 116,
{
    proof {
        lemma_two_pow_values();
        lemma_two_pow_small();
    }
    let big = 0x10_0000_0000_0000u128 * tf;
    let mut n: u128 = bf;
    let mut j: u32 = 0;
    assert(n == bf * two_pow(0));
    while n < big
        invariant
            0 < bf <= tf <= 0x1_0000_0000_0000_0000,
            big == two_pow(52) * tf,
            two_pow(52) == 0x10_0000_0000_0000,
            two_pow(116) == 0x10_0000_0000_0000_0000_0000_0000_0000,
            bf <= n < 2 * big,
            n == bf * two_pow(j as nat),
            norm_shift(bf as nat, tf as nat) == j + norm_shift(n as nat, tf as nat),
            j <= 116,
        decreases 2 * big - n,
    {
        proof {
            assert(two_pow((j + 1) as nat) == 2 * two_pow(j as nat));
            assert(2 * n == bf * two_pow((j + 1) as nat)) by (nonlinear_arith)
                requires
                    n == bf * two_pow(j as nat),
                    two_pow((j + 1) as nat) == 2 * two_pow(j as nat),
            ;
            assert(two_pow(j as nat) <= n) by (nonlinear_arith)
                requires
                    n == bf * two_pow(j as nat),
                    bf >= 1,
            ;
            assert(big <= two_pow(116)) by (nonlinear_arith)
                requires
                    big == two_pow(52) * tf,
                    tf <= 0x1_0000_0000_0000_0000,
                    two_pow(52) == 0x10_0000_0000_0000,
                    two_pow(116) == 0x10_0000_0000_0000_0000_0000_0000_0000,
            ;
            lemma_two_pow_lt(j as nat, 116);
        }
        n = 2 * n;
        j = j + 1;
    }
    proof {
        assert(j >= 52) by {
            assert(bf * two_pow(j as nat) >= two_pow(52) * tf);
            assert(two_pow(j as nat) >= two_pow(52)) by (nonlinear_arith)
                requires
                    bf * two_pow(j as nat) >= two_pow(52) * tf,
                    0 < bf <= tf,
            ;
            if j < 52 {
                lemma_two_pow_pos(j as nat);
                lemma_two_pow_mono((j + 1) as nat, 52);
                assert(two_pow((j + 1) as nat) == 2 * two_pow(j as nat));
            }
        }
    }
    (n, j)
}

/// The share of `part` in `whole` in tenths of a percent, as binary64
/// arithmetic and `{:.1}` give it.
pub fn share_tenths_exec(part: u64, whole: u64) -> (t: u64)
    requires
        0 < whole,
        part <= whole,
    ensures
        t == share_tenths(part as nat, whole as nat),
{
    let bf = f64_of_exec(part);
    let tf = f64_of_exec(whole);
    if bf == 0 {
        return 0;
    }
    proof {
        lemma_two_pow_values();
        lemma_f64_of_bounds(whole as nat);
        lemma_f64_of_mono(part as nat, whole as nat);
    }
    let (n, j) = normalize_quotient(bf, tf);
    proof {
        lemma_rne_div_mono(n as nat, n as nat, tf as nat);
        assert((n as int) / (tf as int) < two_pow(53)) by {
            vstd::arithmetic::div_mod::lemma_div_is_ordered(
                n as int,
                (two_pow(53) * tf - 1) as int,
                tf as int,
            );
            assert((two_pow(53) * tf - 1) / (tf as int) < two_pow(53)) by (nonlinear_arith)
                requires
                    tf > 0,
                    two_pow(53) == 0x20_0000_0000_0000,
            ;
        }
    }
    let mq = rne_div_exec(n, tf);
    percent_tenths_exec(mq, j)
}

fn percent_tenths_exec(mq: u128, j: u32) -> (t: u64)
    requires
        mq <= 0x20_0000_0000_0000,
        52 <= j <= 116,
    ensures
        t == percent_tenths_of_quotient(mq as nat, j as nat),
{
    let x: u128 = mq * 100;
    let l = bit_len_exec(x);
    proof {
        lemma_two_pow_values();
        lemma_bit_len_bound(x as nat, 60);
    }
    let sh: u32 = if l > 53 {
        l - 53
    } else {
        0
    };
    let p = two_pow_exec(sh);
    proof {
        lemma_two_pow_pos(sh as nat);
        if sh > 0 {
            lemma_bit_len_div(x as nat, sh as nat);
            lemma_bit_len_bound((x as nat) / two_pow(sh as nat), 53);
        } else {
            lemma_bit_len_bound(x as nat, 53);
        }
        lemma_rne_div_mono(x as nat, x as nat, p as nat);
        lemma_two_pow_mono(sh as nat, 126);
    }
    let mp = rne_div_exec(x, p);
    let d = two_pow_exec(j - sh);
    proof {
        lemma_two_pow_mono((j - sh) as nat, 126);
        lemma_two_pow_pos((j - sh) as nat);
        lemma_rne_div_mono((mp * 10) as nat, (mp * 10) as nat, d as nat);
        vstd::arithmetic::div_mod::lemma_div_is_ordered_by_denominator(
            (mp * 10) as int,
            1,
            d as int,
        );
    }
    let t = rne_div_exec(mp * 10, d);
    t as u64
}

} // verus!
