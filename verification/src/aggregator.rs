//! Turns a folder listing into pie slices: largest first, with everything past
//! the slice budget folded into one synthetic "Autres" bucket.

use vstd::prelude::*;
use crate::{DiskEntry, EntryKind};

verus! {

/// Name of the synthetic bucket that collects the slices past the budget.
pub const OTHERS_LABEL: &'static str = "Autres";

/// Total size of a sequence of entries.
pub open spec fn sum_bytes(s: Seq<DiskEntry>) -> int
    decreases s.len(),
{
    if s.len() == 0 {
        0
    } else {
        sum_bytes(s.drop_last()) + s.last().bytes
    }
}

/// Sizes never increase from one entry to the next.
pub open spec fn desc_by_bytes(s: Seq<DiskEntry>) -> bool {
    forall|i: int, j: int| 0 <= i < j < s.len() ==> (#[trigger] s[i]).bytes >= (#[trigger] s[j]).bytes
}

/// `p` shows that `out` is `inp` reordered: `out[i]` is `inp[p[i]]`, no input
/// position is used twice, sizes never increase, and entries of equal size keep
/// their input order.
pub open spec fn stable_sort_witness(out: Seq<DiskEntry>, inp: Seq<DiskEntry>, p: Seq<int>) -> bool {
    &&& p.len() == out.len()
    &&& out.len() == inp.len()
    &&& forall|i: int| 0 <= i < p.len() ==> 0 <= #[trigger] p[i] < inp.len() && out[i] == inp[p[i]]
    &&& forall|i: int, j: int| 0 <= i < j < p.len() ==> #[trigger] p[i] != #[trigger] p[j]
    &&& desc_by_bytes(out)
    &&& forall|i: int, j: int|
        0 <= i < j < out.len() && (#[trigger] out[i]).bytes == (#[trigger] out[j]).bytes ==> p[i] < p[j]
}

/// `out` is `inp` stably sorted by decreasing size.
pub open spec fn is_stable_desc_sort(out: Seq<DiskEntry>, inp: Seq<DiskEntry>) -> bool {
    exists|p: Seq<int>| stable_sort_witness(out, inp, p)
}

/// The entries of `s` from position `k` on (none when `k` is past the end).
pub open spec fn tail_from(s: Seq<DiskEntry>, k: int) -> Seq<DiskEntry> {
    if k < s.len() {
        s.subrange(k, s.len() as int)
    } else {
        Seq::empty()
    }
}

/// The number of slices kept whole.
pub open spec fn kept_count(len: int, max_slices: int) -> int {
    if max_slices < len {
        max_slices
    } else {
        len
    }
}

/// Whether the bytes folded into the bucket fit in a `u64`.
pub open spec fn leftover_fits(entries: Seq<DiskEntry>, max_slices: int) -> bool {
    forall|s: Seq<DiskEntry>|
        is_stable_desc_sort(s, entries) ==> #[trigger] sum_bytes(tail_from(s, max_slices)) <= u64::MAX
}

/// `pie` is what the sorted listing `sorted` gives with `max_slices` slices:
/// the first `max_slices` entries as they are, then, when the rest holds any
/// bytes, one "Autres" bucket carrying their total.
pub open spec fn pie_of_sorted(sorted: Seq<DiskEntry>, max_slices: int, pie: Seq<DiskEntry>) -> bool {
    let k = kept_count(sorted.len() as int, max_slices);
    let leftover = sum_bytes(tail_from(sorted, max_slices));
    &&& pie.subrange(0, k) == sorted.take(k)
    &&& if leftover > 0 {
        &&& pie.len() == k + 1
        &&& pie[k].name@ == OTHERS_LABEL@
        &&& pie[k].bytes == leftover
        &&& pie[k].kind == EntryKind::Bucket
    } else {
        pie.len() == k
    }
}

pub proof fn lemma_sum_nonneg(s: Seq<DiskEntry>)
    ensures
        sum_bytes(s) >= 0,
    decreases s.len(),
{
    if s.len() > 0 {
        lemma_sum_nonneg(s.drop_last());
    }
}

/// The total of a sequence is the total of its two halves.
pub proof fn lemma_sum_split(s: Seq<DiskEntry>, k: int)
    requires
        0 <= k <= s.len(),
    ensures
        sum_bytes(s) == sum_bytes(s.take(k)) + sum_bytes(s.subrange(k, s.len() as int)),
    decreases s.len(),
{
    if k == s.len() {
        assert(s.take(k) == s);
        assert(s.subrange(k, s.len() as int) == Seq::<DiskEntry>::empty());
    } else {
        let t = s.drop_last();
        lemma_sum_split(t, k);
        assert(t.take(k) == s.take(k));
        let r = s.subrange(k, s.len() as int);
        assert(r.drop_last() == t.subrange(k, t.len() as int));
        assert(r.last() == s.last());
    }
}

/// Removing one entry takes its size off the total.
pub proof fn lemma_sum_remove(s: Seq<DiskEntry>, j: int)
    requires
        0 <= j < s.len(),
    ensures
        sum_bytes(s) == sum_bytes(s.remove(j)) + s[j].bytes,
    decreases s.len(),
{
    if j == s.len() - 1 {
        assert(s.remove(j) == s.drop_last());
    } else {
        let t = s.drop_last();
        lemma_sum_remove(t, j);
        assert(s.remove(j).drop_last() == t.remove(j));
        assert(s.remove(j).last() == s.last());
    }
}

/// Reordering entries keeps their total.
pub proof fn lemma_sum_reorder(out: Seq<DiskEntry>, inp: Seq<DiskEntry>, p: Seq<int>)
    requires
        p.len() == out.len(),
        out.len() == inp.len(),
        forall|i: int| 0 <= i < p.len() ==> 0 <= #[trigger] p[i] < inp.len() && out[i] == inp[p[i]],
        forall|i: int, j: int| 0 <= i < j < p.len() ==> #[trigger] p[i] != #[trigger] p[j],
    ensures
        sum_bytes(out) == sum_bytes(inp),
    decreases out.len(),
{
    if out.len() > 0 {
        let n = out.len() as int;
        let j = p[n - 1];
        let inp2 = inp.remove(j);
        let out2 = out.drop_last();
        let p2 = Seq::new((n - 1) as nat, |i: int| if p[i] > j { p[i] - 1 } else { p[i] });
        assert forall|i: int| 0 <= i < p2.len() implies 0 <= #[trigger] p2[i] < inp2.len() && out2[i]
            == inp2[p2[i]] by {
            assert(p[i] != p[n - 1]);
        }
        assert forall|a: int, b: int| 0 <= a < b < p2.len() implies #[trigger] p2[a]
            != #[trigger] p2[b] by {
            assert(p[a] != p[b]);
            assert(p[a] != p[n - 1]);
            assert(p[b] != p[n - 1]);
        }
        lemma_sum_reorder(out2, inp2, p2);
        lemma_sum_remove(inp, j);
    }
}

/// The entries past the slice budget weigh no more than the whole listing.
pub proof fn lemma_tail_within_total(s: Seq<DiskEntry>, k: int)
    requires
        k >= 0,
    ensures
        0 <= sum_bytes(tail_from(s, k)) <= sum_bytes(s),
{
    if k < s.len() {
        lemma_sum_split(s, k);
        lemma_sum_nonneg(s.take(k));
        lemma_sum_nonneg(s.subrange(k, s.len() as int));
    } else {
        lemma_sum_nonneg(s);
    }
}

/// When the whole listing's total fits in a `u64`, so does the bucket's.
pub proof fn lemma_leftover_fits(entries: Seq<DiskEntry>, max_slices: int)
    requires
        max_slices >= 0,
        sum_bytes(entries) <= u64::MAX,
    ensures
        leftover_fits(entries, max_slices),
{
    assert forall|s: Seq<DiskEntry>| is_stable_desc_sort(s, entries) implies #[trigger] sum_bytes(
        tail_from(s, max_slices),
    ) <= u64::MAX by {
        let p = choose|p: Seq<int>| stable_sort_witness(s, entries, p);
        lemma_sum_reorder(s, entries, p);
        lemma_tail_within_total(s, max_slices);
    }
}

/// Total size of the entries.
pub fn total_bytes(entries: &[DiskEntry]) -> (t: u64)
    requires
        sum_bytes(entries@) <= u64::MAX,
    ensures
        t == sum_bytes(entries@),
{
    let mut t: u64 = 0;
    let mut i: usize = 0;
    while i < entries.len()
        invariant
            i <= entries@.len(),
            sum_bytes(entries@) <= u64::MAX,
            t == sum_bytes(entries@.take(i as int)),
        decreases entries@.len() - i,
    {
        proof {
            assert(entries@.take(i + 1).drop_last() == entries@.take(i as int));
            lemma_sum_split(entries@, i + 1);
            lemma_sum_nonneg(entries@.subrange(i + 1, entries@.len() as int));
        }
        t = t + entries[i].bytes;
        i = i + 1;
    }
    assert(entries@.take(entries@.len() as int) == entries@);
    t
}

/// Total size of the entries, or `None` when it does not fit in a `u64`.
pub fn checked_total_bytes(entries: &[DiskEntry]) -> (t: Option<u64>)
    ensures
        t matches Some(v) ==> v == sum_bytes(entries@),
        t is None ==> sum_bytes(entries@) > u64::MAX,
{
    let mut t: u64 = 0;
    let mut i: usize = 0;
    while i < entries.len()
        invariant
            i <= entries@.len(),
            t == sum_bytes(entries@.take(i as int)),
        decreases entries@.len() - i,
    {
        proof {
            assert(entries@.take(i + 1).drop_last() == entries@.take(i as int));
        }
        if entries[i].bytes > u64::MAX - t {
            proof {
                lemma_sum_split(entries@, i + 1);
                lemma_sum_nonneg(entries@.subrange(i + 1, entries@.len() as int));
            }
            return None;
        }
        t = t + entries[i].bytes;
        i = i + 1;
    }
    assert(entries@.take(entries@.len() as int) == entries@);
    Some(t)
}

/// Sorts by decreasing size; entries of equal size keep their order.
pub fn sort_by_bytes_desc(entries: Vec<DiskEntry>) -> (out: Vec<DiskEntry>)
    ensures
        is_stable_desc_sort(out@, entries@),
        sum_bytes(out@) == sum_bytes(entries@),
{
    let ghost inp = entries@;
    let ghost n = entries@.len() as int;
    let mut rest = entries;
    let mut out: Vec<DiskEntry> = Vec::new();
    let ghost mut p: Seq<int> = Seq::empty();
    while rest.len() > 0
        invariant
            n == inp.len(),
            rest@ == inp.subrange(0, rest@.len() as int),
            out@.len() == n - rest@.len(),
            p.len() == out@.len(),
            forall|i: int|
                0 <= i < p.len() ==> rest@.len() <= #[trigger] p[i] < n && out@[i] == inp[p[i]],
            forall|i: int, j: int| 0 <= i < j < p.len() ==> #[trigger] p[i] != #[trigger] p[j],
            desc_by_bytes(out@),
            forall|i: int, j: int|
                0 <= i < j < out@.len() && (#[trigger] out@[i]).bytes == (#[trigger] out@[j]).bytes
                    ==> p[i] < p[j],
        decreases rest@.len(),
    {
        let ghost m = rest@.len() as int;
        let x = rest.pop().unwrap();
        assert(x == inp[m - 1]);
        let mut pos: usize = 0;
        while pos < out.len() && out[pos].bytes > x.bytes
            invariant
                pos <= out@.len(),
                forall|i: int| 0 <= i < pos ==> (#[trigger] out@[i]).bytes > x.bytes,
            decreases out@.len() - pos,
        {
            pos = pos + 1;
        }
        let ghost old_out = out@;
        let ghost old_p = p;
        assert forall|i: int| pos <= i < old_out.len() implies (#[trigger] old_out[i]).bytes <= x.bytes by {
            if pos < old_out.len() {
                assert(old_out[pos as int].bytes <= x.bytes);
                if i > pos {
                    assert(old_out[pos as int].bytes >= old_out[i].bytes);
                }
            }
        }
        out.insert(pos, x);
        proof {
            p = old_p.insert(pos as int, m - 1);
            let o = out@;
            assert(o == old_out.insert(pos as int, x));
            assert forall|i: int| 0 <= i < p.len() implies m - 1 <= #[trigger] p[i] < n && o[i]
                == inp[p[i]] by {
                if i < pos {
                    assert(p[i] == old_p[i]);
                } else if i > pos {
                    assert(p[i] == old_p[i - 1]);
                }
            }
            assert forall|i: int, j: int| 0 <= i < j < p.len() implies #[trigger] p[i]
                != #[trigger] p[j] by {
                if i < pos && j > pos {
                    assert(old_p[i] != old_p[j - 1]);
                } else if i < pos && j < pos {
                    assert(old_p[i] != old_p[j]);
                } else if i > pos && j > pos {
                    assert(old_p[i - 1] != old_p[j - 1]);
                } else if i == pos {
                    assert(old_p[j - 1] >= m);
                } else {
                    assert(old_p[i] >= m);
                }
            }
            assert forall|i: int, j: int| 0 <= i < j < o.len() implies (#[trigger] o[i]).bytes
                >= (#[trigger] o[j]).bytes by {
                if i < pos && j < pos {
                } else if i < pos && j == pos {
                } else if i < pos && j > pos {
                    assert(o[j] == old_out[j - 1]);
                } else if i == pos {
                    assert(o[j] == old_out[j - 1]);
                } else {
                    assert(o[i] == old_out[i - 1]);
                    assert(o[j] == old_out[j - 1]);
                }
            }
            assert forall|i: int, j: int|
                0 <= i < j < o.len() && (#[trigger] o[i]).bytes == (#[trigger] o[j]).bytes implies p[i]
                < p[j] by {
                if i < pos && j < pos {
                } else if i < pos && j == pos {
                    assert(old_out[i].bytes > x.bytes);
                } else if i < pos && j > pos {
                    assert(o[j] == old_out[j - 1]);
                    assert(p[j] == old_p[j - 1]);
                } else if i == pos {
                    assert(p[j] == old_p[j - 1]);
                } else {
                    assert(o[i] == old_out[i - 1]);
                    assert(o[j] == old_out[j - 1]);
                    assert(p[i] == old_p[i - 1]);
                    assert(p[j] == old_p[j - 1]);
                }
            }
            assert(rest@ == inp.subrange(0, rest@.len() as int));
        }
    }
    proof {
        assert(stable_sort_witness(out@, inp, p));
        lemma_sum_reorder(out@, inp, p);
    }
    out
}

/// Sorts `entries` by decreasing size (ties keep their order), keeps the first
/// `max_slices` and folds the rest into an "Autres" bucket placed last; an
/// empty remainder makes no bucket.
pub fn aggregate(entries: Vec<DiskEntry>, max_slices: usize) -> (pie: Vec<DiskEntry>)
    requires
        leftover_fits(entries@, max_slices as int),
    ensures
        exists|sorted: Seq<DiskEntry>|
            is_stable_desc_sort(sorted, entries@) && pie_of_sorted(sorted, max_slices as int, pie@),
        sum_bytes(pie@) == sum_bytes(entries@),
{
    let ghost inp = entries@;
    let mut top = sort_by_bytes_desc(entries);
    let ghost sorted = top@;
    let k: usize = if max_slices < top.len() {
        max_slices
    } else {
        top.len()
    };
    let rest = top.split_off(k);
    assert(rest@ == tail_from(sorted, max_slices as int));
    assert(sum_bytes(rest@) <= u64::MAX);
    let mut leftover: u64 = 0;
    let mut i: usize = 0;
    while i < rest.len()
        invariant
            i <= rest@.len(),
            sum_bytes(rest@) <= u64::MAX,
            leftover as int == sum_bytes(rest@.take(i as int)),
        decreases rest@.len() - i,
    {
        proof {
            let t = rest@.take(i + 1);
            assert(t.drop_last() == rest@.take(i as int));
            lemma_sum_split(rest@, i + 1);
            lemma_sum_nonneg(rest@.subrange(i + 1, rest@.len() as int));
        }
        leftover = leftover + rest[i].bytes;
        i = i + 1;
    }
    assert(rest@.take(rest@.len() as int) == rest@);
    proof {
        lemma_sum_split(sorted, k as int);
        assert(top@ == sorted.take(k as int));
    }
    if leftover > 0 {
        top.push(DiskEntry::bucket(OTHERS_LABEL, leftover));
        proof {
            assert(top@.drop_last() == sorted.take(k as int));
            assert(top@.subrange(0, k as int) == sorted.take(k as int));
        }
    } else {
        assert(top@.subrange(0, k as int) == sorted.take(k as int));
    }
    assert(pie_of_sorted(sorted, max_slices as int, top@));
    top
}

/// `aggregate`, or `None` when the bytes past the slice budget add up to more
/// than a `u64` holds.
pub fn aggregate_checked(entries: Vec<DiskEntry>, max_slices: usize) -> (pie: Option<Vec<DiskEntry>>)
    ensures
        pie matches Some(p) ==> exists|sorted: Seq<DiskEntry>|
            is_stable_desc_sort(sorted, entries@) && pie_of_sorted(sorted, max_slices as int, p@),
        pie is None ==> exists|sorted: Seq<DiskEntry>|
            is_stable_desc_sort(sorted, entries@) && sum_bytes(tail_from(sorted, max_slices as int))
                > u64::MAX,
{
    let mut top = sort_by_bytes_desc(entries);
    let ghost sorted = top@;
    let k: usize = if max_slices < top.len() {
        max_slices
    } else {
        top.len()
    };
    let rest = top.split_off(k);
    assert(rest@ == tail_from(sorted, max_slices as int));
    let leftover = match checked_total_bytes(rest.as_slice()) {
        Some(v) => v,
        None => {
            return None;
        },
    };
    proof {
        lemma_sum_split(sorted, k as int);
        assert(top@ == sorted.take(k as int));
    }
    if leftover > 0 {
        top.push(DiskEntry::bucket(OTHERS_LABEL, leftover));
        proof {
            assert(top@.drop_last() == sorted.take(k as int));
            assert(top@.subrange(0, k as int) == sorted.take(k as int));
        }
    } else {
        assert(top@.subrange(0, k as int) == sorted.take(k as int));
    }
    assert(pie_of_sorted(sorted, max_slices as int, top@));
    Some(top)
}

/// The shape of every pie: at most `max_slices` slices kept whole plus one
/// bucket; the kept slices are entries of the listing, largest first; no
/// bucket when the whole listing fits in the budget; a bucket, when there is
/// one, comes last, cannot be drilled into and weighs what was left out.
pub proof fn lemma_pie_shape(entries: Seq<DiskEntry>, max_slices: int, sorted: Seq<DiskEntry>, pie: Seq<DiskEntry>)
    requires
        max_slices >= 0,
        is_stable_desc_sort(sorted, entries),
        pie_of_sorted(sorted, max_slices, pie),
    ensures
        pie.len() <= max_slices + 1,
        pie.len() <= entries.len() + 1,
        desc_by_bytes(pie.take(kept_count(entries.len() as int, max_slices))),
        forall|i: int|
            0 <= i < kept_count(entries.len() as int, max_slices) ==> exists|j: int|
                0 <= j < entries.len() && #[trigger] pie[i] == entries[j],
        entries.len() <= max_slices ==> pie.len() == entries.len(),
        forall|i: int, j: int|
            0 <= i < kept_count(entries.len() as int, max_slices) && 0 <= j < tail_from(sorted, max_slices).len()
                ==> (#[trigger] tail_from(sorted, max_slices)[j]).bytes <= (#[trigger] pie[i]).bytes,
        pie.len() > kept_count(entries.len() as int, max_slices) ==> {
            &&& pie.last().kind == EntryKind::Bucket
            &&& pie.last().bytes == sum_bytes(tail_from(sorted, max_slices))
            &&& pie.last().bytes > 0
        },
{
    let p = choose|p: Seq<int>| stable_sort_witness(sorted, entries, p);
    let k = kept_count(entries.len() as int, max_slices);
    assert(pie.take(k) == pie.subrange(0, k));
    assert forall|i: int, j: int| 0 <= i < j < pie.take(k).len() implies (#[trigger] pie.take(k)[i]).bytes
        >= (#[trigger] pie.take(k)[j]).bytes by {
        assert(pie.take(k)[i] == sorted[i]);
        assert(pie.take(k)[j] == sorted[j]);
    }
    assert forall|i: int| 0 <= i < k implies exists|j: int|
        0 <= j < entries.len() && #[trigger] pie[i] == entries[j] by {
        assert(pie[i] == pie.subrange(0, k)[i]);
        assert(pie[i] == sorted[i]);
        assert(sorted[i] == entries[p[i]]);
    }
    if entries.len() <= max_slices {
        assert(tail_from(sorted, max_slices) == Seq::<DiskEntry>::empty());
    }
    assert forall|i: int, j: int|
        0 <= i < k && 0 <= j < tail_from(sorted, max_slices).len() implies (#[trigger] tail_from(
        sorted,
        max_slices,
    )[j]).bytes <= (#[trigger] pie[i]).bytes by {
        assert(pie[i] == pie.subrange(0, k)[i]);
        assert(tail_from(sorted, max_slices)[j] == sorted[k + j]);
        assert(sorted[i].bytes >= sorted[k + j].bytes);
    }
}

} // verus!
