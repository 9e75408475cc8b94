use camembert::render::number_format::share_tenths_exec;
use camembert::render::renderer::humanize_bytes;

fn float_humanize(bytes: u64) -> String {
    const KIB: u64 = 1024;
    const MIB: u64 = KIB * 1024;
    const GIB: u64 = MIB * 1024;
    const TIB: u64 = GIB * 1024;
    if bytes < KIB {
        format!("{} B", bytes)
    } else if bytes < MIB {
        format!("{:.1} KB", bytes as f64 / KIB as f64)
    } else if bytes < GIB {
        format!("{:.1} MB", bytes as f64 / MIB as f64)
    } else if bytes < TIB {
        format!("{:.1} GB", bytes as f64 / GIB as f64)
    } else {
        format!("{:.1} TB", bytes as f64 / TIB as f64)
    }
}

fn tenths_text(t: u64) -> String {
    format!("{}.{}", t / 10, t % 10)
}

struct Lcg(u64);

impl Lcg {
    fn next(&mut self) -> u64 {
        self.0 = self.0.wrapping_mul(6364136223846793005).wrapping_add(1442695040888963407);
        self.0 ^ (self.0 >> 29)
    }
}

#[test]
fn humanize_zero_bytes() {
    assert_eq!(humanize_bytes(0), "0 B");
}

#[test]
fn humanize_below_one_kib_keeps_bytes_unit() {
    assert_eq!(humanize_bytes(512), "512 B");
    assert_eq!(humanize_bytes(1023), "1023 B");
}

#[test]
fn humanize_one_kib_exact() {
    assert_eq!(humanize_bytes(1024), "1.0 KB");
}

#[test]
fn humanize_one_and_a_half_kib() {
    assert_eq!(humanize_bytes(1536), "1.5 KB");
}

#[test]
fn humanize_megabytes_gigabytes_terabytes() {
    assert_eq!(humanize_bytes(1024 * 1024), "1.0 MB");
    assert_eq!(humanize_bytes(1024u64.pow(3)), "1.0 GB");
    assert_eq!(humanize_bytes(1024u64.pow(4)), "1.0 TB");
}

#[test]
fn humanize_rounds_ties_to_even_like_float_formatting() {
    // 1.25 KB and 1.75 KB are exact ties.
    assert_eq!(humanize_bytes(1280), float_humanize(1280));
    assert_eq!(humanize_bytes(1792), float_humanize(1792));
    assert_eq!(humanize_bytes(1280), "1.2 KB");
    assert_eq!(humanize_bytes(1792), "1.8 KB");
}

#[test]
fn humanize_agrees_with_float_formatting() {
    let mut rng = Lcg(42);
    let mut samples: Vec<u64> = vec![u64::MAX, u64::MAX - 1, (1 << 53) + 1, (1 << 54) + 3, 5 << 38, (5 << 38) + 1];
    for shift in 0..64 {
        let base = 1u64 << shift;
        samples.extend([base, base - 1, base + 1, base / 2 * 3]);
    }
    for _ in 0..200_000 {
        let v = rng.next();
        samples.push(v >> (v % 64));
    }
    for b in samples {
        assert_eq!(humanize_bytes(b), float_humanize(b), "bytes {b}");
    }
}

#[test]
fn shares_agree_with_float_percentages() {
    let mut rng = Lcg(7);
    let mut pairs: Vec<(u64, u64)> = vec![(1, 2000), (3, 2000), (1, 3), (2, 3), (75, 100), (25, 100), (1, u64::MAX), (u64::MAX, u64::MAX), (0, 5), ((1 << 53) + 1, (1 << 54) + 1)];
    for _ in 0..200_000 {
        let a = rng.next() >> (rng.next() % 64);
        let b = rng.next() >> (rng.next() % 64);
        let (part, whole) = if a <= b { (a, b) } else { (b, a) };
        if whole > 0 {
            pairs.push((part, whole));
        }
    }
    for whole in 1..300u64 {
        for part in 0..=whole {
            pairs.push((part, whole));
        }
    }
    for (part, whole) in pairs {
        let pct = part as f64 / whole as f64 * 100.0;
        assert_eq!(tenths_text(share_tenths_exec(part, whole)), format!("{:.1}", pct), "{part}/{whole}");
    }
}
