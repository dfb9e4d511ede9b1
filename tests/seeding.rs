use fairy::fingerprint::{pair_kmer, pair_kmer_single};
use fairy::seeds::{extract_markers, extract_markers_positions, fmh_seeds, mix64_exec};

fn code(b: u8) -> Option<u64> {
    match b {
        b'A' | b'a' => Some(0),
        b'C' | b'c' => Some(1),
        b'G' | b'g' => Some(2),
        b'T' | b't' => Some(3),
        _ => None,
    }
}

/// Direct window-by-window computation of the seeds.
fn naive_seeds(s: &[u8], c: usize, k: usize) -> Vec<(usize, u64)> {
    let mut out = vec![];
    if s.len() < k {
        return out;
    }
    for a in 0..=s.len() - k {
        let w = &s[a..a + k];
        if w.iter().any(|b| code(*b).is_none()) {
            continue;
        }
        let mut f: u64 = 0;
        let mut r: u64 = 0;
        for (j, b) in w.iter().enumerate() {
            let x = code(*b).unwrap();
            f = f * 4 + x;
            r += (3 - x) << (2 * j);
        }
        let h = mix64_exec(f.min(r));
        if h % c as u64 == 0 {
            out.push((a, h));
        }
    }
    out
}

fn lcg_sequence(n: usize, mut state: u64) -> Vec<u8> {
    let mut v = Vec::with_capacity(n);
    for _ in 0..n {
        state = state.wrapping_mul(6364136223846793005).wrapping_add(1442695040888963407);
        v.push(b"ACGT"[(state >> 62) as usize]);
    }
    v
}

fn revcomp(s: &[u8]) -> Vec<u8> {
    s.iter()
        .rev()
        .map(|b| match b {
            b'A' => b'T',
            b'C' => b'G',
            b'G' => b'C',
            b'T' => b'A',
            x => *x,
        })
        .collect()
}

#[test]
fn mix64_known_values() {
    assert_eq!(mix64_exec(0), {
        let mut key: u64 = 0;
        key = !key.wrapping_add(key << 21);
        key = key ^ key >> 24;
        key = key.wrapping_add(key << 3).wrapping_add(key << 8);
        key = key ^ key >> 14;
        key = key.wrapping_add(key << 2).wrapping_add(key << 4);
        key = key ^ key >> 28;
        key.wrapping_add(key << 31)
    });
    assert_ne!(mix64_exec(1), mix64_exec(2));
}

#[test]
fn seeds_match_window_by_window() {
    let s = lcg_sequence(5000, 7);
    for &(c, k) in &[(1usize, 21usize), (3, 21), (10, 31), (50, 31)] {
        let mut v = vec![];
        extract_markers(&s, &mut v, c, k);
        let expected: Vec<u64> = naive_seeds(&s, c, k).into_iter().map(|x| x.1).collect();
        assert_eq!(v, expected);
    }
}

#[test]
fn seeds_with_c_one_cover_every_window() {
    let s = lcg_sequence(100, 3);
    let mut v = vec![];
    fmh_seeds(&s, &mut v, 1, 21);
    assert_eq!(v.len(), 80);
}

#[test]
fn seeds_append_to_existing_vector() {
    let s = lcg_sequence(60, 11);
    let mut v = vec![42u64];
    extract_markers(&s, &mut v, 1, 21);
    assert_eq!(v[0], 42);
    assert_eq!(v.len(), 1 + 40);
}

#[test]
fn short_sequence_has_no_seeds() {
    let mut v = vec![];
    extract_markers(b"ACGTACGTACGTACGTACGT", &mut v, 1, 21);
    assert!(v.is_empty());
}

#[test]
fn non_nucleotide_breaks_windows() {
    let mut s = lcg_sequence(61, 5);
    s[30] = b'N';
    let mut v = vec![];
    extract_markers(&s, &mut v, 1, 21);
    // windows starting at 0..=9 and 31..=40 avoid position 30
    assert_eq!(v.len(), 20);
    let expected: Vec<u64> = naive_seeds(&s, 1, 21).into_iter().map(|x| x.1).collect();
    assert_eq!(v, expected);
}

#[test]
fn lowercase_bases_are_read_like_uppercase() {
    let s = lcg_sequence(200, 9);
    let lower: Vec<u8> = s.iter().map(|b| b.to_ascii_lowercase()).collect();
    let mut a = vec![];
    let mut b = vec![];
    extract_markers(&s, &mut a, 1, 31);
    extract_markers(&lower, &mut b, 1, 31);
    assert_eq!(a, b);
}

#[test]
fn seeds_are_strand_independent() {
    let s = lcg_sequence(3000, 21);
    let rc = revcomp(&s);
    let mut a = vec![];
    let mut b = vec![];
    extract_markers(&s, &mut a, 5, 21);
    extract_markers(&rc, &mut b, 5, 21);
    b.reverse();
    assert_eq!(a, b);
}

#[test]
fn positions_are_window_starts() {
    let s = lcg_sequence(4000, 13);
    let mut v = vec![];
    extract_markers_positions(&s, &mut v, 7, 21, 3);
    let expected: Vec<(usize, usize, u64)> =
        naive_seeds(&s, 7, 21).into_iter().map(|(a, h)| (3, a, h)).collect();
    assert_eq!(v, expected);
    for w in v.windows(2) {
        assert!(w[0].1 < w[1].1);
    }
}

#[test]
fn sampling_rate_is_about_one_in_c() {
    let n = 400_000;
    let s = lcg_sequence(n, 12345);
    let c = 50;
    let mut v = vec![];
    extract_markers(&s, &mut v, c, 31);
    let expected = (n - 30) as f64 / c as f64;
    let got = v.len() as f64;
    // the count is binomial; 5 standard deviations is about 0.04 of the mean here
    assert!((got - expected).abs() < 5.0 * expected.sqrt(), "got {} expected {}", got, expected);
}

#[test]
fn pair_fingerprint_needs_33_bases() {
    let a = vec![b'C'; 32];
    let b = vec![b'C'; 40];
    assert_eq!(pair_kmer(&a, &b), None);
    assert_eq!(pair_kmer(&b, &a), None);
}

#[test]
fn pair_fingerprint_packs_alternate_bases() {
    let a = vec![b'C'; 33];
    let mut b = vec![b'A'; 33];
    for i in 0..33 {
        if i % 2 == 1 {
            b[i] = b'T';
        }
    }
    let fp = pair_kmer(&a, &b).unwrap();
    // C = 1 in every slot: 0x55555555; even bases of b are A (0), odd ones T (3)
    assert_eq!(fp, ((0x5555_5555, 0), (0x5555_5555, 0xFFFF_FFFF)));
}

#[test]
fn single_fingerprint_uses_front_and_middle() {
    assert_eq!(pair_kmer_single(&vec![b'G'; 65]), None);
    let mut s = vec![b'A'; 100];
    for i in 50..100 {
        s[i] = b'G';
    }
    let fp = pair_kmer_single(&s).unwrap();
    assert_eq!(fp, ((0, 0xAAAA_AAAA), (0, 0xAAAA_AAAA)));
}
