use fairy::contig::{duplicate_kmers, sketch_contig_record, sketch_genome_records, spacing_select};
use fairy::sample::{dup_removal_lsh_full, dup_removal_lsh_full_exact, SampleSketch, SketchFormatError, MAX_DEDUP_COUNT};
use fairy::seeds::extract_markers_positions;
use fxhash::FxHasher;
use scalable_cuckoo_filter::ScalableCuckooFilterBuilder;
use std::collections::{HashMap, HashSet};

fn lcg_sequence(n: usize, mut state: u64) -> Vec<u8> {
    let mut v = Vec::with_capacity(n);
    for _ in 0..n {
        state = state.wrapping_mul(6364136223846793005).wrapping_add(1442695040888963407);
        v.push(b"ACGT"[(state >> 62) as usize]);
    }
    v
}

fn kept_positions(seq: &[u8], c: usize, k: usize, min_spacing: usize) -> Vec<usize> {
    let mut seeds = vec![];
    extract_markers_positions(seq, &mut seeds, c, k, 0);
    let mut out: Vec<usize> = vec![];
    let mut last: Option<usize> = None;
    for (_, pos, _) in seeds {
        if last.map_or(true, |l| pos - l > min_spacing) {
            out.push(pos);
            last = Some(pos);
        }
    }
    out
}

#[test]
fn contig_record_keeps_spaced_seeds() {
    let seq = lcg_sequence(20_000, 99);
    let g = sketch_contig_record(5, 21, "ref.fa".to_string(), "ctg1 desc".to_string(), &seq, 30, true);
    assert_eq!(g.gn_size, 20_000);
    assert_eq!(g.c, 5);
    assert_eq!(g.k, 21);
    assert_eq!(g.min_spacing, 30);
    assert_eq!(g.first_contig_name, "ctg1 desc");
    let mut all = vec![];
    extract_markers_positions(&seq, &mut all, 5, 21, 0);
    let extras = g.pseudotax_tracked_nonused_kmers.as_ref().unwrap();
    assert_eq!(g.genome_kmers.len() + extras.len(), all.len());
    assert!(!g.genome_kmers.is_empty() && !extras.is_empty());
    let pos = kept_positions(&seq, 5, 21, 30);
    assert_eq!(pos.len(), g.genome_kmers.len());
    for w in pos.windows(2) {
        assert!(w[1] - w[0] > 30);
    }
}

#[test]
fn contig_record_without_tracking() {
    let seq = lcg_sequence(5_000, 1);
    let g = sketch_contig_record(5, 31, "r.fa".to_string(), "x".to_string(), &seq, 0, false);
    assert!(g.pseudotax_tracked_nonused_kmers.is_none());
    let mut all = vec![];
    extract_markers_positions(&seq, &mut all, 5, 31, 0);
    // with no spacing every seed after the first is kept
    assert_eq!(g.genome_kmers.len(), all.len());
}

#[test]
fn spacing_filter_by_hand() {
    let seeds = vec![(0usize, 0usize, 1u64), (0, 5, 2), (0, 20, 3), (0, 25, 4), (0, 40, 5), (1, 41, 6), (1, 43, 7)];
    let none = HashSet::new();
    let (kept, extras) = spacing_select(&seeds, 10, &none, true);
    // 0 is kept; 5 is too close; 20 - 0 > 10; 25 is too close; 40 - 20 > 10;
    // 41 starts a new contig; 43 is too close
    assert_eq!(kept, vec![1, 3, 5, 6]);
    assert_eq!(extras, Some(vec![2, 4, 7]));
    let mut ex = HashSet::new();
    ex.insert(3u64);
    let (kept, _) = spacing_select(&seeds, 10, &ex, false);
    assert_eq!(kept, vec![1, 4, 5, 6]);
}

#[test]
fn duplicates_found_across_records() {
    let seeds = vec![(0usize, 0usize, 9u64), (0, 3, 8), (1, 0, 9), (1, 4, 7), (1, 9, 9)];
    let d = duplicate_kmers(&seeds);
    assert_eq!(d.len(), 1);
    assert!(d.contains(&9));
}

#[test]
fn genome_records_drop_repeated_kmers() {
    let a = lcg_sequence(3000, 5);
    let seqs = vec![a.clone(), a.clone()];
    let g = sketch_genome_records(3, 21, "g.fa".to_string(), "first".to_string(), &seqs, 0, true);
    assert_eq!(g.gn_size, 6000);
    assert_eq!(g.first_contig_name, "first");
    // every seed of the first record occurs again in the second
    assert!(g.genome_kmers.is_empty());
    let b = lcg_sequence(3000, 6);
    let seqs = vec![a, b];
    let g2 = sketch_genome_records(3, 21, "g.fa".to_string(), "first".to_string(), &seqs, 0, false);
    assert!(!g2.genome_kmers.is_empty());
}

#[test]
fn single_read_duplicates_are_suppressed() {
    let read = lcg_sequence(150, 77);
    let mut s = SampleSketch::new("reads.fq".to_string(), None, 1, 21, false);
    let mut seen = HashSet::new();
    let mut removed = 0u64;
    s.add_single_read(&read, &mut seen, false, &mut removed);
    let n = s.num_kmers();
    assert!(n > 0);
    s.add_single_read(&read, &mut seen, false, &mut removed);
    assert_eq!(s.num_kmers(), n);
    assert_eq!(removed as usize, 130);
    assert_eq!(s.num_reads(), 2);
    assert_eq!(s.total_read_bases(), 300);
    let mut v = vec![];
    fairy::seeds::extract_markers(&read, &mut v, 1, 21);
    for km in v {
        assert!(s.count(km) >= 1);
    }
}

#[test]
fn single_read_without_dedup_counts_twice() {
    let read = lcg_sequence(150, 78);
    let mut s = SampleSketch::new("reads.fq".to_string(), None, 1, 21, false);
    let mut seen = HashSet::new();
    let mut removed = 0u64;
    s.add_single_read(&read, &mut seen, true, &mut removed);
    s.add_single_read(&read, &mut seen, true, &mut removed);
    assert_eq!(removed, 0);
    let mut v = vec![];
    fairy::seeds::extract_markers(&read, &mut v, 1, 21);
    assert_eq!(s.count(v[0]), 2);
}

#[test]
fn long_reads_get_no_fingerprint() {
    let read = lcg_sequence(500, 79);
    let mut s = SampleSketch::new("reads.fq".to_string(), None, 1, 21, false);
    let mut seen = HashSet::new();
    let mut removed = 0u64;
    s.add_single_read(&read, &mut seen, false, &mut removed);
    s.add_single_read(&read, &mut seen, false, &mut removed);
    assert_eq!(removed, 0);
    assert!(seen.is_empty());
}

#[test]
fn exact_step_first_observation_counts() {
    let mut counts: HashMap<u64, u32> = HashMap::new();
    let mut seen = HashSet::new();
    let mut removed = 0u64;
    let fp = Some(((1u32, 2u32), (3u32, 4u32)));
    seen.insert(fairy::sample::pair_key_exec(10, (1, 2)));
    dup_removal_lsh_full_exact(&mut counts, &mut seen, 10, fp, &mut removed, false);
    assert_eq!(counts[&10], 1);
    assert_eq!(removed, 0);
    dup_removal_lsh_full_exact(&mut counts, &mut seen, 10, fp, &mut removed, false);
    assert_eq!(counts[&10], 1);
    assert_eq!(removed, 1);
    dup_removal_lsh_full_exact(&mut counts, &mut seen, 10, None, &mut removed, false);
    assert_eq!(counts[&10], 2);
}

#[test]
fn counts_saturate_at_cap() {
    let mut counts: HashMap<u64, u32> = HashMap::new();
    counts.insert(5, MAX_DEDUP_COUNT);
    let mut seen = HashSet::new();
    let mut removed = 0u64;
    dup_removal_lsh_full_exact(&mut counts, &mut seen, 5, None, &mut removed, true);
    assert_eq!(counts[&5], MAX_DEDUP_COUNT);
}

#[test]
fn filter_step_never_drops_first_observation() {
    let mut filter = ScalableCuckooFilterBuilder::new()
        .initial_capacity(1000)
        .false_positive_probability(0.001)
        .hasher(FxHasher::default())
        .finish();
    filter.insert(&(10u64, 1u32, 2u32));
    let mut counts: HashMap<u64, u32> = HashMap::new();
    let mut removed = 0u64;
    let fp = Some(((1u32, 2u32), (3u32, 4u32)));
    let sup = dup_removal_lsh_full(&mut counts, &mut filter, 10, fp, &mut removed, false);
    assert!(!sup);
    assert_eq!(counts[&10], 1);
    let sup = dup_removal_lsh_full(&mut counts, &mut filter, 10, fp, &mut removed, false);
    assert!(sup);
    assert_eq!(counts[&10], 1);
    assert_eq!(removed, 1);
}

#[test]
fn read_pairs_count_shared_kmers_once() {
    let r1 = lcg_sequence(150, 31);
    let mut s = SampleSketch::new("a_1.fq".to_string(), Some("S1".to_string()), 1, 21, true);
    let mut seen = HashSet::new();
    let mut removed = 0u64;
    s.add_read_pair(&r1, &r1, &mut seen, true, &mut removed);
    let mut v = vec![];
    fairy::seeds::extract_markers(&r1, &mut v, 1, 21);
    assert_eq!(s.count(v[0]), 1);
    assert_eq!(s.num_reads(), 1);
    assert_eq!(s.display_name(), "S1");
    assert!(s.paired());
}

#[test]
fn read_pairs_with_filter() {
    let r1 = lcg_sequence(150, 32);
    let r2 = lcg_sequence(150, 33);
    let mut filter = ScalableCuckooFilterBuilder::new()
        .initial_capacity(10_000)
        .false_positive_probability(0.001)
        .hasher(FxHasher::default())
        .finish();
    let mut s = SampleSketch::new("a_1.fq".to_string(), None, 1, 21, true);
    let mut removed = 0u64;
    s.add_read_pair_filtered(&r1, &r2, &mut filter, false, &mut removed);
    s.add_read_pair_filtered(&r1, &r2, &mut filter, false, &mut removed);
    let mut v = vec![];
    fairy::seeds::extract_markers(&r1, &mut v, 1, 21);
    assert_eq!(s.count(v[0]), 1);
    assert!(removed >= 130);
    assert_eq!(s.display_name(), "a_1.fq");
}

#[test]
fn sample_sketch_round_trip() {
    let mut s = SampleSketch::new("r.fq".to_string(), Some("S9".to_string()), 2, 21, false);
    let mut seen = HashSet::new();
    let mut removed = 0u64;
    for i in 0..20 {
        s.add_single_read(&lcg_sequence(120, i), &mut seen, false, &mut removed);
    }
    let (ks, cs) = s.to_parts();
    let t = SampleSketch::from_parts(
        s.file_name().clone(),
        s.sample_name().clone(),
        s.c(),
        s.k(),
        s.paired(),
        s.num_reads(),
        s.total_read_bases(),
        ks.clone(),
        cs,
    )
    .unwrap();
    assert_eq!(t.num_kmers(), s.num_kmers());
    for km in ks {
        assert_eq!(t.count(km), s.count(km));
    }
    assert_eq!(t.c(), 2);
    assert_eq!(t.k(), 21);
    assert_eq!(t.num_reads(), 20);
    assert_eq!(t.total_read_bases(), 2400);
    assert_eq!(t.display_name(), "S9");
}

#[test]
fn stored_sketch_errors() {
    let r = SampleSketch::from_parts("f".to_string(), None, 1, 21, false, 0, 0, vec![1, 2], vec![1]);
    assert_eq!(r.err(), Some(SketchFormatError::LengthMismatch));
    let r = SampleSketch::from_parts("f".to_string(), None, 0, 21, false, 0, 0, vec![1], vec![1]);
    assert_eq!(r.err(), Some(SketchFormatError::BadParameters));
    let r = SampleSketch::from_parts("f".to_string(), None, 1, 40, false, 0, 0, vec![1], vec![1]);
    assert_eq!(r.err(), Some(SketchFormatError::BadParameters));
    let r = SampleSketch::from_parts("f".to_string(), None, 1, 21, false, 0, 0, vec![1, 1], vec![u32::MAX, 3]);
    let s = r.unwrap();
    assert_eq!(s.count(1), 3);
    let r = SampleSketch::from_parts("f".to_string(), None, 1, 21, false, 0, 0, vec![4], vec![u32::MAX]);
    assert_eq!(r.unwrap().count(4), MAX_DEDUP_COUNT);
}

#[test]
fn seed_at_base_zero_is_spaced_too() {
    let seq = vec![b'A'; 22];
    let g = sketch_contig_record(1, 21, "a.fa".to_string(), "a".to_string(), &seq, 5, true);
    assert_eq!(g.genome_kmers.len(), 1);
    assert_eq!(g.pseudotax_tracked_nonused_kmers.as_ref().unwrap().len(), 1);
}

#[test]
fn repeated_kmer_within_a_mate_counts_once() {
    let mate = vec![b'A'; 22];
    let mut s = SampleSketch::new("a_1.fq".to_string(), None, 1, 21, true);
    let mut seen = HashSet::new();
    let mut removed = 0u64;
    s.add_read_pair(&mate, &mate, &mut seen, true, &mut removed);
    let mut v = vec![];
    fairy::seeds::extract_markers(&mate, &mut v, 1, 21);
    assert_eq!(v.len(), 2);
    assert_eq!(s.count(v[0]), 1);
}

#[test]
fn equal_fingerprint_halves_do_not_suppress_first_sighting() {
    let mut counts: HashMap<u64, u32> = HashMap::new();
    counts.insert(10, 1);
    let mut seen = HashSet::new();
    let mut removed = 0u64;
    let fp = Some(((1u32, 2u32), (1u32, 2u32)));
    dup_removal_lsh_full_exact(&mut counts, &mut seen, 10, fp, &mut removed, false);
    assert_eq!(counts[&10], 2);
    assert_eq!(removed, 0);
    dup_removal_lsh_full_exact(&mut counts, &mut seen, 10, fp, &mut removed, false);
    assert_eq!(counts[&10], 2);
    assert_eq!(removed, 1);
}
