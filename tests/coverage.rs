use fairy::contig::GenomeSketch;
use fairy::files::{classify_input, is_fasta, is_fastq, InputKind};
use fairy::inference::{
    check_compatible, collect_hits, coverage_route, estimator_support, CoverageRoute, full_counts, ratio_mode, sort_hits, ParamMismatch,
};
use fairy::matrix::{contig_display_name, header_line, matrix_cells, sample_columns};
use fairy::plan::{
    check_sketch_params, get_chunks, merge_bundle_params, ram_barrier_wait, sample_step, validate_sketch_inputs, ParamsError,
    SketchInputError,
};
use fairy::reassign::winner_table;
use fairy::sample::SampleSketch;

fn genome(kmers: Vec<u64>, extras: Option<Vec<u64>>, c: usize, k: usize) -> GenomeSketch {
    GenomeSketch {
        file_name: "g.fa".to_string(),
        first_contig_name: "ctg".to_string(),
        gn_size: 1000,
        c,
        k,
        min_spacing: 30,
        genome_kmers: kmers,
        pseudotax_tracked_nonused_kmers: extras,
    }
}

fn sample_with(counts: &[(u64, u32)]) -> SampleSketch {
    let ks: Vec<u64> = counts.iter().map(|x| x.0).collect();
    let cs: Vec<u32> = counts.iter().map(|x| x.1).collect();
    SampleSketch::from_parts("s.fq".to_string(), None, 50, 31, false, 1, 100, ks, cs).unwrap()
}

#[test]
fn compatibility_of_sketches() {
    let s = sample_with(&[]);
    assert_eq!(check_compatible(&genome(vec![], None, 50, 31), &s), Ok(()));
    assert_eq!(check_compatible(&genome(vec![], None, 100, 31), &s), Ok(()));
    assert_eq!(check_compatible(&genome(vec![], None, 50, 21), &s), Err(ParamMismatch::KMismatch));
    assert_eq!(check_compatible(&genome(vec![], None, 10, 31), &s), Err(ParamMismatch::CMismatch));
}

#[test]
fn hits_skip_unseen_and_foreign_kmers() {
    let s = sample_with(&[(1, 5), (2, 0), (3, 7), (4, 2)]);
    let kmers = vec![1, 2, 3, 4, 5];
    assert_eq!(collect_hits(&kmers, &s, None, 0), vec![5, 7, 2]);
    let mut w = std::collections::HashMap::new();
    w.insert(1u64, (10u64, 1usize));
    w.insert(3u64, (10u64, 0usize));
    assert_eq!(collect_hits(&kmers, &s, Some(&w), 0), vec![7, 2]);
    assert_eq!(collect_hits(&kmers, &s, Some(&w), 1), vec![5, 2]);
}

#[test]
fn full_vector_pads_and_trims() {
    let mut covs = vec![9, 1, 2, 2, 40];
    sort_hits(&mut covs);
    assert_eq!(covs, vec![1, 2, 2, 9, 40]);
    assert_eq!(full_counts(&covs, 8, None), vec![0, 0, 0, 1, 2, 2, 9, 40]);
    assert_eq!(full_counts(&covs, 5, Some(9)), vec![1, 2, 2, 9]);
    // the median 2 is above the limit 1: nothing is trimmed
    assert_eq!(full_counts(&covs, 5, Some(1)), vec![1, 2, 2, 9, 40]);
}

#[test]
fn estimator_support_needs_fifty_varied_counts() {
    let mut v = vec![0u32; 10];
    v.extend(vec![3u32; 60]);
    assert!(!estimator_support(&v));
    v.push(4);
    assert!(estimator_support(&v));
    let w: Vec<u32> = (1..50).collect();
    assert!(!estimator_support(&w));
    assert!(!estimator_support(&vec![]));
}

#[test]
fn ratio_mode_reads_modal_count_and_successor() {
    let mut v = vec![0u32; 5];
    v.extend(vec![2u32; 30]);
    v.extend(vec![3u32; 20]);
    v.extend(vec![5u32; 10]);
    assert_eq!(ratio_mode(&v), Some((2, 30, 20)));
    // ties go to the larger value, which has no successor here
    let mut t = vec![2u32; 30];
    t.extend(vec![3u32; 30]);
    assert_eq!(ratio_mode(&t), None);
    let mut u = vec![2u32; 30];
    u.extend(vec![4u32; 25]);
    assert_eq!(ratio_mode(&u), None);
    assert_eq!(ratio_mode(&vec![1u32; 10]), None);
}

#[test]
fn winner_takes_shared_kmers() {
    let contigs = vec![
        genome(vec![1, 2, 3, 4], None, 50, 31),
        genome(vec![3, 4, 5], Some(vec![6]), 50, 31),
        genome(vec![1, 6], None, 50, 31),
    ];
    let w = winner_table(&contigs, &vec![(0, 100), (1, 200), (2, 100)]);
    assert_eq!(w[&1], (100, 0));
    assert_eq!(w[&2], (100, 0));
    assert_eq!(w[&3], (200, 1));
    assert_eq!(w[&4], (200, 1));
    assert_eq!(w[&5], (200, 1));
    assert_eq!(w[&6], (200, 1));
    assert_eq!(w.len(), 6);
}

#[test]
fn reassignment_moves_shared_signal() {
    // two contigs share k-mers 1..=9; only contig 0 has the high-coverage k-mer 100
    let shared: Vec<u64> = (1..=9).collect();
    let mut a = shared.clone();
    a.push(100);
    let mut b = shared.clone();
    b.push(200);
    let contigs = vec![genome(a.clone(), None, 50, 31), genome(b.clone(), None, 50, 31)];
    let mut counts: Vec<(u64, u32)> = shared.iter().map(|k| (*k, 10)).collect();
    counts.push((100, 10));
    counts.push((200, 1));
    let s = sample_with(&counts);
    assert_eq!(collect_hits(&b, &s, None, 1).len(), 10);
    let w = winner_table(&contigs, &vec![(0, 990), (1, 980)]);
    assert_eq!(collect_hits(&a, &s, Some(&w), 0).len(), 10);
    assert_eq!(collect_hits(&b, &s, Some(&w), 1), vec![1]);
}

#[test]
fn contig_names_cut_at_white_space() {
    assert_eq!(contig_display_name("NC_002695.2 Escherichia coli"), "NC_002695.2");
    assert_eq!(contig_display_name("ctg\tx"), "ctg");
    assert_eq!(contig_display_name("plain"), "plain");
    assert_eq!(contig_display_name(""), "");
}

#[test]
fn header_layouts() {
    let s = vec!["S1".to_string(), "S2".to_string()];
    assert_eq!(header_line(&s, false), "contigName\tcontigLen\ttotalAvgDepth\tS1\tS1-var\tS2\tS2-var");
    assert_eq!(header_line(&s, true), "contigName\tS1\tS2");
}

#[test]
fn sample_columns_in_human_order() {
    let names = vec!["S10".to_string(), "S2".to_string(), "S1".to_string(), "S2".to_string()];
    assert_eq!(sample_columns(&names), vec!["S1", "S2", "S10"]);
    let long = vec!["b12345678901".to_string(), "a".to_string()];
    assert_eq!(sample_columns(&long), vec!["b12345678901", "a"]);
}

#[test]
fn matrix_cells_pick_last_result() {
    let samples = vec!["S1".to_string(), "S2".to_string()];
    let results = vec![(0usize, "S2".to_string()), (1, "S1".to_string()), (0, "S2".to_string()), (5, "S1".to_string())];
    let g = matrix_cells(2, &samples, &results);
    assert_eq!(g, vec![vec![None, Some(2)], vec![Some(1), None]]);
}

#[test]
fn file_kinds_by_suffix() {
    assert!(is_fastq("a/b.fastq.gz"));
    assert!(is_fastq("x.fq"));
    assert!(!is_fastq("x.fa"));
    assert!(is_fasta("x.fna.gz"));
    assert!(!is_fasta("x.fasta.bz2"));
    assert_eq!(classify_input("s.paired.bcsp"), InputKind::SampleSketch);
    assert_eq!(classify_input("db.bcdb"), InputKind::ContigSketches);
    assert_eq!(classify_input("c.fasta"), InputKind::Contigs);
    assert_eq!(classify_input("r.fnq"), InputKind::Reads);
    assert_eq!(classify_input("notes.txt"), InputKind::Unknown);
}

#[test]
fn chunks_of_indices() {
    let idx: Vec<usize> = (0..7).collect();
    assert_eq!(get_chunks(&idx, 3), vec![vec![0, 1, 2], vec![3, 4, 5], vec![6]]);
    assert_eq!(get_chunks(&idx, 7), vec![vec![0, 1, 2, 3, 4, 5, 6]]);
    assert_eq!(get_chunks(&vec![], 2), Vec::<Vec<usize>>::new());
}

#[test]
fn sample_parallelism() {
    assert_eq!(sample_step(Some(4), 8, true), 4);
    assert_eq!(sample_step(Some(0), 8, true), 1);
    assert_eq!(sample_step(None, 8, true), 5);
    assert_eq!(sample_step(None, 8, false), 1);
}

#[test]
fn ram_barrier() {
    assert!(ram_barrier_wait(7, Some(8_000_000_000)));
    assert!(!ram_barrier_wait(7, Some(7_000_000_000)));
    assert!(!ram_barrier_wait(7, None));
    assert!(!ram_barrier_wait(usize::MAX, Some(usize::MAX)));
}

#[test]
fn sketch_input_checks() {
    assert_eq!(validate_sketch_inputs(0, 0, 0, None, None), Err(SketchInputError::NoInputs));
    assert_eq!(validate_sketch_inputs(1, 2, 0, None, None), Err(SketchInputError::PairCountMismatch));
    assert_eq!(validate_sketch_inputs(1, 1, 1, Some(1), None), Err(SketchInputError::NameCountMismatch));
    assert_eq!(validate_sketch_inputs(1, 1, 1, Some(2), Some(6)), Err(SketchInputError::RamTooLow));
    assert_eq!(validate_sketch_inputs(1, 1, 1, Some(2), Some(7)), Ok(()));
}

#[test]
fn bundle_parameters_merge() {
    assert_eq!(merge_bundle_params(None, None, 50, 31), Ok((Some(50), Some(31))));
    assert_eq!(merge_bundle_params(Some(50), Some(31), 20, 31), Ok((Some(20), Some(31))));
    assert_eq!(merge_bundle_params(Some(20), Some(31), 50, 31), Ok((Some(20), Some(31))));
    assert_eq!(merge_bundle_params(Some(20), Some(31), 50, 21), Err(ParamsError::InconsistentK));
}

#[test]
fn raw_file_sketch_parameters() {
    assert_eq!(check_sketch_params(None, None, 50, 31), Ok(()));
    assert_eq!(check_sketch_params(Some(100), Some(31), 50, 31), Ok(()));
    assert_eq!(check_sketch_params(Some(20), Some(31), 50, 31), Err(ParamsError::CTooLarge));
    assert_eq!(check_sketch_params(Some(50), Some(21), 50, 31), Err(ParamsError::KMismatch));
}

#[test]
fn matrix_independent_of_result_order() {
    let samples = vec!["A".to_string(), "B".to_string()];
    let r1 = vec![(0usize, "A".to_string()), (1, "B".to_string()), (0, "B".to_string())];
    let r2 = vec![(0usize, "B".to_string()), (0, "A".to_string()), (1, "B".to_string())];
    let g1 = matrix_cells(2, &samples, &r1);
    let g2 = matrix_cells(2, &samples, &r2);
    for i in 0..2 {
        for j in 0..2 {
            assert_eq!(g1[i][j].map(|r| &r1[r]), g2[i][j].map(|r| &r2[r]));
        }
    }
    assert_eq!(g1[1][0], None);
}

#[test]
fn sample_sketch_name_overrides_file() {
    let s = SampleSketch::new("reads/coli1.fq.gz".to_string(), Some("S1".to_string()), 50, 31, true);
    assert_eq!(s.display_name(), "S1");
    let t = SampleSketch::new("reads/coli1.fq.gz".to_string(), None, 50, 31, true);
    assert_eq!(t.display_name(), "reads/coli1.fq.gz");
}

#[test]
fn coverage_route_by_median() {
    assert_eq!(coverage_route(1), CoverageRoute::Estimate);
    assert_eq!(coverage_route(2), CoverageRoute::Estimate);
    assert_eq!(coverage_route(3), CoverageRoute::HitMean);
    assert_eq!(coverage_route(14), CoverageRoute::HitMean);
    assert_eq!(coverage_route(15), CoverageRoute::Median);
}
