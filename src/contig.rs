use vstd::prelude::*;
use crate::seeds::{extract_markers_positions, positioned_seeds_of};

verus! {

/// Sketch of one reference contig (or of a whole reference file).
pub struct GenomeSketch {
    pub file_name: String,
    pub first_contig_name: String,
    pub gn_size: usize,
    pub c: usize,
    pub k: usize,
    pub min_spacing: usize,
    pub genome_kmers: Vec<u64>,
    pub pseudotax_tracked_nonused_kmers: Option<Vec<u64>>,
}

/// What the spacing filter has produced after a prefix of the seeds.
pub struct SpacingState {
    pub kept: Seq<u64>,
    pub kept_pos: Seq<usize>,
    pub kept_contig: Seq<usize>,
    pub extras: Seq<u64>,
    pub last_pos: usize,
    pub last_contig: usize,
    /// Whether a seed has been kept yet.
    pub started: bool,
}

/// Whether a seed at `(contig, pos)` is far enough from the last kept seed to be kept.
pub open spec fn spaced_enough(st: SpacingState, contig: usize, pos: usize, min_spacing: usize) -> bool {
    !st.started || st.last_contig != contig || pos - st.last_pos > min_spacing
}

/// The spacing filter run over the first `n` seeds `(contig, pos, kmer)`: a seed whose k-mer is in
/// `exclude` is dropped; otherwise it is kept when it is spaced enough from the last kept seed,
/// and else set aside as an extra.
pub open spec fn spacing_upto(
    seeds: Seq<(usize, usize, u64)>,
    min_spacing: usize,
    exclude: Set<u64>,
    n: int,
) -> SpacingState
    decreases n,
{
    if n <= 0 {
        SpacingState {
            kept: Seq::empty(),
            kept_pos: Seq::empty(),
            kept_contig: Seq::empty(),
            extras: Seq::empty(),
            last_pos: 0,
            last_contig: 0,
            started: false,
        }
    } else {
        let st = spacing_upto(seeds, min_spacing, exclude, n - 1);
        let (contig, pos, km) = seeds[n - 1];
        if exclude.contains(km) {
            st
        } else if spaced_enough(st, contig, pos, min_spacing) {
            SpacingState {
                kept: st.kept.push(km),
                kept_pos: st.kept_pos.push(pos),
                kept_contig: st.kept_contig.push(contig),
                extras: st.extras,
                last_pos: pos,
                last_contig: contig,
                started: true,
            }
        } else {
            SpacingState { extras: st.extras.push(km), ..st }
        }
    }
}

pub open spec fn spacing_filter(
    seeds: Seq<(usize, usize, u64)>,
    min_spacing: usize,
    exclude: Set<u64>,
) -> SpacingState {
    spacing_upto(seeds, min_spacing, exclude, seeds.len() as int)
}

/// In the output of the spacing filter, two adjacent kept seeds of one contig lie more than
/// `min_spacing` bases apart.
pub proof fn lemma_kept_spacing(
    seeds: Seq<(usize, usize, u64)>,
    min_spacing: usize,
    exclude: Set<u64>,
    n: int,
)
    ensures
        ({
            let st = spacing_upto(seeds, min_spacing, exclude, n);
            forall|j: int|
                0 <= j < st.kept_pos.len() - 1 && st.kept_contig[j] == st.kept_contig[j + 1]
                    ==> st.kept_pos[j + 1] - #[trigger] st.kept_pos[j] > min_spacing
        }),
    decreases n,
{
    lemma_spacing_last(seeds, min_spacing, exclude, n);
    if n > 0 {
        lemma_kept_spacing(seeds, min_spacing, exclude, n - 1);
        lemma_spacing_last(seeds, min_spacing, exclude, n - 1);
        let st = spacing_upto(seeds, min_spacing, exclude, n - 1);
        let st2 = spacing_upto(seeds, min_spacing, exclude, n);
        assert forall|j: int|
            0 <= j < st2.kept_pos.len() - 1 && st2.kept_contig[j] == st2.kept_contig[j + 1]
                implies st2.kept_pos[j + 1] - #[trigger] st2.kept_pos[j] > min_spacing by {
            if st2.kept_pos.len() > st.kept_pos.len() && j == st.kept_pos.len() - 1 {
                assert(st2.kept_pos[j] == st.kept_pos[j]);
                assert(st2.kept_contig[j] == st.kept_contig[j]);
                assert(st2.kept_pos[j] == st.last_pos);
                assert(st2.kept_contig[j] == st.last_contig);
            } else {
                assert(st2.kept_pos[j] == st.kept_pos[j]);
                assert(st2.kept_pos[j + 1] == st.kept_pos[j + 1]);
                assert(st2.kept_contig[j] == st.kept_contig[j]);
                assert(st2.kept_contig[j + 1] == st.kept_contig[j + 1]);
            }
        }
    }
}

/// Every kept k-mer and every extra is the k-mer of one of the filtered seeds, and kept seeds
/// are never excluded.
pub proof fn lemma_kept_are_seeds(
    seeds: Seq<(usize, usize, u64)>,
    min_spacing: usize,
    exclude: Set<u64>,
    n: int,
)
    requires
        n <= seeds.len(),
    ensures
        ({
            let st = spacing_upto(seeds, min_spacing, exclude, n);
            &&& forall|j: int|
                0 <= j < st.kept.len() ==> exists|i: int|
                    0 <= i < n && (#[trigger] seeds[i]).2 == #[trigger] st.kept[j]
            &&& forall|j: int|
                0 <= j < st.extras.len() ==> exists|i: int|
                    0 <= i < n && (#[trigger] seeds[i]).2 == #[trigger] st.extras[j]
            &&& forall|j: int| 0 <= j < st.kept.len() ==> !exclude.contains(#[trigger] st.kept[j])
        }),
    decreases n,
{
    if n > 0 {
        lemma_kept_are_seeds(seeds, min_spacing, exclude, n - 1);
        let st = spacing_upto(seeds, min_spacing, exclude, n - 1);
        let st2 = spacing_upto(seeds, min_spacing, exclude, n);
        assert forall|j: int| 0 <= j < st2.kept.len() implies exists|i: int|
            0 <= i < n && (#[trigger] seeds[i]).2 == #[trigger] st2.kept[j] by {
            if j < st.kept.len() {
                assert(st2.kept[j] == st.kept[j]);
                let i = choose|i: int| 0 <= i < n - 1 && (#[trigger] seeds[i]).2 == st.kept[j];
                assert(0 <= i < n);
            } else {
                assert(seeds[n - 1].2 == st2.kept[j]);
            }
        }
        assert forall|j: int| 0 <= j < st2.extras.len() implies exists|i: int|
            0 <= i < n && (#[trigger] seeds[i]).2 == #[trigger] st2.extras[j] by {
            if j < st.extras.len() {
                assert(st2.extras[j] == st.extras[j]);
                let i = choose|i: int| 0 <= i < n - 1 && (#[trigger] seeds[i]).2 == st.extras[j];
                assert(0 <= i < n);
            } else {
                assert(seeds[n - 1].2 == st2.extras[j]);
            }
        }
        assert forall|j: int| 0 <= j < st2.kept.len() implies !exclude.contains(#[trigger] st2.kept[j]) by {
            if j < st.kept.len() {
                assert(st2.kept[j] == st.kept[j]);
            }
        }
    }
}

/// The filter remembers the position and contig of the last kept seed.
proof fn lemma_spacing_last(
    seeds: Seq<(usize, usize, u64)>,
    min_spacing: usize,
    exclude: Set<u64>,
    n: int,
)
    ensures
        ({
            let st = spacing_upto(seeds, min_spacing, exclude, n);
            &&& st.kept_pos.len() == st.kept.len()
            &&& st.kept_contig.len() == st.kept.len()
            &&& st.kept.len() == 0 <==> !st.started
            &&& st.kept.len() > 0 ==> st.last_pos == st.kept_pos.last() && st.last_contig
                == st.kept_contig.last()
        }),
    decreases n,
{
    if n > 0 {
        lemma_spacing_last(seeds, min_spacing, exclude, n - 1);
    }
}

/// Runs the spacing filter over `seeds`; the extras are collected only when `track_extras` holds.
pub fn spacing_select(
    seeds: &Vec<(usize, usize, u64)>,
    min_spacing: usize,
    exclude: &std::collections::HashSet<u64>,
    track_extras: bool,
) -> (r: (Vec<u64>, Option<Vec<u64>>))
    ensures
        r.0@ == spacing_filter(seeds@, min_spacing, exclude@).kept,
        track_extras ==> r.1 is Some && r.1->0@ == spacing_filter(seeds@, min_spacing, exclude@).extras,
        !track_extras ==> r.1 is None,
{
    broadcast use vstd::std_specs::hash::group_hash_axioms;

    let ghost ex = exclude@;
    let mut kept: Vec<u64> = Vec::new();
    let mut extras: Vec<u64> = Vec::new();
    let mut last_pos: usize = 0;
    let mut last_contig: usize = 0;
    let mut started = false;
    let n = seeds.len();
    let mut i: usize = 0;
    while i < n
        invariant
            n == seeds@.len(),
            i <= n,
            ex == exclude@,
            ({
                let st = spacing_upto(seeds@, min_spacing, ex, i as int);
                &&& kept@ == st.kept
                &&& track_extras ==> extras@ == st.extras
                &&& last_pos == st.last_pos
                &&& last_contig == st.last_contig
                &&& started == st.started
            }),
        decreases n - i,
    {
        let (contig, pos, km) = seeds[i];
        if !exclude.contains(&km) {
            if !started || last_contig != contig || (pos >= last_pos && pos - last_pos
                > min_spacing) {
                kept.push(km);
                last_pos = pos;
                last_contig = contig;
                started = true;
            } else if track_extras {
                extras.push(km);
            }
        }
        i = i + 1;
    }
    if track_extras {
        (kept, Some(extras))
    } else {
        (kept, None)
    }
}

/// Sketches one reference record: its positioned seeds, run through the spacing filter.
pub fn sketch_contig_record(
    c: usize,
    k: usize,
    file_name: String,
    contig_name: String,
    seq: &[u8],
    min_spacing: usize,
    pseudotax: bool,
) -> (g: GenomeSketch)
    requires
        1 <= c,
        1 <= k <= 31,
    ensures
        g.file_name == file_name,
        g.first_contig_name == contig_name,
        g.gn_size == seq@.len(),
        g.c == c,
        g.k == k,
        g.min_spacing == min_spacing,
        g.genome_kmers@ == spacing_filter(
            positioned_seeds_of(seq@, c as nat, k as nat, 0),
            min_spacing,
            Set::empty(),
        ).kept,
        pseudotax ==> g.pseudotax_tracked_nonused_kmers is Some
            && g.pseudotax_tracked_nonused_kmers->0@ == spacing_filter(
            positioned_seeds_of(seq@, c as nat, k as nat, 0),
            min_spacing,
            Set::empty(),
        ).extras,
        !pseudotax ==> g.pseudotax_tracked_nonused_kmers is None,
{
    broadcast use vstd::std_specs::hash::group_hash_axioms;

    let mut seeds: Vec<(usize, usize, u64)> = Vec::new();
    extract_markers_positions(seq, &mut seeds, c, k, 0);
    assert(seeds@ =~= positioned_seeds_of(seq@, c as nat, k as nat, 0));
    let none: std::collections::HashSet<u64> = std::collections::HashSet::new();
    assert(none@ =~= Set::<u64>::empty());
    let (kept, extras) = spacing_select(&seeds, min_spacing, &none, pseudotax);
    GenomeSketch {
        file_name,
        first_contig_name: contig_name,
        gn_size: seq.len(),
        c,
        k,
        min_spacing,
        genome_kmers: kept,
        pseudotax_tracked_nonused_kmers: extras,
    }
}

/// The positioned seeds of the first `n` records, record `i` tagged with contig number `i`.
pub open spec fn records_seeds(seqs: Seq<Seq<u8>>, c: nat, k: nat, n: int) -> Seq<
    (usize, usize, u64),
>
    decreases n,
{
    if n <= 0 {
        Seq::empty()
    } else {
        records_seeds(seqs, c, k, n - 1) + positioned_seeds_of(seqs[n - 1], c, k, (n - 1) as usize)
    }
}

/// Total length of the first `n` records.
pub open spec fn total_len(seqs: Seq<Seq<u8>>, n: int) -> nat
    decreases n,
{
    if n <= 0 {
        0
    } else {
        total_len(seqs, n - 1) + seqs[n - 1].len()
    }
}

/// The k-mers that occur among the first `n` seeds.
pub open spec fn seen_kmers(seeds: Seq<(usize, usize, u64)>, n: int) -> Set<u64> {
    Set::new(|km: u64| exists|i: int| 0 <= i < n && #[trigger] seeds[i].2 == km)
}

/// The k-mers that occur at least twice among the first `n` seeds.
pub open spec fn repeated_kmers(seeds: Seq<(usize, usize, u64)>, n: int) -> Set<u64> {
    Set::new(
        |km: u64|
            exists|i: int, j: int|
                0 <= i < j < n && #[trigger] seeds[i].2 == km && #[trigger] seeds[j].2 == km,
    )
}

/// The k-mers that occur more than once in `seeds`.
pub fn duplicate_kmers(seeds: &Vec<(usize, usize, u64)>) -> (d: std::collections::HashSet<u64>)
    ensures
        d@ == repeated_kmers(seeds@, seeds@.len() as int),
{
    broadcast use vstd::std_specs::hash::group_hash_axioms;

    let mut seen: std::collections::HashSet<u64> = std::collections::HashSet::new();
    let mut dups: std::collections::HashSet<u64> = std::collections::HashSet::new();
    let n = seeds.len();
    let mut idx: usize = 0;
    assert(seen@ =~= seen_kmers(seeds@, 0));
    assert(dups@ =~= repeated_kmers(seeds@, 0));
    while idx < n
        invariant
            n == seeds@.len(),
            idx <= n,
            seen@ == seen_kmers(seeds@, idx as int),
            dups@ == repeated_kmers(seeds@, idx as int),
        decreases n - idx,
    {
        let km = seeds[idx].2;
        let ghost s = seeds@;
        if seen.contains(&km) {
            dups.insert(km);
            proof {
                let i0 = choose|i: int| 0 <= i < idx && #[trigger] s[i].2 == km;
                assert(s[i0].2 == km && s[idx as int].2 == km);
                assert forall|x: u64| dups@.contains(x) <==> repeated_kmers(s, idx + 1).contains(
                    x,
                ) by {
                    if repeated_kmers(s, idx + 1).contains(x) && x != km {
                        let (a, b) = choose|a: int, b: int|
                            0 <= a < b < idx + 1 && #[trigger] s[a].2 == x && #[trigger] s[b].2
                                == x;
                        assert(b < idx);
                        assert(repeated_kmers(s, idx as int).contains(x));
                    }
                    if repeated_kmers(s, idx as int).contains(x) {
                        let (a, b) = choose|a: int, b: int|
                            0 <= a < b < idx && #[trigger] s[a].2 == x && #[trigger] s[b].2 == x;
                        assert(0 <= a < b < idx + 1 && s[a].2 == x && s[b].2 == x);
                    }
                }
                assert(dups@ =~= repeated_kmers(s, idx + 1));
                assert forall|x: u64| seen@.contains(x) <==> seen_kmers(s, idx + 1).contains(x) by {
                    if seen_kmers(s, idx + 1).contains(x) && x != km {
                        let a = choose|a: int| 0 <= a < idx + 1 && #[trigger] s[a].2 == x;
                        assert(seen_kmers(s, idx as int).contains(x));
                    }
                    if seen_kmers(s, idx as int).contains(x) {
                        let a = choose|a: int| 0 <= a < idx && #[trigger] s[a].2 == x;
                        assert(0 <= a < idx + 1);
                    }
                }
                assert(seen@ =~= seen_kmers(s, idx + 1));
            }
        } else {
            seen.insert(km);
            proof {
                assert forall|x: u64| seen@.contains(x) <==> seen_kmers(s, idx + 1).contains(x) by {
                    if seen_kmers(s, idx + 1).contains(x) && x != km {
                        let a = choose|a: int| 0 <= a < idx + 1 && #[trigger] s[a].2 == x;
                        assert(seen_kmers(s, idx as int).contains(x));
                    }
                    if seen_kmers(s, idx as int).contains(x) {
                        let a = choose|a: int| 0 <= a < idx && #[trigger] s[a].2 == x;
                        assert(0 <= a < idx + 1);
                    }
                    if x == km {
                        assert(s[idx as int].2 == km);
                    }
                }
                assert(seen@ =~= seen_kmers(s, idx + 1));
                assert forall|x: u64| dups@.contains(x) <==> repeated_kmers(s, idx + 1).contains(
                    x,
                ) by {
                    if repeated_kmers(s, idx + 1).contains(x) {
                        let (a, b) = choose|a: int, b: int|
                            0 <= a < b < idx + 1 && #[trigger] s[a].2 == x && #[trigger] s[b].2
                                == x;
                        if b == idx {
                            assert(seen_kmers(s, idx as int).contains(km));
                        }
                        assert(repeated_kmers(s, idx as int).contains(x));
                    }
                    if repeated_kmers(s, idx as int).contains(x) {
                        let (a, b) = choose|a: int, b: int|
                            0 <= a < b < idx && #[trigger] s[a].2 == x && #[trigger] s[b].2 == x;
                        assert(0 <= a < b < idx + 1 && s[a].2 == x && s[b].2 == x);
                    }
                }
                assert(dups@ =~= repeated_kmers(s, idx + 1));
            }
        }
        idx = idx + 1;
    }
    dups
}

/// Sketches a whole reference file as one genome: the seeds of all its records, with every
/// k-mer that occurs more than once left out, run through the spacing filter (which starts
/// afresh at each record).
pub fn sketch_genome_records(
    c: usize,
    k: usize,
    file_name: String,
    first_contig_name: String,
    seqs: &Vec<Vec<u8>>,
    min_spacing: usize,
    pseudotax: bool,
) -> (g: GenomeSketch)
    requires
        1 <= c,
        1 <= k <= 31,
        total_len(seqs@.map_values(|v: Vec<u8>| v@), seqs@.len() as int) <= usize::MAX,
    ensures
        ({
            let ss = seqs@.map_values(|v: Vec<u8>| v@);
            let seeds = records_seeds(ss, c as nat, k as nat, ss.len() as int);
            let st = spacing_filter(seeds, min_spacing, repeated_kmers(seeds, seeds.len() as int));
            &&& g.file_name == file_name
            &&& g.first_contig_name == first_contig_name
            &&& g.gn_size == total_len(ss, ss.len() as int)
            &&& g.c == c
            &&& g.k == k
            &&& g.min_spacing == min_spacing
            &&& g.genome_kmers@ == st.kept
            &&& pseudotax ==> g.pseudotax_tracked_nonused_kmers is Some
                && g.pseudotax_tracked_nonused_kmers->0@ == st.extras
            &&& !pseudotax ==> g.pseudotax_tracked_nonused_kmers is None
        }),
{
    let ghost ss = seqs@.map_values(|v: Vec<u8>| v@);
    let mut seeds: Vec<(usize, usize, u64)> = Vec::new();
    let mut gn_size: usize = 0;
    let n = seqs.len();
    let mut i: usize = 0;
    while i < n
        invariant
            n == seqs@.len(),
            ss == seqs@.map_values(|v: Vec<u8>| v@),
            i <= n,
            1 <= c,
            1 <= k <= 31,
            total_len(ss, n as int) <= usize::MAX,
            seeds@ == records_seeds(ss, c as nat, k as nat, i as int),
            gn_size == total_len(ss, i as int),
        decreases n - i,
    {
        proof {
            lemma_total_len_mono(ss, i + 1, n as int);
        }
        extract_markers_positions(seqs[i].as_slice(), &mut seeds, c, k, i);
        assert(ss[i as int] == seqs[i as int]@);
        gn_size = gn_size + seqs[i].len();
        i = i + 1;
    }
    let dups = duplicate_kmers(&seeds);
    let (kept, extras) = spacing_select(&seeds, min_spacing, &dups, pseudotax);
    GenomeSketch {
        file_name,
        first_contig_name,
        gn_size,
        c,
        k,
        min_spacing,
        genome_kmers: kept,
        pseudotax_tracked_nonused_kmers: extras,
    }
}

proof fn lemma_total_len_mono(ss: Seq<Seq<u8>>, a: int, b: int)
    requires
        a <= b,
    ensures
        total_len(ss, a) <= total_len(ss, b),
    decreases b - a,
{
    if a < b {
        lemma_total_len_mono(ss, a, b - 1);
    }
}

} // verus!
