use vstd::prelude::*;
use std::collections::HashMap;
use crate::contig::GenomeSketch;
use crate::sample::{count_in, SampleSketch};

verus! {

broadcast use vstd::std_specs::hash::group_hash_axioms;

/// Estimators need at least this many k-mers with a positive count.
pub const SAMPLE_SIZE_CUTOFF: usize = 50;

/// Owner of each k-mer after the first pass: k-mer -> (ANI rank key, contig id).
pub type WinnerTable = HashMap<u64, (u64, usize)>;

/// Why a contig sketch and a sample sketch cannot be compared.
#[derive(Debug, PartialEq, Eq, Structural, Clone, Copy)]
pub enum ParamMismatch {
    /// The two sketches use different k.
    KMismatch,
    /// The sample is sub-sampled more sparsely than the contig (its c is larger).
    CMismatch,
}

/// A contig sketch and a sample sketch can be compared when their k agree and the sample's
/// rate `c` is not larger than the contig's.
pub fn check_compatible(genome: &GenomeSketch, sample: &SampleSketch) -> (r: Result<(), ParamMismatch>)
    ensures
        genome.k != sample@.k ==> r == Err::<(), ParamMismatch>(ParamMismatch::KMismatch),
        genome.k == sample@.k && genome.c < sample@.c ==> r == Err::<(), ParamMismatch>(
            ParamMismatch::CMismatch,
        ),
        genome.k == sample@.k && genome.c >= sample@.c ==> r is Ok,
{
    if genome.k != sample.k() {
        Err(ParamMismatch::KMismatch)
    } else if genome.c < sample.c() {
        Err(ParamMismatch::CMismatch)
    } else {
        Ok(())
    }
}

/// `km` is counted for contig `id`: it was seen in the sample, and no other contig owns it.
pub open spec fn kmer_used(
    counts: Map<u64, u32>,
    winners: Option<Map<u64, (u64, usize)>>,
    id: usize,
    km: u64,
) -> bool {
    &&& count_in(counts, km) > 0
    &&& match winners {
        Some(w) => w.contains_key(km) ==> w[km].1 == id,
        None => true,
    }
}

/// The sample counts of the first `n` contig k-mers that are counted for contig `id`, in order.
pub open spec fn hits_upto(
    kmers: Seq<u64>,
    counts: Map<u64, u32>,
    winners: Option<Map<u64, (u64, usize)>>,
    id: usize,
    n: int,
) -> Seq<u32>
    decreases n,
{
    if n <= 0 {
        Seq::empty()
    } else if kmer_used(counts, winners, id, kmers[n - 1]) {
        hits_upto(kmers, counts, winners, id, n - 1).push(count_in(counts, kmers[n - 1]))
    } else {
        hits_upto(kmers, counts, winners, id, n - 1)
    }
}

pub open spec fn winners_view(w: Option<&WinnerTable>) -> Option<Map<u64, (u64, usize)>> {
    match w {
        Some(t) => Some(t@),
        None => None,
    }
}

/// The sample counts of the contig's k-mers that are counted for contig `id` (those seen in the
/// sample and, when a winner table is given, not owned by another contig), in contig order.
pub fn collect_hits(
    genome_kmers: &Vec<u64>,
    sample: &SampleSketch,
    winners: Option<&WinnerTable>,
    id: usize,
) -> (covs: Vec<u32>)
    ensures
        covs@ == hits_upto(
            genome_kmers@,
            sample@.counts,
            winners_view(winners),
            id,
            genome_kmers@.len() as int,
        ),
        forall|i: int| 0 <= i < covs@.len() ==> covs@[i] > 0,
{
    let ghost w = winners_view(winners);
    let mut covs: Vec<u32> = Vec::new();
    let n = genome_kmers.len();
    let mut i: usize = 0;
    while i < n
        invariant
            n == genome_kmers@.len(),
            i <= n,
            w == winners_view(winners),
            covs@ == hits_upto(genome_kmers@, sample@.counts, w, id, i as int),
            forall|j: int| 0 <= j < covs@.len() ==> covs@[j] > 0,
        decreases n - i,
    {
        let km = genome_kmers[i];
        let c = sample.count(km);
        if c > 0 {
            let owned = match winners {
                Some(t) => match t.get(&km) {
                    Some(entry) => entry.1 == id,
                    None => true,
                },
                None => true,
            };
            if owned {
                covs.push(c);
            }
        }
        i = i + 1;
    }
    covs
}

pub open spec fn sorted(s: Seq<u32>) -> bool {
    forall|i: int, j: int| 0 <= i <= j < s.len() ==> s[i] <= s[j]
}

/// Relies on `slice::sort_unstable`: the slice ends up in ascending order and holds the same
/// elements.
#[verifier::external_body]
pub(crate) fn sort_counts(v: &mut Vec<u32>)
    ensures
        sorted(final(v)@),
        final(v)@.to_multiset() == old(v)@.to_multiset(),
{
    v.sort_unstable()
}

/// Sorts the hit counts in ascending order.
pub fn sort_hits(v: &mut Vec<u32>)
    ensures
        sorted(final(v)@),
        final(v)@.to_multiset() == old(v)@.to_multiset(),
        final(v)@.len() == old(v)@.len(),
{
    sort_counts(v);
    proof {
        old(v)@.to_multiset_ensures();
        v@.to_multiset_ensures();
    }
}

/// Whether a count survives outlier trimming. `limit` is the largest count that the Poisson
/// law of the median leaves below the cut-off p-value (`None` when the median is too high for
/// trimming); when even the median is above it, nothing is trimmed.
pub open spec fn kept_count(median: u32, limit: Option<u32>, c: u32) -> bool {
    match limit {
        None => true,
        Some(t) => median > t || c <= t,
    }
}

/// The full count vector of a contig: one 0 for each contig k-mer without a hit, then the
/// trimmed hit counts in ascending order.
pub open spec fn full_count_vector(covs: Seq<u32>, n_kmers: nat, limit: Option<u32>) -> Seq<u32> {
    Seq::new((n_kmers - covs.len()) as nat, |i: int| 0u32) + covs.filter(
        |c: u32| kept_count(covs[(covs.len() / 2) as int], limit, c),
    )
}

/// Builds the full count vector from the sorted hit counts (see `full_count_vector`).
pub fn full_counts(covs: &Vec<u32>, n_kmers: usize, limit: Option<u32>) -> (full: Vec<u32>)
    requires
        covs@.len() > 0,
        covs@.len() <= n_kmers,
    ensures
        full@ == full_count_vector(covs@, n_kmers as nat, limit),
{
    let median = covs[covs.len() / 2];
    let ghost pred = |c: u32| kept_count(covs@[(covs@.len() / 2) as int], limit, c);
    let mut full: Vec<u32> = Vec::new();
    let zeros = n_kmers - covs.len();
    let mut z: usize = 0;
    while z < zeros
        invariant
            z <= zeros,
            full@ == Seq::new(z as nat, |i: int| 0u32),
        decreases zeros - z,
    {
        full.push(0);
        z = z + 1;
        assert(full@ =~= Seq::new(z as nat, |i: int| 0u32));
    }
    let ghost head = full@;
    let n = covs.len();
    let mut i: usize = 0;
    assert(covs@.take(0).filter(pred) =~= Seq::<u32>::empty()) by {
        reveal(Seq::filter);
    }
    assert(full@ =~= head + covs@.take(0).filter(pred));
    while i < n
        invariant
            n == covs@.len(),
            i <= n,
            median == covs@[(covs@.len() / 2) as int],
            pred == (|c: u32| kept_count(covs@[(covs@.len() / 2) as int], limit, c)),
            head == Seq::new(zeros as nat, |i: int| 0u32),
            full@ == head + covs@.take(i as int).filter(pred),
        decreases n - i,
    {
        let c = covs[i];
        proof {
            assert(covs@.take(i + 1).drop_last() =~= covs@.take(i as int));
            assert(covs@.take(i + 1).last() == c);
            reveal(Seq::filter);
        }
        let keep = match limit {
            None => true,
            Some(t) => median > t || c <= t,
        };
        if keep {
            full.push(c);
        }
        assert(full@ =~= head + covs@.take(i + 1).filter(pred));
        i = i + 1;
    }
    assert(covs@.take(n as int) =~= covs@);
    full
}

/// Number of occurrences of `v` in `s`.
pub open spec fn occ(s: Seq<u32>, v: u32) -> nat
    decreases s.len(),
{
    if s.len() == 0 {
        0
    } else {
        occ(s.drop_last(), v) + if s.last() == v {
            1nat
        } else {
            0nat
        }
    }
}

/// All positive entries of `s` are one and the same value, and there is one.
pub open spec fn one_positive_value(s: Seq<u32>) -> bool {
    exists|v: u32| v > 0 && s.contains(v) && forall|i: int| 0 <= i < s.len() ==> s[i] == 0 || s[i] == v
}

/// The estimators have enough to work with: at least `SAMPLE_SIZE_CUTOFF` positive counts, and
/// not all of them equal.
pub open spec fn has_support(s: Seq<u32>) -> bool {
    s.len() - occ(s, 0) >= SAMPLE_SIZE_CUTOFF && !one_positive_value(s)
}

/// Value `a` ranks at least as high as value `b` as the mode of `s`: it is more frequent, or as
/// frequent and not smaller.
pub open spec fn ranks_above(s: Seq<u32>, a: u32, b: u32) -> bool {
    occ(s, a) > occ(s, b) || (occ(s, a) == occ(s, b) && a >= b)
}

/// `m` is the modal positive count of `s` (ties going to the larger value).
pub open spec fn is_mode(s: Seq<u32>, m: u32) -> bool {
    &&& m > 0
    &&& s.contains(m)
    &&& forall|i: int| 0 <= i < s.len() && s[i] > 0 ==> ranks_above(s, m, #[trigger] s[i])
}

/// What the ratio estimator reads from a count vector with support and modal count `m`: the
/// numbers of entries equal to `m` and to `m + 1`, when `m + 1` occurs at all.
pub open spec fn ratio_counts(s: Seq<u32>, m: u32) -> Option<(u32, u64, u64)> {
    if m < u32::MAX && occ(s, (m + 1) as u32) > 0 {
        Some((m, occ(s, m) as u64, occ(s, (m + 1) as u32) as u64))
    } else {
        None
    }
}

proof fn lemma_occ_take(s: Seq<u32>, i: int, v: u32)
    requires
        0 <= i < s.len(),
    ensures
        occ(s.take(i + 1), v) == occ(s.take(i), v) + if s[i] == v {
            1nat
        } else {
            0nat
        },
{
    assert(s.take(i + 1).drop_last() =~= s.take(i));
}

proof fn lemma_occ_contains(s: Seq<u32>, v: u32)
    ensures
        occ(s, v) > 0 <==> s.contains(v),
        occ(s, v) <= s.len(),
    decreases s.len(),
{
    if s.len() > 0 {
        lemma_occ_contains(s.drop_last(), v);
        if s.drop_last().contains(v) {
            let j = choose|j: int| 0 <= j < s.drop_last().len() && s.drop_last()[j] == v;
            assert(s[j] == v);
        }
        if s.contains(v) && s.last() != v {
            let j = choose|j: int| 0 <= j < s.len() && s[j] == v;
            assert(s.drop_last()[j] == v);
        }
    }
}

/// Whether the estimators have enough support in `full` (see `has_support`).
pub fn estimator_support(full: &Vec<u32>) -> (r: bool)
    ensures
        r == has_support(full@),
{
    let ghost s = full@;
    let n = full.len();
    let mut zeros: usize = 0;
    let mut first: u32 = 0;
    let mut uniform = true;
    let mut i: usize = 0;
    while i < n
        invariant
            n == s.len(),
            s == full@,
            i <= n,
            zeros == occ(s.take(i as int), 0),
            zeros <= i,
            first == 0 <==> forall|j: int| 0 <= j < i ==> s[j] == 0,
            first != 0 ==> s.take(i as int).contains(first),
            uniform <==> forall|j: int| 0 <= j < i ==> s[j] == 0 || s[j] == first,
        decreases n - i,
    {
        proof {
            lemma_occ_take(s, i as int, 0);
        }
        let x = full[i];
        if x == 0 {
            zeros = zeros + 1;
        } else if first == 0 {
            first = x;
        } else if x != first {
            uniform = false;
        }
        proof {
            let pre = s.take(i as int);
            let post = s.take(i + 1);
            if first != 0 {
                if pre.contains(first) {
                    let j = choose|j: int| 0 <= j < pre.len() && pre[j] == first;
                    assert(post[j] == first);
                } else {
                    assert(post[i as int] == first);
                }
            }
        }
        i = i + 1;
    }
    assert(s.take(n as int) =~= s);
    proof {
        if one_positive_value(s) {
            let v = choose|v: u32|
                v > 0 && s.contains(v) && forall|i: int| 0 <= i < s.len() ==> s[i] == 0 || s[i] == v;
            let j = choose|j: int| 0 <= j < s.len() && s[j] == v;
            assert(first != 0);
            let j2 = choose|j2: int| 0 <= j2 < s.len() && s[j2] == first;
            assert(first == v);
        }
        if first != 0 && uniform {
            assert(one_positive_value(s));
        }
    }
    n - zeros >= SAMPLE_SIZE_CUTOFF && !(first != 0 && uniform)
}

/// The inputs of the ratio estimator: `None` without support or when the modal count `m` has no
/// successor `m + 1` in `full`; else `m` with the numbers of entries equal to `m` and to `m + 1`.
pub fn ratio_mode(full: &Vec<u32>) -> (r: Option<(u32, u64, u64)>)
    ensures
        !has_support(full@) ==> r is None,
        has_support(full@) ==> exists|m: u32| is_mode(full@, m) && r == ratio_counts(full@, m),
{
    if !estimator_support(full) {
        return None;
    }
    let ghost s = full@;
    let n = full.len();
    let mut hist: HashMap<u32, u64> = HashMap::new();
    let mut i: usize = 0;
    while i < n
        invariant
            n == s.len(),
            s == full@,
            i <= n,
            forall|v: u32| #[trigger] hist@.contains_key(v) <==> s.take(i as int).contains(v),
            forall|v: u32| #[trigger]
                hist@.contains_key(v) ==> hist@[v] as nat == occ(s.take(i as int), v),
        decreases n - i,
    {
        let x = full[i];
        let cur: u64 = match hist.get(&x) {
            Some(c) => *c,
            None => 0,
        };
        proof {
            lemma_occ_contains(s.take(i as int), x);
            lemma_occ_take(s, i as int, x);
            assert forall|v: u32| v != x implies occ(s.take(i + 1), v) == occ(s.take(i as int), v) by {
                lemma_occ_take(s, i as int, v);
            }
            let pre = s.take(i as int);
            let post = s.take(i + 1);
            assert forall|v: u32| post.contains(v) <==> pre.contains(v) || v == x by {
                if post.contains(v) && v != x {
                    let j = choose|j: int| 0 <= j < post.len() && post[j] == v;
                    assert(pre[j] == v);
                }
                if pre.contains(v) {
                    let j = choose|j: int| 0 <= j < pre.len() && pre[j] == v;
                    assert(post[j] == v);
                }
                if v == x {
                    assert(post[i as int] == v);
                }
            }
        }
        hist.insert(x, cur + 1);
        i = i + 1;
    }
    assert(s.take(n as int) =~= s);
    let mut found = false;
    let mut m: u32 = 0;
    let mut cm: u64 = 0;
    let mut j: usize = 0;
    while j < n
        invariant
            n == s.len(),
            s == full@,
            j <= n,
            forall|v: u32| #[trigger] hist@.contains_key(v) <==> s.contains(v),
            forall|v: u32| #[trigger] hist@.contains_key(v) ==> hist@[v] as nat == occ(s, v),
            found <==> exists|t: int| 0 <= t < j && s[t] > 0,
            found ==> m > 0 && s.contains(m) && cm as nat == occ(s, m),
            found ==> forall|t: int| 0 <= t < j && s[t] > 0 ==> ranks_above(s, m, #[trigger] s[t]),
        decreases n - j,
    {
        let x = full[j];
        if x > 0 {
            assert(s.contains(x)) by {
                assert(s[j as int] == x);
            }
            let cx: u64 = match hist.get(&x) {
                Some(c) => *c,
                None => 0,
            };
            if !found || cx > cm || (cx == cm && x >= m) {
                proof {
                    if found {
                        assert forall|t: int| 0 <= t < j + 1 && s[t] > 0 implies ranks_above(
                            s,
                            x,
                            #[trigger] s[t],
                        ) by {
                            if t < j {
                                assert(ranks_above(s, m, s[t]));
                            }
                        }
                    }
                }
                m = x;
                cm = cx;
                found = true;
            } else {
                proof {
                    assert forall|t: int| 0 <= t < j + 1 && s[t] > 0 implies ranks_above(
                        s,
                        m,
                        #[trigger] s[t],
                    ) by {
                        if t == j {
                            assert(s[t] == x);
                        }
                    }
                }
            }
        }
        j = j + 1;
    }
    proof {
        if !found {
            assert(one_positive_value(s) || s.len() - occ(s, 0) == 0) by {
                lemma_occ_zero_all(s);
            }
        }
        assert(is_mode(s, m));
    }
    if m < u32::MAX {
        match hist.get(&(m + 1)) {
            Some(c1) => {
                proof {
                    lemma_occ_contains(s, (m + 1) as u32);
                }
                Some((m, cm, *c1))
            },
            None => {
                proof {
                    lemma_occ_contains(s, (m + 1) as u32);
                }
                None
            },
        }
    } else {
        None
    }
}

proof fn lemma_occ_zero_all(s: Seq<u32>)
    requires
        forall|t: int| 0 <= t < s.len() ==> s[t] == 0,
    ensures
        occ(s, 0) == s.len(),
    decreases s.len(),
{
    if s.len() > 0 {
        lemma_occ_zero_all(s.drop_last());
    }
}

/// Hit counts are trimmed for outliers only when their median is below this.
pub const TRIM_MEDIAN_LIMIT: u32 = 30;

/// Medians above this are high enough that no Poisson correction is needed.
pub const MEDIAN_ANI_THRESHOLD: u32 = 2;

/// From this median on, the median itself is the coverage estimate of a high-coverage contig.
pub const MAX_MEDIAN_FOR_MEAN_FINAL_EST: u32 = 15;

/// How the coverage of a contig is estimated, by the median of its hit counts.
#[derive(Debug, PartialEq, Eq, Structural, Clone, Copy)]
pub enum CoverageRoute {
    /// Low median: run the lambda estimator, falling back to the mean over hits when it fails.
    Estimate,
    /// High median, below `MAX_MEDIAN_FOR_MEAN_FINAL_EST`: the mean over hits.
    HitMean,
    /// Very high median: the median.
    Median,
}

pub fn coverage_route(median: u32) -> (r: CoverageRoute)
    ensures
        median <= MEDIAN_ANI_THRESHOLD ==> r == CoverageRoute::Estimate,
        MEDIAN_ANI_THRESHOLD < median < MAX_MEDIAN_FOR_MEAN_FINAL_EST ==> r == CoverageRoute::HitMean,
        MAX_MEDIAN_FOR_MEAN_FINAL_EST <= median ==> r == CoverageRoute::Median,
{
    if median <= MEDIAN_ANI_THRESHOLD {
        CoverageRoute::Estimate
    } else if median < MAX_MEDIAN_FOR_MEAN_FINAL_EST {
        CoverageRoute::HitMean
    } else {
        CoverageRoute::Median
    }
}

} // verus!
