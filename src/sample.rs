use vstd::prelude::*;
use vstd::std_specs::hash::spec_hash_map_iter;
use vstd::std_specs::iter::IteratorSpec;
use std::collections::HashMap;
use std::collections::HashSet;
use crate::filter::{filter_add, filter_bounded, filter_contains, filter_items, PairFilter};
use crate::fingerprint::{pair_fingerprint, pair_kmer, pair_kmer_single, single_fingerprint, DoublePair};
use crate::seeds::{extract_markers, seeds_of};

verus! {

broadcast use vstd::std_specs::hash::group_hash_axioms;

/// Counts saturate here: a k-mer is never counted more often than this.
pub const MAX_DEDUP_COUNT: u32 = 1_000_000;

/// Reads longer than this get no fingerprint in single-end sketching.
pub const MAX_FINGERPRINT_READ_LEN: usize = 400;

/// The count of `km` in `m`, 0 when absent.
pub open spec fn count_in(m: Map<u64, u32>, km: u64) -> u32 {
    if m.contains_key(km) {
        m[km]
    } else {
        0
    }
}

/// Every count is at most `MAX_DEDUP_COUNT`.
pub open spec fn counts_capped(m: Map<u64, u32>) -> bool {
    forall|km: u64| #[trigger] m.contains_key(km) ==> m[km] <= MAX_DEDUP_COUNT
}

/// Key of a (k-mer, fingerprint word pair) in the exact duplicate set.
pub open spec fn pair_key(km: u64, d: DoublePair) -> u128 {
    (km as int * 0x1_0000_0000_0000_0000 + d.0 as int * 0x1_0000_0000 + d.1 as int) as u128
}

/// One observation of `km` against the exact duplicate set: the new counts, the new set, and
/// whether the observation was suppressed as a duplicate.
///
/// A count at the cap stays as it is. Otherwise, with deduplication on and a fingerprint, both
/// fingerprint keys are looked up in the set as it was and then recorded, and the observation is
/// suppressed when either was already there and the k-mer has been counted before; else the count
/// goes up by one.
pub open spec fn exact_step(
    counts: Map<u64, u32>,
    seen: Set<u128>,
    km: u64,
    fp: Option<(DoublePair, DoublePair)>,
    no_dedup: bool,
) -> (Map<u64, u32>, Set<u128>, bool) {
    let c = count_in(counts, km);
    if c >= MAX_DEDUP_COUNT {
        (counts.insert(km, c), seen, false)
    } else if no_dedup || fp is None {
        (counts.insert(km, (c + 1) as u32), seen, false)
    } else {
        let (d0, d1) = fp->0;
        let k0 = pair_key(km, d0);
        let k1 = pair_key(km, d1);
        let hit0 = seen.contains(k0);
        let hit1 = seen.contains(k1);
        let seen2 = seen.insert(k0).insert(k1);
        if c > 0 && (hit0 || hit1) {
            (counts.insert(km, c), seen2, true)
        } else {
            (counts.insert(km, (c + 1) as u32), seen2, false)
        }
    }
}

/// The observations of `kms`, in order, against the exact duplicate set; the last component is
/// the number of suppressed observations.
pub open spec fn exact_fold(
    counts: Map<u64, u32>,
    seen: Set<u128>,
    kms: Seq<u64>,
    fp: Option<(DoublePair, DoublePair)>,
    no_dedup: bool,
) -> (Map<u64, u32>, Set<u128>, nat)
    decreases kms.len(),
{
    if kms.len() == 0 {
        (counts, seen, 0)
    } else {
        let prev = exact_fold(counts, seen, kms.drop_last(), fp, no_dedup);
        let st = exact_step(prev.0, prev.1, kms.last(), fp, no_dedup);
        (st.0, st.1, prev.2 + if st.2 {
            1nat
        } else {
            0nat
        })
    }
}

/// `a + b`, saturating at `u64::MAX`.
pub open spec fn sat_add(a: u64, b: nat) -> u64 {
    if a + b > u64::MAX {
        u64::MAX
    } else {
        (a + b) as u64
    }
}

/// The distinct values of `s`, in order of first occurrence.
pub open spec fn uniq(s: Seq<u64>) -> Seq<u64>
    decreases s.len(),
{
    if s.len() == 0 {
        s
    } else {
        let p = uniq(s.drop_last());
        if p.contains(s.last()) {
            p
        } else {
            p.push(s.last())
        }
    }
}

/// The k-mers of a read pair in the order they are counted: the union of the k-mers of both
/// mates, each once, in order of first occurrence (first mate, then second mate).
pub open spec fn pair_kmers(v1: Seq<u64>, v2: Seq<u64>) -> Seq<u64> {
    uniq(v1 + v2)
}

/// `uniq` lists each value once, and exactly the values of `s`.
pub proof fn lemma_uniq(s: Seq<u64>)
    ensures
        forall|i: int, j: int| 0 <= i < j < uniq(s).len() ==> uniq(s)[i] != uniq(s)[j],
        forall|x: u64| uniq(s).contains(x) <==> s.contains(x),
    decreases s.len(),
{
    if s.len() > 0 {
        let q = s.drop_last();
        lemma_uniq(q);
        let p = uniq(q);
        assert forall|x: u64| q.contains(x) implies s.contains(x) by {
            let j = choose|j: int| 0 <= j < q.len() && q[j] == x;
            assert(s[j] == x);
        }
        assert forall|x: u64| s.contains(x) implies q.contains(x) || x == s.last() by {
            let j = choose|j: int| 0 <= j < s.len() && s[j] == x;
            if j < s.len() - 1 {
                assert(q[j] == x);
            }
        }
        assert(s.contains(s.last())) by {
            assert(s[s.len() - 1] == s.last());
        }
        if !p.contains(s.last()) {
            let u = p.push(s.last());
            assert forall|x: u64| u.contains(x) <==> p.contains(x) || x == s.last() by {
                if u.contains(x) && x != s.last() {
                    let j = choose|j: int| 0 <= j < u.len() && u[j] == x;
                    assert(p[j] == x);
                }
                if p.contains(x) {
                    let j = choose|j: int| 0 <= j < p.len() && p[j] == x;
                    assert(u[j] == x);
                }
                if x == s.last() {
                    assert(u[p.len() as int] == x);
                }
            }
            assert forall|i: int, j: int| 0 <= i < j < u.len() implies u[i] != u[j] by {
                if j == p.len() {
                    assert(u[i] == p[i]);
                    assert(p.contains(p[i]));
                }
            }
        }
    }
}

/// The fingerprint used for a single-end read.
pub open spec fn read_fingerprint(s: Seq<u8>) -> Option<(DoublePair, DoublePair)> {
    if s.len() > MAX_FINGERPRINT_READ_LEN {
        None
    } else {
        single_fingerprint(s)
    }
}

pub fn pair_key_exec(km: u64, d: DoublePair) -> (r: u128)
    ensures
        r == pair_key(km, d),
{
    assert(km as int * 0x1_0000_0000_0000_0000 + d.0 as int * 0x1_0000_0000 + d.1 as int
        <= u128::MAX) by (nonlinear_arith)
        requires
            km <= u64::MAX,
            d.0 <= u32::MAX,
            d.1 <= u32::MAX,
    ;
    (km as u128) * 0x1_0000_0000_0000_0000 + (d.0 as u128) * 0x1_0000_0000 + (d.1 as u128)
}

/// Observes `km` once against the exact duplicate set (see `exact_step`).
pub fn dup_removal_lsh_full_exact(
    kmer_counts: &mut HashMap<u64, u32>,
    kmer_to_pair_set: &mut HashSet<u128>,
    km: u64,
    kmer_pair: Option<(DoublePair, DoublePair)>,
    num_dup_removed: &mut u64,
    no_dedup: bool,
)
    ensures
        ({
            let st = exact_step(old(kmer_counts)@, old(kmer_to_pair_set)@, km, kmer_pair, no_dedup);
            &&& final(kmer_counts)@ == st.0
            &&& final(kmer_to_pair_set)@ == st.1
            &&& *final(num_dup_removed) == sat_add(*old(num_dup_removed), if st.2 {
                1nat
            } else {
                0nat
            })
        }),
{
    let c: u32 = match kmer_counts.get(&km) {
        Some(v) => *v,
        None => 0,
    };
    if c >= MAX_DEDUP_COUNT {
        kmer_counts.insert(km, c);
        return ;
    }
    if !no_dedup {
        if let Some(doublepairs) = kmer_pair {
            let k0 = pair_key_exec(km, doublepairs.0);
            let k1 = pair_key_exec(km, doublepairs.1);
            let hit0 = kmer_to_pair_set.contains(&k0);
            let hit1 = kmer_to_pair_set.contains(&k1);
            kmer_to_pair_set.insert(k0);
            kmer_to_pair_set.insert(k1);
            let ret = c > 0 && (hit0 || hit1);
            proof {
                assert(kmer_to_pair_set@ =~= old(kmer_to_pair_set)@.insert(k0).insert(k1));
            }
            if ret {
                kmer_counts.insert(km, c);
                *num_dup_removed = num_dup_removed.saturating_add(1);
                return ;
            }
        }
    }
    kmer_counts.insert(km, c + 1);
}

proof fn lemma_exact_step_capped(
    counts: Map<u64, u32>,
    seen: Set<u128>,
    km: u64,
    fp: Option<(DoublePair, DoublePair)>,
    no_dedup: bool,
)
    requires
        counts_capped(counts),
    ensures
        counts_capped(exact_step(counts, seen, km, fp, no_dedup).0),
        exact_step(counts, seen, km, fp, no_dedup).0.dom() == counts.dom().insert(km),
{
    let m2 = exact_step(counts, seen, km, fp, no_dedup).0;
    assert(m2.dom() =~= counts.dom().insert(km));
}

/// Presence in the sample and count, per k-mer, for a whole sample.
pub struct SampleSketchView {
    pub file_name: Seq<char>,
    pub sample_name: Option<Seq<char>>,
    pub c: usize,
    pub k: usize,
    pub paired: bool,
    pub num_reads: u64,
    pub total_read_bases: u64,
    pub counts: Map<u64, u32>,
}

/// Sketch of one sample (a read file, or a pair of read files): for each sampled k-mer, the
/// number of deduplicated reads (or read pairs) it was observed in.
pub struct SampleSketch {
    file_name: String,
    sample_name: Option<String>,
    c: usize,
    k: usize,
    paired: bool,
    num_reads: u64,
    total_read_bases: u64,
    kmer_counts: HashMap<u64, u32>,
}

pub open spec fn opt_view(o: Option<String>) -> Option<Seq<char>> {
    match o {
        Some(s) => Some(s@),
        None => None,
    }
}

impl View for SampleSketch {
    type V = SampleSketchView;

    closed spec fn view(&self) -> SampleSketchView {
        SampleSketchView {
            file_name: self.file_name@,
            sample_name: opt_view(self.sample_name),
            c: self.c,
            k: self.k,
            paired: self.paired,
            num_reads: self.num_reads,
            total_read_bases: self.total_read_bases,
            counts: self.kmer_counts@,
        }
    }
}

impl SampleSketch {
    #[verifier::type_invariant]
    closed spec fn inv(&self) -> bool {
        &&& counts_capped(self.kmer_counts@)
        &&& 1 <= self.c
        &&& 1 <= self.k <= 31
    }

    /// An empty sketch.
    pub fn new(file_name: String, sample_name: Option<String>, c: usize, k: usize, paired: bool) -> (s:
        SampleSketch)
        requires
            1 <= c,
            1 <= k <= 31,
        ensures
            s@.file_name == file_name@,
            s@.sample_name == opt_view(sample_name),
            s@.c == c,
            s@.k == k,
            s@.paired == paired,
            s@.num_reads == 0,
            s@.total_read_bases == 0,
            s@.counts == Map::<u64, u32>::empty(),
    {
        SampleSketch {
            file_name,
            sample_name,
            c,
            k,
            paired,
            num_reads: 0,
            total_read_bases: 0,
            kmer_counts: HashMap::new(),
        }
    }

    pub fn file_name(&self) -> (r: &String)
        ensures
            r@ == self@.file_name,
    {
        &self.file_name
    }

    pub fn sample_name(&self) -> (r: &Option<String>)
        ensures
            opt_view(*r) == self@.sample_name,
    {
        &self.sample_name
    }

    pub fn c(&self) -> (r: usize)
        ensures
            r == self@.c,
            1 <= r,
    {
        proof {
            use_type_invariant(self);
        }
        self.c
    }

    pub fn k(&self) -> (r: usize)
        ensures
            r == self@.k,
            1 <= r <= 31,
    {
        proof {
            use_type_invariant(self);
        }
        self.k
    }

    pub fn paired(&self) -> (r: bool)
        ensures
            r == self@.paired,
    {
        self.paired
    }

    pub fn num_reads(&self) -> (r: u64)
        ensures
            r == self@.num_reads,
    {
        self.num_reads
    }

    pub fn total_read_bases(&self) -> (r: u64)
        ensures
            r == self@.total_read_bases,
    {
        self.total_read_bases
    }

    /// The count of `km`, 0 when it was never observed.
    pub fn count(&self, km: u64) -> (r: u32)
        ensures
            r == count_in(self@.counts, km),
    {
        match self.kmer_counts.get(&km) {
            Some(v) => *v,
            None => 0,
        }
    }

    /// Number of distinct k-mers recorded.
    pub fn num_kmers(&self) -> (r: usize)
        ensures
            r == self@.counts.len(),
    {
        self.kmer_counts.len()
    }

    /// The name under which the sample appears in results: its sample name when it has one,
    /// else its file name.
    pub fn display_name(&self) -> (r: String)
        ensures
            r@ == match self@.sample_name {
                Some(n) => n,
                None => self@.file_name,
            },
    {
        match &self.sample_name {
            Some(n) => n.clone(),
            None => self.file_name.clone(),
        }
    }

    /// Counts the k-mers of `kms` in order against the exact duplicate set.
    fn count_kmers_exact(
        &mut self,
        kms: &Vec<u64>,
        fp: Option<(DoublePair, DoublePair)>,
        seen: &mut HashSet<u128>,
        no_dedup: bool,
        removed: &mut u64,
    )
        ensures
            ({
                let st = exact_fold(old(self)@.counts, old(seen)@, kms@, fp, no_dedup);
                &&& final(self)@ == SampleSketchView { counts: st.0, ..old(self)@ }
                &&& final(seen)@ == st.1
                &&& *final(removed) == sat_add(*old(removed), st.2)
            }),
    {
        proof {
            use_type_invariant(&*self);
        }
        let mut counts: HashMap<u64, u32> = HashMap::new();
        std::mem::swap(&mut counts, &mut self.kmer_counts);
        let ghost c0 = counts@;
        let ghost s0 = seen@;
        let ghost r0 = *removed;
        let n = kms.len();
        let mut i: usize = 0;
        while i < n
            invariant
                n == kms@.len(),
                i <= n,
                counts_capped(counts@),
                ({
                    let st = exact_fold(c0, s0, kms@.take(i as int), fp, no_dedup);
                    &&& counts@ == st.0
                    &&& seen@ == st.1
                    &&& *removed == sat_add(r0, st.2)
                }),
            decreases n - i,
        {
            proof {
                let st = exact_fold(c0, s0, kms@.take(i as int), fp, no_dedup);
                lemma_exact_step_capped(st.0, st.1, kms@[i as int], fp, no_dedup);
                assert(kms@.take(i + 1).drop_last() =~= kms@.take(i as int));
            }
            dup_removal_lsh_full_exact(&mut counts, seen, kms[i], fp, removed, no_dedup);
            i = i + 1;
        }
        assert(kms@.take(n as int) =~= kms@);
        self.kmer_counts = counts;
    }

    /// Adds one single-end read: its seeds are counted against the exact duplicate set, with the
    /// read's fingerprint, and the read tallies are updated.
    pub fn add_single_read(
        &mut self,
        seq: &[u8],
        seen: &mut HashSet<u128>,
        no_dedup: bool,
        removed: &mut u64,
    )
        ensures
            counts_capped(final(self)@.counts),
            ({
                let st = exact_fold(
                    old(self)@.counts,
                    old(seen)@,
                    seeds_of(seq@, old(self)@.c as nat, old(self)@.k as nat),
                    read_fingerprint(seq@),
                    no_dedup,
                );
                &&& final(self)@ == SampleSketchView {
                    counts: st.0,
                    num_reads: sat_add(old(self)@.num_reads, 1),
                    total_read_bases: sat_add(old(self)@.total_read_bases, seq@.len()),
                    ..old(self)@
                }
                &&& final(seen)@ == st.1
                &&& *final(removed) == sat_add(*old(removed), st.2)
            }),
    {
        proof {
            use_type_invariant(&*self);
        }
        let kmer_pair = if seq.len() > MAX_FINGERPRINT_READ_LEN {
            None
        } else {
            pair_kmer_single(seq)
        };
        let mut kms: Vec<u64> = Vec::new();
        extract_markers(seq, &mut kms, self.c, self.k);
        assert(kms@ =~= seeds_of(seq@, self@.c as nat, self@.k as nat));
        self.count_kmers_exact(&kms, kmer_pair, seen, no_dedup, removed);
        proof {
            use_type_invariant(&*self);
        }
        self.num_reads = self.num_reads.saturating_add(1);
        self.total_read_bases = self.total_read_bases.saturating_add(seq.len() as u64);
    }
}

/// Whether `x` occurs in `v`.
pub fn vec_contains(v: &Vec<u64>, x: u64) -> (r: bool)
    ensures
        r == v@.contains(x),
{
    let n = v.len();
    let mut i: usize = 0;
    while i < n
        invariant
            n == v@.len(),
            i <= n,
            forall|j: int| 0 <= j < i ==> v@[j] != x,
        decreases n - i,
    {
        if v[i] == x {
            assert(v@[i as int] == x);
            return true;
        }
        i = i + 1;
    }
    false
}

fn push_new(out: &mut Vec<u64>, seen: &mut HashSet<u64>, x: u64, Ghost(all): Ghost<Seq<u64>>, Ghost(i): Ghost<int>)
    requires
        0 <= i < all.len(),
        all[i] == x,
        old(out)@ == uniq(all.take(i)),
        forall|y: u64| old(seen)@.contains(y) <==> old(out)@.contains(y),
    ensures
        final(out)@ == uniq(all.take(i + 1)),
        forall|y: u64| final(seen)@.contains(y) <==> final(out)@.contains(y),
{
    assert(all.take(i + 1).drop_last() =~= all.take(i));
    assert(all.take(i + 1).last() == x);
    if !seen.contains(&x) {
        let ghost before = out@;
        out.push(x);
        seen.insert(x);
        assert forall|y: u64| seen@.contains(y) <==> out@.contains(y) by {
            if out@.contains(y) && y != x {
                let j = choose|j: int| 0 <= j < out@.len() && out@[j] == y;
                assert(before[j] == y);
            }
            if before.contains(y) {
                let j = choose|j: int| 0 <= j < before.len() && before[j] == y;
                assert(out@[j] == y);
            }
            if y == x {
                assert(out@[before.len() as int] == y);
            }
        }
    }
}

/// The k-mers of a read pair in counting order (see `pair_kmers`).
pub fn pair_kmer_list(v1: &Vec<u64>, v2: &Vec<u64>) -> (r: Vec<u64>)
    ensures
        r@ == pair_kmers(v1@, v2@),
{
    let ghost all = v1@ + v2@;
    let n1 = v1.len();
    let n2 = v2.len();
    let mut out: Vec<u64> = Vec::new();
    let mut seen: HashSet<u64> = HashSet::new();
    assert(all.take(0) =~= Seq::<u64>::empty());
    let mut i: usize = 0;
    while i < n1
        invariant
            n1 == v1@.len(),
            all == v1@ + v2@,
            i <= n1,
            out@ == uniq(all.take(i as int)),
            forall|x: u64| seen@.contains(x) <==> out@.contains(x),
        decreases n1 - i,
    {
        push_new(&mut out, &mut seen, v1[i], Ghost(all), Ghost(i as int));
        i = i + 1;
    }
    let mut j: usize = 0;
    while j < n2
        invariant
            n1 == v1@.len(),
            n2 == v2@.len(),
            all == v1@ + v2@,
            j <= n2,
            out@ == uniq(all.take(n1 + j)),
            forall|x: u64| seen@.contains(x) <==> out@.contains(x),
        decreases n2 - j,
    {
        assert(all[n1 + j] == v2@[j as int]);
        push_new(&mut out, &mut seen, v2[j], Ghost(all), Ghost(n1 + j));
        j = j + 1;
    }
    assert(all.take(n1 + n2) =~= all);
    out
}

impl SampleSketch {
    /// Adds one read pair, counted against the exact duplicate set: the seeds of the first mate,
    /// then those of the second mate not in the first, with the pair's fingerprint. The read
    /// tallies take the first mate's length.
    pub fn add_read_pair(
        &mut self,
        seq1: &[u8],
        seq2: &[u8],
        seen: &mut HashSet<u128>,
        no_dedup: bool,
        removed: &mut u64,
    )
        ensures
            counts_capped(final(self)@.counts),
            ({
                let c = old(self)@.c as nat;
                let k = old(self)@.k as nat;
                let st = exact_fold(
                    old(self)@.counts,
                    old(seen)@,
                    pair_kmers(seeds_of(seq1@, c, k), seeds_of(seq2@, c, k)),
                    pair_fingerprint(seq1@, seq2@),
                    no_dedup,
                );
                &&& final(self)@ == SampleSketchView {
                    counts: st.0,
                    num_reads: sat_add(old(self)@.num_reads, 1),
                    total_read_bases: sat_add(old(self)@.total_read_bases, seq1@.len()),
                    ..old(self)@
                }
                &&& final(seen)@ == st.1
                &&& *final(removed) == sat_add(*old(removed), st.2)
            }),
    {
        proof {
            use_type_invariant(&*self);
        }
        let mut v1: Vec<u64> = Vec::new();
        let mut v2: Vec<u64> = Vec::new();
        extract_markers(seq1, &mut v1, self.c, self.k);
        extract_markers(seq2, &mut v2, self.c, self.k);
        assert(v1@ =~= seeds_of(seq1@, self@.c as nat, self@.k as nat));
        assert(v2@ =~= seeds_of(seq2@, self@.c as nat, self@.k as nat));
        let kmer_pair = pair_kmer(seq1, seq2);
        let kms = pair_kmer_list(&v1, &v2);
        self.count_kmers_exact(&kms, kmer_pair, seen, no_dedup, removed);
        proof {
            use_type_invariant(&*self);
        }
        self.num_reads = self.num_reads.saturating_add(1);
        self.total_read_bases = self.total_read_bases.saturating_add(seq1.len() as u64);
    }
}

/// The filter item of a k-mer and one fingerprint word pair.
pub open spec fn filter_item(km: u64, d: DoublePair) -> (u64, u32, u32) {
    (km, d.0, d.1)
}

/// Either fingerprint item of `km` is among `items`.
pub open spec fn fp_seen(items: Set<(u64, u32, u32)>, km: u64, fp: Option<(DoublePair, DoublePair)>) -> bool {
    match fp {
        Some((d0, d1)) => items.contains(filter_item(km, d0)) || items.contains(filter_item(km, d1)),
        None => false,
    }
}

/// What holds of one observation of `km`, with prior count `c` and new count `n`, against an
/// approximate duplicate set that held `items` before, whatever the set answered: the count goes
/// up by one or stays; a count at the cap stays; a first observation, or one without
/// deduplication or without a fingerprint, is counted; and an observation whose fingerprint was
/// already added for this k-mer is suppressed once the k-mer has been counted.
pub open spec fn filtered_count_ok(
    c: u32,
    n: u32,
    km: u64,
    fp: Option<(DoublePair, DoublePair)>,
    no_dedup: bool,
    items: Set<(u64, u32, u32)>,
) -> bool {
    &&& n == c || (c < MAX_DEDUP_COUNT && n == c + 1)
    &&& c >= MAX_DEDUP_COUNT ==> n == c
    &&& c < MAX_DEDUP_COUNT && (c == 0 || no_dedup || fp is None) ==> n == c + 1
    &&& !no_dedup && 0 < c < MAX_DEDUP_COUNT && fp_seen(items, km, fp) ==> n == c
}

/// The filter items added when the k-mers `kms` are observed with fingerprint `fp`: both items of
/// each k-mer below the cap in `counts`.
pub open spec fn added_items(kms: Seq<u64>, counts: Map<u64, u32>, fp: Option<(DoublePair, DoublePair)>) -> Set<
    (u64, u32, u32),
> {
    match fp {
        Some((d0, d1)) => Set::new(
            |it: (u64, u32, u32)|
                exists|i: int|
                    0 <= i < kms.len() && count_in(counts, #[trigger] kms[i]) < MAX_DEDUP_COUNT && (it
                        == filter_item(kms[i], d0) || it == filter_item(kms[i], d1)),
        ),
        None => Set::empty(),
    }
}

/// Observes `km` once against the approximate duplicate set `filter`; returns whether the
/// observation was suppressed. Both fingerprint items are looked up before either is added, and
/// only a k-mer already counted can be suppressed, so a false positive of the filter never drops
/// the first observation of a k-mer.
pub fn dup_removal_lsh_full(
    kmer_counts: &mut HashMap<u64, u32>,
    filter: &mut PairFilter,
    km: u64,
    kmer_pair: Option<(DoublePair, DoublePair)>,
    num_dup_removed: &mut u64,
    no_dedup: bool,
) -> (suppressed: bool)
    requires
        filter_bounded(*old(filter)),
    ensures
        ({
            let c = count_in(old(kmer_counts)@, km);
            let applies = !no_dedup && kmer_pair is Some && c < MAX_DEDUP_COUNT;
            &&& final(kmer_counts)@.dom() == old(kmer_counts)@.dom().insert(km)
            &&& forall|x: u64| x != km && #[trigger] old(kmer_counts)@.contains_key(x)
                ==> final(kmer_counts)@[x] == old(kmer_counts)@[x]
            &&& filtered_count_ok(
                c,
                final(kmer_counts)@[km],
                km,
                kmer_pair,
                no_dedup,
                filter_items(*old(filter)),
            )
            &&& suppressed <==> (final(kmer_counts)@[km] == c && c < MAX_DEDUP_COUNT)
            &&& filter_bounded(*final(filter))
            &&& applies ==> filter_items(*final(filter)) == filter_items(*old(filter)) + added_items(
                seq![km],
                old(kmer_counts)@,
                kmer_pair,
            )
            &&& !applies ==> *final(filter) == *old(filter)
            &&& *final(num_dup_removed) == sat_add(*old(num_dup_removed), if suppressed {
                1nat
            } else {
                0nat
            })
        }),
{
    let c: u32 = match kmer_counts.get(&km) {
        Some(v) => *v,
        None => 0,
    };
    if c >= MAX_DEDUP_COUNT {
        kmer_counts.insert(km, c);
        return false;
    }
    if !no_dedup {
        if let Some(doublepairs) = kmer_pair {
            let ((a0, b0), (a1, b1)) = doublepairs;
            let hit0 = filter_contains(filter, (km, a0, b0));
            let hit1 = filter_contains(filter, (km, a1, b1));
            let ghost items0 = filter_items(*filter);
            filter_add(filter, (km, a0, b0));
            filter_add(filter, (km, a1, b1));
            proof {
                let s = seq![km];
                assert(s[0] == km);
                let added = added_items(s, old(kmer_counts)@, kmer_pair);
                assert forall|it: (u64, u32, u32)| added.contains(it) <==> (it == (km, a0, b0) || it == (
                    km,
                    a1,
                    b1,
                )) by {
                    if it == (km, a0, b0) || it == (km, a1, b1) {
                        assert(0 <= 0 < s.len() && count_in(old(kmer_counts)@, s[0]) < MAX_DEDUP_COUNT);
                    }
                }
                assert(filter_items(*filter) =~= items0 + added);
            }
            if c > 0 && (hit0 || hit1) {
                kmer_counts.insert(km, c);
                *num_dup_removed = num_dup_removed.saturating_add(1);
                return true;
            }
        }
    }
    kmer_counts.insert(km, c + 1);
    false
}

impl SampleSketch {
    /// Adds one read pair like `add_read_pair`, but against the approximate duplicate set
    /// `filter`. Each k-mer of the pair is observed once (see `filtered_count_ok`).
    pub fn add_read_pair_filtered(
        &mut self,
        seq1: &[u8],
        seq2: &[u8],
        filter: &mut PairFilter,
        no_dedup: bool,
        removed: &mut u64,
    )
        requires
            filter_bounded(*old(filter)),
        ensures
            counts_capped(final(self)@.counts),
            filter_bounded(*final(filter)),
            ({
                let c = old(self)@.c as nat;
                let k = old(self)@.k as nat;
                let kms = pair_kmers(seeds_of(seq1@, c, k), seeds_of(seq2@, c, k));
                let fp = pair_fingerprint(seq1@, seq2@);
                let oc = old(self)@.counts;
                let nc = final(self)@.counts;
                &&& nc.dom() == oc.dom() + kms.to_set()
                &&& forall|x: u64| !kms.contains(x) && #[trigger] oc.contains_key(x) ==> nc[x] == oc[x]
                &&& forall|x: u64| #[trigger] kms.contains(x) ==> filtered_count_ok(
                    count_in(oc, x),
                    nc[x],
                    x,
                    fp,
                    no_dedup,
                    filter_items(*old(filter)),
                )
                &&& !no_dedup && fp is Some ==> filter_items(*final(filter)) == filter_items(*old(filter))
                    + added_items(kms, oc, fp)
                &&& final(self)@ == SampleSketchView {
                    counts: nc,
                    num_reads: sat_add(old(self)@.num_reads, 1),
                    total_read_bases: sat_add(old(self)@.total_read_bases, seq1@.len()),
                    ..old(self)@
                }
                &&& *old(removed) <= *final(removed)
            }),
    {
        proof {
            use_type_invariant(&*self);
        }
        let mut v1: Vec<u64> = Vec::new();
        let mut v2: Vec<u64> = Vec::new();
        extract_markers(seq1, &mut v1, self.c, self.k);
        extract_markers(seq2, &mut v2, self.c, self.k);
        assert(v1@ =~= seeds_of(seq1@, self@.c as nat, self@.k as nat));
        assert(v2@ =~= seeds_of(seq2@, self@.c as nat, self@.k as nat));
        let kmer_pair = pair_kmer(seq1, seq2);
        let kms = pair_kmer_list(&v1, &v2);
        proof {
            lemma_uniq(v1@ + v2@);
        }
        let mut counts: HashMap<u64, u32> = HashMap::new();
        std::mem::swap(&mut counts, &mut self.kmer_counts);
        let ghost c0 = counts@;
        let ghost r0 = *removed;
        let ghost items0 = filter_items(*filter);
        let n = kms.len();
        let mut i: usize = 0;
        assert(kms@.take(0).to_set() =~= Set::<u64>::empty());
        assert(c0.dom() + Set::<u64>::empty() =~= c0.dom());
        assert(added_items(kms@.take(0), c0, kmer_pair) =~= Set::<(u64, u32, u32)>::empty());
        assert(items0 + Set::<(u64, u32, u32)>::empty() =~= items0);
        while i < n
            invariant
                n == kms@.len(),
                i <= n,
                forall|a: int, b: int| 0 <= a < b < kms@.len() ==> kms@[a] != kms@[b],
                counts_capped(counts@),
                filter_bounded(*filter),
                counts@.dom() == c0.dom() + kms@.take(i as int).to_set(),
                forall|x: u64|
                    !kms@.take(i as int).contains(x) && #[trigger] c0.contains_key(x) ==> counts@[x]
                        == c0[x],
                forall|x: u64| #[trigger]
                    kms@.take(i as int).contains(x) ==> filtered_count_ok(
                        count_in(c0, x),
                        counts@[x],
                        x,
                        kmer_pair,
                        no_dedup,
                        items0,
                    ),
                !no_dedup && kmer_pair is Some ==> filter_items(*filter) == items0 + added_items(
                    kms@.take(i as int),
                    c0,
                    kmer_pair,
                ),
                (no_dedup || kmer_pair is None) ==> filter_items(*filter) == items0,
                r0 <= *removed,
            decreases n - i,
        {
            let km = kms[i];
            let ghost before = counts@;
            let ghost fi = filter_items(*filter);
            let ghost pre = kms@.take(i as int);
            let ghost post = kms@.take(i + 1);
            proof {
                assert(post =~= pre.push(km));
                assert(!pre.contains(km)) by {
                    if pre.contains(km) {
                        let j = choose|j: int| 0 <= j < pre.len() && pre[j] == km;
                        assert(kms@[j] == kms@[i as int]);
                    }
                }
                assert(count_in(before, km) == count_in(c0, km));
                if !no_dedup && kmer_pair is Some {
                    assert(items0.subset_of(fi));
                } else {
                    assert(fi == items0);
                }
            }
            dup_removal_lsh_full(&mut counts, filter, km, kmer_pair, removed, no_dedup);
            proof {
                assert forall|x: u64| post.contains(x) <==> pre.contains(x) || x == km by {
                    if post.contains(x) && x != km {
                        let j = choose|j: int| 0 <= j < post.len() && post[j] == x;
                        assert(pre[j] == x);
                    }
                    if pre.contains(x) {
                        let j = choose|j: int| 0 <= j < pre.len() && pre[j] == x;
                        assert(post[j] == x);
                    }
                    if x == km {
                        assert(post[i as int] == km);
                    }
                }
                assert(post.to_set() =~= pre.to_set().insert(km));
                assert(counts@.dom() =~= c0.dom() + post.to_set());
                if !no_dedup && kmer_pair is Some {
                    let (d0, d1) = kmer_pair->0;
                    assert(fp_seen(items0, km, kmer_pair) ==> fp_seen(fi, km, kmer_pair));
                    if count_in(c0, km) < MAX_DEDUP_COUNT {
                        let one = added_items(seq![km], before, kmer_pair);
                        assert forall|it: (u64, u32, u32)| added_items(post, c0, kmer_pair).contains(it)
                            <==> added_items(pre, c0, kmer_pair).contains(it) || one.contains(it) by {
                            if added_items(post, c0, kmer_pair).contains(it) {
                                let j = choose|j: int|
                                    0 <= j < post.len() && count_in(c0, #[trigger] post[j]) < MAX_DEDUP_COUNT
                                        && (it == filter_item(post[j], d0) || it == filter_item(post[j], d1));
                                if j < pre.len() {
                                    assert(pre[j] == post[j]);
                                } else {
                                    assert(seq![km][0] == km);
                                }
                            }
                            if added_items(pre, c0, kmer_pair).contains(it) {
                                let j = choose|j: int|
                                    0 <= j < pre.len() && count_in(c0, #[trigger] pre[j]) < MAX_DEDUP_COUNT
                                        && (it == filter_item(pre[j], d0) || it == filter_item(pre[j], d1));
                                assert(post[j] == pre[j]);
                            }
                            if one.contains(it) {
                                let j = choose|j: int|
                                    0 <= j < 1 && count_in(before, #[trigger] seq![km][j]) < MAX_DEDUP_COUNT
                                        && (it == filter_item(seq![km][j], d0) || it == filter_item(seq![km][j], d1));
                                assert(seq![km][j] == km);
                                assert(post[i as int] == km);
                            }
                        }
                        assert(filter_items(*filter) =~= items0 + added_items(post, c0, kmer_pair));
                    } else {
                        assert forall|it: (u64, u32, u32)| added_items(post, c0, kmer_pair).contains(it)
                            <==> added_items(pre, c0, kmer_pair).contains(it) by {
                            if added_items(post, c0, kmer_pair).contains(it) {
                                let j = choose|j: int|
                                    0 <= j < post.len() && count_in(c0, #[trigger] post[j]) < MAX_DEDUP_COUNT
                                        && (it == filter_item(post[j], d0) || it == filter_item(post[j], d1));
                                if j < pre.len() {
                                    assert(pre[j] == post[j]);
                                } else {
                                    assert(post[j] == km);
                                }
                            }
                            if added_items(pre, c0, kmer_pair).contains(it) {
                                let j = choose|j: int|
                                    0 <= j < pre.len() && count_in(c0, #[trigger] pre[j]) < MAX_DEDUP_COUNT
                                        && (it == filter_item(pre[j], d0) || it == filter_item(pre[j], d1));
                                assert(post[j] == pre[j]);
                            }
                        }
                        assert(added_items(post, c0, kmer_pair) =~= added_items(pre, c0, kmer_pair));
                    }
                }
                assert forall|x: u64| #[trigger] post.contains(x) implies filtered_count_ok(
                    count_in(c0, x),
                    counts@[x],
                    x,
                    kmer_pair,
                    no_dedup,
                    items0,
                ) by {
                    if x != km {
                        assert(pre.contains(x));
                        assert(before.contains_key(x));
                        assert(counts@[x] == before[x]);
                    } else {
                        if kmer_pair is Some {
                            assert(fp_seen(items0, km, kmer_pair) ==> fp_seen(fi, km, kmer_pair));
                        }
                    }
                }
                assert forall|x: u64|
                    !post.contains(x) && #[trigger] c0.contains_key(x) implies counts@[x] == c0[x] by {
                    assert(post[i as int] == km);
                    assert(!pre.contains(x));
                    assert(before.contains_key(x));
                    assert(before[x] == c0[x]);
                }
                assert forall|x: u64| #[trigger] counts@.contains_key(x) implies counts@[x]
                    <= MAX_DEDUP_COUNT by {
                    if x != km {
                        assert(before.contains_key(x));
                    }
                }
            }
            i = i + 1;
        }
        assert(kms@.take(n as int) =~= kms@);
        self.kmer_counts = counts;
        proof {
            use_type_invariant(&*self);
        }
        self.num_reads = self.num_reads.saturating_add(1);
        self.total_read_bases = self.total_read_bases.saturating_add(seq1.len() as u64);
    }
}

/// `ks` and `cs` list the entries of `m`: each `(ks[i], cs[i])` is an entry, and every key of
/// `m` is listed.
pub open spec fn parts_describe(m: Map<u64, u32>, ks: Seq<u64>, cs: Seq<u32>) -> bool {
    &&& ks.len() == cs.len()
    &&& forall|i: int| 0 <= i < ks.len() ==> m.contains_key(#[trigger] ks[i]) && m[ks[i]] == cs[i]
    &&& forall|km: u64| #[trigger] m.contains_key(km) ==> ks.contains(km)
}

/// The counts rebuilt from the first `n` listed entries, later entries overriding earlier ones
/// and each count capped at `MAX_DEDUP_COUNT`.
pub open spec fn parts_map(ks: Seq<u64>, cs: Seq<u32>, n: int) -> Map<u64, u32>
    decreases n,
{
    if n <= 0 {
        Map::empty()
    } else {
        parts_map(ks, cs, n - 1).insert(
            ks[n - 1],
            if cs[n - 1] > MAX_DEDUP_COUNT {
                MAX_DEDUP_COUNT
            } else {
                cs[n - 1]
            },
        )
    }
}

/// Rebuilding the counts from a listing of their entries gives back the same counts.
pub proof fn lemma_parts_round_trip(m: Map<u64, u32>, ks: Seq<u64>, cs: Seq<u32>)
    requires
        parts_describe(m, ks, cs),
        counts_capped(m),
    ensures
        parts_map(ks, cs, ks.len() as int) == m,
{
    lemma_parts_map_prefix(m, ks, cs, ks.len() as int);
    let r = parts_map(ks, cs, ks.len() as int);
    assert forall|km: u64| #[trigger] m.contains_key(km) implies r.contains_key(km) by {
        let j = choose|j: int| 0 <= j < ks.len() && ks[j] == km;
        assert(ks[j] == km);
    }
    assert(r =~= m);
}

proof fn lemma_parts_map_prefix(m: Map<u64, u32>, ks: Seq<u64>, cs: Seq<u32>, n: int)
    requires
        parts_describe(m, ks, cs),
        counts_capped(m),
        0 <= n <= ks.len(),
    ensures
        forall|km: u64| #[trigger]
            parts_map(ks, cs, n).contains_key(km) <==> exists|j: int| 0 <= j < n && ks[j] == km,
        forall|km: u64| #[trigger]
            parts_map(ks, cs, n).contains_key(km) ==> m.contains_key(km) && parts_map(ks, cs, n)[km]
                == m[km],
    decreases n,
{
    if n > 0 {
        lemma_parts_map_prefix(m, ks, cs, n - 1);
        let prev = parts_map(ks, cs, n - 1);
        let cur = parts_map(ks, cs, n);
        assert(m.contains_key(ks[n - 1]) && m[ks[n - 1]] == cs[n - 1]);
        assert forall|km: u64| #[trigger]
            cur.contains_key(km) <==> exists|j: int| 0 <= j < n && ks[j] == km by {
            if cur.contains_key(km) && km != ks[n - 1] {
                let j = choose|j: int| 0 <= j < n - 1 && ks[j] == km;
                assert(0 <= j < n && ks[j] == km);
            }
            if exists|j: int| 0 <= j < n && ks[j] == km {
                let j = choose|j: int| 0 <= j < n && ks[j] == km;
                if j < n - 1 {
                    assert(prev.contains_key(km));
                }
            }
        }
    }
}

/// Why a stored sample sketch cannot be loaded.
#[derive(Debug, PartialEq, Eq, Structural, Clone, Copy)]
pub enum SketchFormatError {
    /// The k-mer and count lists differ in length.
    LengthMismatch,
    /// `c` is 0, or `k` is outside 1..=31.
    BadParameters,
}

impl SampleSketch {
    /// Lists the entries of the counts as two parallel vectors (k-mers, counts), in no particular
    /// order.
    pub fn to_parts(&self) -> (r: (Vec<u64>, Vec<u32>))
        ensures
            parts_describe(self@.counts, r.0@, r.1@),
    {
        let mut ks: Vec<u64> = Vec::new();
        let mut cs: Vec<u32> = Vec::new();
        let ghost m = self.kmer_counts@;
        for (km, cnt) in it: self.kmer_counts.iter()
            invariant
                m == self.kmer_counts@,
                ks@.len() == cs@.len(),
                ks@.len() == it.index(),
                it.seq() == spec_hash_map_iter(&self.kmer_counts).remaining(),
                forall|i: int|
                    0 <= i < ks@.len() ==> ks@[i] == *it.seq()[i].0 && cs@[i] == *it.seq()[i].1,
        {
            ks.push(*km);
            cs.push(*cnt);
        }
        proof {
            let v = spec_hash_map_iter(&self.kmer_counts).remaining();
            assert forall|i: int| 0 <= i < ks@.len() implies m.contains_key(#[trigger] ks@[i])
                && m[ks@[i]] == cs@[i] by {
                assert(m.contains_key(*v[i].0));
            }
            assert forall|km: u64| #[trigger] m.contains_key(km) implies ks@.contains(km) by {
                assert(v.contains((&km, &m[km])));
                let j = choose|j: int| 0 <= j < v.len() && v[j] == (&km, &m[km]);
                assert(ks@[j] == km);
            }
        }
        (ks, cs)
    }

    /// Rebuilds a sketch from its stored form; counts above `MAX_DEDUP_COUNT` are capped.
    pub fn from_parts(
        file_name: String,
        sample_name: Option<String>,
        c: usize,
        k: usize,
        paired: bool,
        num_reads: u64,
        total_read_bases: u64,
        kmers: Vec<u64>,
        counts: Vec<u32>,
    ) -> (r: Result<SampleSketch, SketchFormatError>)
        ensures
            kmers@.len() != counts@.len() ==> r == Err::<SampleSketch, _>(
                SketchFormatError::LengthMismatch,
            ),
            kmers@.len() == counts@.len() && !(1 <= c && 1 <= k <= 31) ==> r == Err::<
                SampleSketch,
                _,
            >(SketchFormatError::BadParameters),
            kmers@.len() == counts@.len() && 1 <= c && 1 <= k <= 31 ==> r is Ok && r->Ok_0@
                == (SampleSketchView {
                file_name: file_name@,
                sample_name: opt_view(sample_name),
                c,
                k,
                paired,
                num_reads,
                total_read_bases,
                counts: parts_map(kmers@, counts@, kmers@.len() as int),
            }),
    {
        if kmers.len() != counts.len() {
            return Err(SketchFormatError::LengthMismatch);
        }
        if !(1 <= c && 1 <= k && k <= 31) {
            return Err(SketchFormatError::BadParameters);
        }
        let mut map: HashMap<u64, u32> = HashMap::new();
        let n = kmers.len();
        let mut i: usize = 0;
        while i < n
            invariant
                n == kmers@.len(),
                n == counts@.len(),
                i <= n,
                map@ == parts_map(kmers@, counts@, i as int),
                counts_capped(map@),
            decreases n - i,
        {
            let v = if counts[i] > MAX_DEDUP_COUNT {
                MAX_DEDUP_COUNT
            } else {
                counts[i]
            };
            map.insert(kmers[i], v);
            i = i + 1;
        }
        Ok(
            SampleSketch {
                file_name,
                sample_name,
                c,
                k,
                paired,
                num_reads,
                total_read_bases,
                kmer_counts: map,
            },
        )
    }
}

} // verus!
