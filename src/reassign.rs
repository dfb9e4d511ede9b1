use vstd::prelude::*;
use std::collections::HashMap;
use crate::contig::GenomeSketch;
use crate::inference::{kmer_used, WinnerTable};

verus! {

broadcast use vstd::std_specs::hash::group_hash_axioms;

/// Contig `id`, ranked `key`, claims `km`: it takes the k-mer when nobody holds it yet or when it
/// ranks strictly higher than the holder (so ties stay with the first claimant).
pub open spec fn claim(w: Map<u64, (u64, usize)>, km: u64, key: u64, id: usize) -> Map<
    u64,
    (u64, usize),
> {
    if !w.contains_key(km) || key > w[km].0 {
        w.insert(km, (key, id))
    } else {
        w
    }
}

/// Contig `id` claims each of `kms` in turn.
pub open spec fn claim_all(w: Map<u64, (u64, usize)>, kms: Seq<u64>, key: u64, id: usize) -> Map<
    u64,
    (u64, usize),
>
    decreases kms.len(),
{
    if kms.len() == 0 {
        w
    } else {
        claim(claim_all(w, kms.drop_last(), key, id), kms.last(), key, id)
    }
}

/// The k-mers a contig can own: its kept k-mers, then its tracked extras.
pub open spec fn claimable(g: GenomeSketch) -> Seq<u64> {
    g.genome_kmers@ + match g.pseudotax_tracked_nonused_kmers {
        Some(v) => v@,
        None => Seq::empty(),
    }
}

/// The winner table after the first `n` results `(contig id, rank key)` have claimed the
/// k-mers of their contigs, in order.
pub open spec fn winner_upto(contigs: Seq<GenomeSketch>, results: Seq<(usize, u64)>, n: int) -> Map<
    u64,
    (u64, usize),
>
    decreases n,
{
    if n <= 0 {
        Map::empty()
    } else {
        let (id, key) = results[n - 1];
        claim_all(winner_upto(contigs, results, n - 1), claimable(contigs[id as int]), key, id)
    }
}

pub open spec fn results_valid(contigs: Seq<GenomeSketch>, results: Seq<(usize, u64)>) -> bool {
    forall|r: int| 0 <= r < results.len() ==> (#[trigger] results[r]).0 < contigs.len()
}

fn claim_vec(w: &mut WinnerTable, kms: &Vec<u64>, key: u64, id: usize)
    ensures
        final(w)@ == claim_all(old(w)@, kms@, key, id),
{
    let ghost w0 = w@;
    let n = kms.len();
    let mut i: usize = 0;
    while i < n
        invariant
            n == kms@.len(),
            i <= n,
            w@ == claim_all(w0, kms@.take(i as int), key, id),
        decreases n - i,
    {
        let km = kms[i];
        assert(kms@.take(i + 1).drop_last() =~= kms@.take(i as int));
        let take = match w.get(&km) {
            Some(entry) => key > entry.0,
            None => true,
        };
        if take {
            w.insert(km, (key, id));
        }
        i = i + 1;
    }
    assert(kms@.take(n as int) =~= kms@);
}

proof fn lemma_claim_all_concat(
    w: Map<u64, (u64, usize)>,
    a: Seq<u64>,
    b: Seq<u64>,
    key: u64,
    id: usize,
)
    ensures
        claim_all(w, a + b, key, id) == claim_all(claim_all(w, a, key, id), b, key, id),
    decreases b.len(),
{
    if b.len() == 0 {
        assert(a + b =~= a);
    } else {
        lemma_claim_all_concat(w, a, b.drop_last(), key, id);
        assert((a + b).drop_last() =~= a + b.drop_last());
    }
}

/// Builds the winner table: for each result `(contig id, rank key)` in order, the contig claims
/// its kept k-mers and its tracked extras (see `claim`). Rank keys order the results by their
/// adjusted ANI.
pub fn winner_table(contigs: &Vec<GenomeSketch>, results: &Vec<(usize, u64)>) -> (w: WinnerTable)
    requires
        results_valid(contigs@, results@),
    ensures
        w@ == winner_upto(contigs@, results@, results@.len() as int),
{
    let mut w: WinnerTable = HashMap::new();
    let n = results.len();
    let mut r: usize = 0;
    while r < n
        invariant
            n == results@.len(),
            r <= n,
            results_valid(contigs@, results@),
            w@ == winner_upto(contigs@, results@, r as int),
        decreases n - r,
    {
        let (id, key) = results[r];
        assert(results@[r as int].0 < contigs@.len());
        let g = &contigs[id];
        let ghost w0 = w@;
        claim_vec(&mut w, &g.genome_kmers, key, id);
        match &g.pseudotax_tracked_nonused_kmers {
            Some(extra) => {
                claim_vec(&mut w, extra, key, id);
                proof {
                    lemma_claim_all_concat(w0, g.genome_kmers@, extra@, key, id);
                }
            },
            None => {
                assert(g.genome_kmers@ + Seq::<u64>::empty() =~= g.genome_kmers@);
            },
        }
        r = r + 1;
    }
    w
}

proof fn lemma_claim_all_dom(w: Map<u64, (u64, usize)>, kms: Seq<u64>, key: u64, id: usize)
    ensures
        forall|km: u64|
            w.contains_key(km) || kms.contains(km) ==> #[trigger] claim_all(
                w,
                kms,
                key,
                id,
            ).contains_key(km),
        forall|km: u64| #[trigger]
            claim_all(w, kms, key, id).contains_key(km) ==> (w.contains_key(km) && claim_all(
                w,
                kms,
                key,
                id,
            )[km] == w[km]) || (claim_all(w, kms, key, id)[km].1 == id && kms.contains(km)),
    decreases kms.len(),
{
    if kms.len() > 0 {
        let pre = kms.drop_last();
        let last = kms.last();
        lemma_claim_all_dom(w, pre, key, id);
        let pm = claim_all(w, pre, key, id);
        let cm = claim_all(w, kms, key, id);
        assert(cm == claim(pm, last, key, id));
        assert forall|km: u64| pre.contains(km) implies kms.contains(km) by {
            let j = choose|j: int| 0 <= j < pre.len() && pre[j] == km;
            assert(kms[j] == km);
        }
        assert forall|km: u64| kms.contains(km) implies pre.contains(km) || km == last by {
            let j = choose|j: int| 0 <= j < kms.len() && kms[j] == km;
            if j < kms.len() - 1 {
                assert(pre[j] == km);
            }
        }
        assert(kms.contains(last)) by {
            assert(kms[kms.len() - 1] == last);
        }
        assert forall|km: u64| w.contains_key(km) || kms.contains(km) implies #[trigger] cm.contains_key(km) by {
            if km != last {
                assert(pm.contains_key(km));
            }
        }
        assert forall|km: u64| #[trigger] cm.contains_key(km) implies (w.contains_key(km) && cm[km]
            == w[km]) || (cm[km].1 == id && kms.contains(km)) by {
            if km != last {
                assert(pm.contains_key(km));
                assert(cm[km] == pm[km]);
            } else if cm[km] != pm[km] || !pm.contains_key(km) {
                assert(cm[km] == (key, id));
            }
        }
    }
}

/// Every k-mer of a result's contig is in the winner table, and its owner is the contig of a
/// result that can claim it.
pub proof fn lemma_winner_dom(contigs: Seq<GenomeSketch>, results: Seq<(usize, u64)>, n: int)
    requires
        results_valid(contigs, results),
        0 <= n <= results.len(),
    ensures
        forall|r: int, km: u64|
            0 <= r < n && claimable(contigs[results[r].0 as int]).contains(km) ==> #[trigger] winner_upto(
                contigs,
                results,
                n,
            ).contains_key(km) && #[trigger] results[r].0 < contigs.len(),
        forall|km: u64| #[trigger]
            winner_upto(contigs, results, n).contains_key(km) ==> exists|r: int|
                0 <= r < n && results[r].0 == winner_upto(contigs, results, n)[km].1 && claimable(
                    contigs[results[r].0 as int],
                ).contains(km),
    decreases n,
{
    if n > 0 {
        lemma_winner_dom(contigs, results, n - 1);
        let (id, key) = results[n - 1];
        let prev = winner_upto(contigs, results, n - 1);
        let cur = winner_upto(contigs, results, n);
        lemma_claim_all_dom(prev, claimable(contigs[id as int]), key, id);
        assert forall|r: int, km: u64|
            0 <= r < n && claimable(contigs[results[r].0 as int]).contains(km) implies #[trigger] cur.contains_key(km)
            && #[trigger] results[r].0 < contigs.len() by {
            assert(results_valid(contigs, results));
            assert(results[r].0 < contigs.len());
            if r < n - 1 {
                assert(prev.contains_key(km));
            }
        }
        assert forall|km: u64| #[trigger] cur.contains_key(km) implies exists|r: int|
            0 <= r < n && results[r].0 == cur[km].1 && claimable(
                contigs[results[r].0 as int],
            ).contains(km) by {
            if cur[km].1 == id && claimable(contigs[id as int]).contains(km) {
                assert(results[n - 1].0 == cur[km].1);
            } else {
                assert(prev.contains_key(km));
                assert(cur[km] == prev[km]);
                let r = choose|r: int|
                    0 <= r < n - 1 && results[r].0 == prev[km].1 && claimable(
                        contigs[results[r].0 as int],
                    ).contains(km);
                assert(0 <= r < n && results[r].0 == cur[km].1);
            }
        }
    }
}

proof fn lemma_claim_all_entry(w: Map<u64, (u64, usize)>, kms: Seq<u64>, key: u64, id: usize, km: u64)
    ensures
        kms.contains(km) && (!w.contains_key(km) || key > w[km].0) ==> claim_all(w, kms, key, id).contains_key(km)
            && claim_all(w, kms, key, id)[km] == (key, id),
        !(kms.contains(km) && (!w.contains_key(km) || key > w[km].0)) ==> (claim_all(
            w,
            kms,
            key,
            id,
        ).contains_key(km) == w.contains_key(km) && (w.contains_key(km) ==> claim_all(w, kms, key, id)[km]
            == w[km])),
    decreases kms.len(),
{
    if kms.len() > 0 {
        let pre = kms.drop_last();
        lemma_claim_all_entry(w, pre, key, id, km);
        assert(kms.contains(km) ==> pre.contains(km) || kms.last() == km) by {
            if kms.contains(km) {
                let j = choose|j: int| 0 <= j < kms.len() && kms[j] == km;
                if j < kms.len() - 1 {
                    assert(pre[j] == km);
                }
            }
        }
        assert(pre.contains(km) ==> kms.contains(km)) by {
            if pre.contains(km) {
                let j = choose|j: int| 0 <= j < pre.len() && pre[j] == km;
                assert(kms[j] == km);
            }
        }
        assert(kms.contains(kms.last())) by {
            assert(kms[kms.len() - 1] == kms.last());
        }
    }
}

/// Result `r` can claim `km`.
pub open spec fn claims(contigs: Seq<GenomeSketch>, results: Seq<(usize, u64)>, r: int, km: u64) -> bool {
    claimable(contigs[results[r].0 as int]).contains(km)
}

/// The winner table gives each k-mer to the best-ranked result that can claim it, the first such
/// result on ties: its entry is that result's `(rank key, contig id)`.
pub proof fn lemma_winner_is_best(
    contigs: Seq<GenomeSketch>,
    results: Seq<(usize, u64)>,
    n: int,
    km: u64,
)
    requires
        0 <= n <= results.len(),
    ensures
        winner_upto(contigs, results, n).contains_key(km) <==> exists|r: int|
            0 <= r < n && #[trigger] claims(contigs, results, r, km),
        winner_upto(contigs, results, n).contains_key(km) ==> exists|r: int|
            {
                &&& 0 <= r < n
                &&& #[trigger] claims(contigs, results, r, km)
                &&& winner_upto(contigs, results, n)[km] == (results[r].1, results[r].0)
                &&& forall|q: int| 0 <= q < r && #[trigger] claims(contigs, results, q, km) ==> results[q].1 < results[r].1
                &&& forall|q: int| 0 <= q < n && #[trigger] claims(contigs, results, q, km) ==> results[q].1 <= results[r].1
            },
    decreases n,
{
    if n > 0 {
        lemma_winner_is_best(contigs, results, n - 1, km);
        let (id, key) = results[n - 1];
        let prev = winner_upto(contigs, results, n - 1);
        let cur = winner_upto(contigs, results, n);
        lemma_claim_all_entry(prev, claimable(contigs[id as int]), key, id, km);
        if claims(contigs, results, n - 1, km) {
            if !prev.contains_key(km) || key > prev[km].0 {
                let r = n - 1;
                assert(cur[km] == (results[r].1, results[r].0));
                if prev.contains_key(km) {
                    let b = choose|b: int|
                        {
                            &&& 0 <= b < n - 1
                            &&& #[trigger] claims(contigs, results, b, km)
                            &&& prev[km] == (results[b].1, results[b].0)
                            &&& forall|q: int| 0 <= q < b && #[trigger] claims(contigs, results, q, km) ==> results[q].1 < results[b].1
                            &&& forall|q: int| 0 <= q < n - 1 && #[trigger] claims(contigs, results, q, km) ==> results[q].1 <= results[b].1
                        };
                    assert forall|q: int| 0 <= q < n && #[trigger] claims(contigs, results, q, km) implies results[q].1
                        <= results[r].1 by {
                        if q < n - 1 {
                            assert(results[q].1 <= results[b].1);
                        }
                    }
                    assert forall|q: int| 0 <= q < r && #[trigger] claims(contigs, results, q, km) implies results[q].1
                        < results[r].1 by {
                        assert(results[q].1 <= results[b].1);
                    }
                } else {
                    assert forall|q: int| 0 <= q < r && #[trigger] claims(contigs, results, q, km) implies false by {
                        assert(exists|r: int| 0 <= r < n - 1 && #[trigger] claims(contigs, results, r, km));
                    }
                }
                assert(0 <= r < n && claims(contigs, results, r, km));
            } else {
                let b = choose|b: int|
                    {
                        &&& 0 <= b < n - 1
                        &&& #[trigger] claims(contigs, results, b, km)
                        &&& prev[km] == (results[b].1, results[b].0)
                        &&& forall|q: int| 0 <= q < b && #[trigger] claims(contigs, results, q, km) ==> results[q].1 < results[b].1
                        &&& forall|q: int| 0 <= q < n - 1 && #[trigger] claims(contigs, results, q, km) ==> results[q].1 <= results[b].1
                    };
                assert(cur[km] == prev[km]);
                assert forall|q: int| 0 <= q < n && #[trigger] claims(contigs, results, q, km) implies results[q].1
                    <= results[b].1 by {}
                assert(0 <= b < n);
            }
        } else {
            assert(claimable(contigs[id as int]) == claimable(contigs[results[n - 1].0 as int]));
            if prev.contains_key(km) {
                let b = choose|b: int|
                    {
                        &&& 0 <= b < n - 1
                        &&& #[trigger] claims(contigs, results, b, km)
                        &&& prev[km] == (results[b].1, results[b].0)
                        &&& forall|q: int| 0 <= q < b && #[trigger] claims(contigs, results, q, km) ==> results[q].1 < results[b].1
                        &&& forall|q: int| 0 <= q < n - 1 && #[trigger] claims(contigs, results, q, km) ==> results[q].1 <= results[b].1
                    };
                assert forall|q: int| 0 <= q < n && #[trigger] claims(contigs, results, q, km) implies results[q].1
                    <= results[b].1 by {}
                assert(0 <= b < n);
            }
            assert((exists|r: int| 0 <= r < n && #[trigger] claims(contigs, results, r, km)) ==> (exists|r: int|
                0 <= r < n - 1 && #[trigger] claims(contigs, results, r, km))) by {
                if exists|r: int| 0 <= r < n && #[trigger] claims(contigs, results, r, km) {
                    let r = choose|r: int| 0 <= r < n && #[trigger] claims(contigs, results, r, km);
                    assert(r != n - 1);
                }
            }
        }
    }
}

/// After reassignment, a k-mer that the contigs of two different results can both claim is
/// counted for at most one of them: for its owner in the winner table.
pub proof fn lemma_winner_exclusive(
    contigs: Seq<GenomeSketch>,
    results: Seq<(usize, u64)>,
    counts: Map<u64, u32>,
    km: u64,
    a: int,
    b: int,
)
    requires
        results_valid(contigs, results),
        0 <= a < results.len(),
        0 <= b < results.len(),
        results[a].0 != results[b].0,
        claimable(contigs[results[a].0 as int]).contains(km),
    ensures
        ({
            let w = winner_upto(contigs, results, results.len() as int);
            !(kmer_used(counts, Some(w), results[a].0, km) && kmer_used(
                counts,
                Some(w),
                results[b].0,
                km,
            ))
        }),
{
    lemma_winner_dom(contigs, results, results.len() as int);
    let w = winner_upto(contigs, results, results.len() as int);
    assert(w.contains_key(km) && results[a].0 < contigs.len());
}

/// After reassignment, a k-mer of a result's contig that was seen in the sample is counted for
/// its owner in the winner table, which is the contig of a result that can claim it.
pub proof fn lemma_winner_used(
    contigs: Seq<GenomeSketch>,
    results: Seq<(usize, u64)>,
    counts: Map<u64, u32>,
    km: u64,
    a: int,
)
    requires
        results_valid(contigs, results),
        0 <= a < results.len(),
        claimable(contigs[results[a].0 as int]).contains(km),
        crate::sample::count_in(counts, km) > 0,
    ensures
        ({
            let w = winner_upto(contigs, results, results.len() as int);
            &&& w.contains_key(km)
            &&& kmer_used(counts, Some(w), w[km].1, km)
            &&& exists|r: int|
                0 <= r < results.len() && results[r].0 == w[km].1 && claimable(
                    contigs[results[r].0 as int],
                ).contains(km)
        }),
{
    lemma_winner_dom(contigs, results, results.len() as int);
    let w = winner_upto(contigs, results, results.len() as int);
    assert(w.contains_key(km) && results[a].0 < contigs.len());
}

/// Two contigs `a` and `b` after the first pass, `a` ranked strictly higher: after reassignment
/// `a` still counts every k-mer of its own that the sample holds, and `b` counts exactly those of
/// its k-mers that the sample holds and that `a` cannot claim.
pub proof fn lemma_reassign_two(
    contigs: Seq<GenomeSketch>,
    a: usize,
    ka: u64,
    b: usize,
    kb: u64,
    counts: Map<u64, u32>,
    km: u64,
)
    requires
        a < contigs.len(),
        b < contigs.len(),
        a != b,
        ka > kb,
    ensures
        ({
            let results = seq![(a, ka), (b, kb)];
            let w = winner_upto(contigs, results, 2);
            &&& claimable(contigs[a as int]).contains(km) ==> (kmer_used(counts, Some(w), a, km)
                <==> kmer_used(counts, None, a, km))
            &&& claimable(contigs[b as int]).contains(km) ==> (kmer_used(counts, Some(w), b, km)
                <==> (kmer_used(counts, None, b, km) && !claimable(contigs[a as int]).contains(km)))
        }),
{
    let results = seq![(a, ka), (b, kb)];
    let w = winner_upto(contigs, results, 2);
    assert(results[0] == (a, ka) && results[1] == (b, kb));
    lemma_winner_is_best(contigs, results, 2, km);
    if claimable(contigs[a as int]).contains(km) {
        assert(claims(contigs, results, 0, km));
        let r = choose|r: int|
            {
                &&& 0 <= r < 2
                &&& #[trigger] claims(contigs, results, r, km)
                &&& w[km] == (results[r].1, results[r].0)
                &&& forall|q: int| 0 <= q < r && #[trigger] claims(contigs, results, q, km) ==> results[q].1 < results[r].1
                &&& forall|q: int| 0 <= q < 2 && #[trigger] claims(contigs, results, q, km) ==> results[q].1 <= results[r].1
            };
        assert(r == 0);
        assert(w[km].1 == a);
    } else if claimable(contigs[b as int]).contains(km) {
        assert(claims(contigs, results, 1, km));
        let r = choose|r: int|
            {
                &&& 0 <= r < 2
                &&& #[trigger] claims(contigs, results, r, km)
                &&& w[km] == (results[r].1, results[r].0)
                &&& forall|q: int| 0 <= q < r && #[trigger] claims(contigs, results, q, km) ==> results[q].1 < results[r].1
                &&& forall|q: int| 0 <= q < 2 && #[trigger] claims(contigs, results, q, km) ==> results[q].1 <= results[r].1
            };
        assert(!claims(contigs, results, 0, km));
        assert(r == 1);
        assert(w[km].1 == b);
    }
}

} // verus!
