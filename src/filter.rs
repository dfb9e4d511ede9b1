use vstd::prelude::*;
use fxhash::FxHasher;
use rand::rngs::ThreadRng;
use scalable_cuckoo_filter::ScalableCuckooFilter;

verus! {

/// The hasher of `fxhash`, used by the duplicate filter.
#[verifier::external_type_specification]
#[verifier::external_body]
pub struct ExFxHasher(FxHasher);

/// The random number generator the filter uses to relocate entries.
#[verifier::external_type_specification]
#[verifier::external_body]
pub struct ExThreadRng(ThreadRng);

/// The scalable cuckoo filter of `scalable_cuckoo_filter`, carried opaquely.
#[verifier::external_type_specification]
#[verifier::external_body]
#[verifier::reject_recursive_types(T)]
#[verifier::reject_recursive_types(H)]
#[verifier::reject_recursive_types(R)]
pub struct ExScalableCuckooFilter<T: ?Sized, H, R>(ScalableCuckooFilter<T, H, R>);

/// Approximate set of (k-mer, fingerprint word pair) items used for read-pair deduplication.
pub type PairFilter = ScalableCuckooFilter<(u64, u32, u32), FxHasher, ThreadRng>;

/// The items passed to `filter_add` on a filter. The filter stores only fingerprints, and
/// reports each of these items as present from then on (see `filter_contains`).
pub uninterp spec fn filter_items(f: PairFilter) -> Set<(u64, u32, u32)>;

/// The filter was built with an initial capacity of at least 2^20 items and a false-positive
/// rate of at least 2^-20. Table `t` of such a filter then has a fingerprint width of at most
/// `t + 24` bits and room for at least `2^(20 + t)` items, so a width above 64 bits (which the
/// crate does not support) would take tables of more than 2^60 entries: memory runs out first.
pub uninterp spec fn filter_bounded(f: PairFilter) -> bool;

/// Relies on `ScalableCuckooFilter::contains`: an item passed to `insert_if_not_contained` was
/// either stored, or already reported present by a stored fingerprint; stored fingerprints are
/// never dropped (they move only between the two buckets of their item, or to the overflow list),
/// so such an item is always reported. An item never added may be reported too.
#[verifier::external_body]
pub(crate) fn filter_contains(f: &PairFilter, item: (u64, u32, u32)) -> (r: bool)
    requires
        filter_bounded(*f),
    ensures
        filter_items(*f).contains(item) ==> r,
{
    f.contains(&item)
}

/// Relies on `ScalableCuckooFilter::insert_if_not_contained`: the item is stored unless the
/// filter already reports it; the filter's construction parameters do not change.
#[verifier::external_body]
pub(crate) fn filter_add(f: &mut PairFilter, item: (u64, u32, u32))
    requires
        filter_bounded(*old(f)),
    ensures
        filter_items(*final(f)) == filter_items(*old(f)).insert(item),
        filter_bounded(*final(f)),
{
    f.insert_if_not_contained(&item);
}

} // verus!
