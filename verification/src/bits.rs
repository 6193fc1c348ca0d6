//! Trusted interface to the `bit_set` crate.
//!
//! The engine stores three kinds of index sets in `bit_set::BitSet` values:
//! each tile's neighbor set, the sampled mine positions during construction,
//! and the set of exposed safe tiles. Verus sees the type as opaque, so the
//! contracts below describe each call in terms of `bits_of`, the mathematical
//! set of bit indices a `BitSet` holds.

use vstd::prelude::*;

verus! {

#[verifier::external_type_specification]
#[verifier::external_body]
#[verifier::reject_recursive_types(B)]
pub struct ExBitSet<B>(bit_set::BitSet<B>);

/// The set of bit indices that a `bit_set::BitSet` holds.
pub uninterp spec fn bits_of(s: bit_set::BitSet) -> Set<int>;

/// Relies on `bit_set::BitSet::new`: a freshly created set is empty.
#[verifier::external_body]
pub(crate) fn bitset_new() -> (s: bit_set::BitSet)
    ensures
        bits_of(s) == Set::<int>::empty(),
{
    bit_set::BitSet::new()
}

/// Relies on `bit_set::BitSet::insert`: adds `value` to the set and reports
/// whether it was absent before the call.
#[verifier::external_body]
pub(crate) fn bitset_insert(s: &mut bit_set::BitSet, value: usize) -> (fresh: bool)
    ensures
        bits_of(*final(s)) == bits_of(*old(s)).insert(value as int),
        fresh == !bits_of(*old(s)).contains(value as int),
{
    s.insert(value)
}

/// Relies on `bit_set::BitSet::contains`.
#[verifier::external_body]
pub(crate) fn bitset_contains(s: &bit_set::BitSet, value: usize) -> (r: bool)
    ensures
        r == bits_of(*s).contains(value as int),
{
    s.contains(value)
}

/// Relies on `bit_set::BitSet::len`: the number of set bits.
#[verifier::external_body]
pub(crate) fn bitset_len(s: &bit_set::BitSet) -> (r: usize)
    requires
        bits_of(*s).finite(),
    ensures
        r == bits_of(*s).len(),
{
    s.len()
}

/// Relies on `bit_set::BitSet::iter`: yields every element of the set, each
/// exactly once.
#[verifier::external_body]
pub(crate) fn bitset_elements(s: &bit_set::BitSet) -> (elems: Vec<usize>)
    ensures
        elems@.no_duplicates(),
        forall|k: int|
            0 <= k < elems@.len() ==> bits_of(*s).contains(#[trigger] elems@[k] as int),
        forall|v: int| bits_of(*s).contains(v) ==> elems@.contains(v as usize),
{
    s.iter().collect()
}

} // verus!
