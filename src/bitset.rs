//! Trusted interface to `bit_set::BitSet`, the compact value sets that record
//! which digits a row, column or box already holds.
use vstd::prelude::*;

verus! {

#[verifier::external_type_specification]
#[verifier::external_body]
#[verifier::reject_recursive_types(B)]
pub struct ExBitSet<B>(bit_set::BitSet<B>);

/// The values that a bit set holds.
pub uninterp spec fn bits_of(s: bit_set::BitSet) -> Set<usize>;

/// Whether bit `j` (counting from the most significant) of `byte` is set.
pub open spec fn byte_bit(byte: u8, j: u8) -> bool {
    (byte >> ((7 - j) as u8)) & 1u8 == 1u8
}

/// The set that `BitSet::from_bytes` builds: value `i` is present when bit
/// `i % 8` of byte `i / 8` is set, most significant bit first.
pub open spec fn bytes_set(b: Seq<u8>) -> Set<usize> {
    Set::new(|i: usize| i < 8 * b.len() && byte_bit(b[i as int / 8], (i % 8) as u8))
}

/// Relies on `BitSet::with_capacity`: a new set holds nothing, whatever
/// room it reserves.
#[verifier::external_body]
pub(crate) fn set_with_capacity(nbits: usize) -> (r: bit_set::BitSet)
    ensures
        bits_of(r) == Set::<usize>::empty(),
{
    bit_set::BitSet::with_capacity(nbits)
}

/// Relies on `BitSet::from_bytes`: one bit per bit of the input, most
/// significant first; it panics when the bit count overflows `usize`.
#[verifier::external_body]
pub(crate) fn set_from_bytes(b: &[u8]) -> (r: bit_set::BitSet)
    requires
        8 * b@.len() <= usize::MAX,
    ensures
        bits_of(r) == bytes_set(b@),
{
    bit_set::BitSet::from_bytes(b)
}

/// Relies on `BitSet::clone`: the copy holds the same values.
#[verifier::external_body]
pub(crate) fn set_clone(s: &bit_set::BitSet) -> (r: bit_set::BitSet)
    ensures
        bits_of(r) == bits_of(*s),
{
    s.clone()
}

/// Relies on `BitSet::contains`: whether the value is in the set.
#[verifier::external_body]
pub(crate) fn set_contains(s: &bit_set::BitSet, v: usize) -> (r: bool)
    ensures
        r == bits_of(*s).contains(v),
{
    s.contains(v)
}

/// Relies on `BitSet::insert`: adds the value and tells whether it was absent.
#[verifier::external_body]
pub(crate) fn set_insert(s: &mut bit_set::BitSet, v: usize) -> (r: bool)
    ensures
        r == !bits_of(*old(s)).contains(v),
        bits_of(*final(s)) == bits_of(*old(s)).insert(v),
{
    s.insert(v)
}

/// Relies on `BitSet::union_with`: the set becomes the union of both.
#[verifier::external_body]
pub(crate) fn set_union_with(s: &mut bit_set::BitSet, o: &bit_set::BitSet)
    ensures
        bits_of(*final(s)) == bits_of(*old(s)).union(bits_of(*o)),
{
    s.union_with(o)
}

/// Relies on `BitSet::difference_with`: removes every value of the other set.
#[verifier::external_body]
pub(crate) fn set_difference_with(s: &mut bit_set::BitSet, o: &bit_set::BitSet)
    ensures
        bits_of(*final(s)) == bits_of(*old(s)).difference(bits_of(*o)),
{
    s.difference_with(o)
}

/// Relies on `BitSet::iter`: it yields each value once, in ascending order.
#[verifier::external_body]
pub(crate) fn set_to_vec(s: &bit_set::BitSet) -> (r: Vec<usize>)
    ensures
        forall|i: int, j: int| 0 <= i < j < r@.len() ==> r@[i] < r@[j],
        forall|v: usize| r@.contains(v) <==> bits_of(*s).contains(v),
{
    s.iter().collect()
}

} // verus!
