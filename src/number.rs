use vstd::prelude::*;

verus! {

#[verifier::external_type_specification]
#[verifier::external_body]
pub struct ExBigInt(num_bigint_dig::BigInt);

/// Relies on the `PartialEq` of `num_bigint_dig::BigInt` (`cmp(..) == Equal`):
/// a value compares equal to itself. Equal numbers may be stored differently,
/// so nothing is claimed when the values are not identical.
#[verifier::external_body]
pub(crate) fn number_eq(a: &num_bigint_dig::BigInt, b: &num_bigint_dig::BigInt) -> (r: bool)
    ensures
        *a == *b ==> r,
{
    a == b
}

} // verus!
