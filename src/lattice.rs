use vstd::prelude::*;

verus! {

/// What is known of the instantiation that a sub-component array is wired to:
/// nothing yet (`B`), one instantiation (`K`), or several (`T`).
#[derive(Clone, Copy, PartialEq, Eq, Structural, Debug)]
pub enum POS {
    T,
    K(usize),
    B,
}

/// The join of the three-point lattice `B < K(id) < T`.
pub open spec fn join(l: POS, r: POS) -> POS {
    match (l, r) {
        (POS::B, p) => p,
        (p, POS::B) => p,
        (POS::K(a), POS::K(b)) => if a == b { POS::K(a) } else { POS::T },
        _ => POS::T,
    }
}

impl POS {
    pub fn least_upper_bound(l: POS, r: POS) -> (res: POS)
        ensures
            res == join(l, r),
    {
        match (l, r) {
            (POS::K(v0), POS::K(v1)) if v0 == v1 => POS::K(v0),
            (POS::B, p) | (p, POS::B) => p,
            _ => POS::T,
        }
    }

    pub fn is_top(&self) -> (r: bool)
        ensures
            r == (*self == POS::T),
    {
        matches!(self, POS::T)
    }
}

/// The join is commutative.
pub proof fn lemma_join_commutative(a: POS, b: POS)
    ensures
        join(a, b) == join(b, a),
{
}

/// The join is associative.
pub proof fn lemma_join_associative(a: POS, b: POS, c: POS)
    ensures
        join(join(a, b), c) == join(a, join(b, c)),
{
}

/// `B` is the unit of the join, `T` absorbs everything, and the join is idempotent.
pub proof fn lemma_join_unit_absorbing_idempotent(a: POS)
    ensures
        join(POS::B, a) == a,
        join(a, POS::B) == a,
        join(POS::T, a) == POS::T,
        join(a, POS::T) == POS::T,
        join(a, a) == a,
{
}

} // verus!
