//! Fork-join evaluation of two independent computations.
use vstd::prelude::*;

verus! {

/// Relies on `rayon::join`: it runs both closures, possibly in parallel, and
/// returns their results as a pair, the first closure's result first.
pub assume_specification<A, B, RA, RB>[ rayon::join::<A, B, RA, RB> ](oper_a: A, oper_b: B) -> (r: (RA, RB))
    where
        A: FnOnce() -> RA + Send,
        B: FnOnce() -> RB + Send,
        RA: Send,
        RB: Send,
    requires
        oper_a.requires(()),
        oper_b.requires(()),
    ensures
        oper_a.ensures((), r.0),
        oper_b.ensures((), r.1),
;

} // verus!
