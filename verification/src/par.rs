//! Running two pieces of work side by side.

use vstd::prelude::*;

verus! {

/// `rayon::join`: runs both closures, possibly on two threads, and returns
/// what they returned. Each closure is called once, on the inputs it allows,
/// so each result is one that its closure can return.
pub assume_specification<A, B, RA, RB>[ rayon::join::<A, B, RA, RB> ](oper_a: A, oper_b: B) -> (r: (RA, RB))
    where
        A: FnOnce() -> RA + Send,
        B: FnOnce() -> RB + Send,
        RA: Send,
        RB: Send,
    requires
        call_requires(oper_a, ()),
        call_requires(oper_b, ()),
    ensures
        call_ensures(oper_a, (), r.0),
        call_ensures(oper_b, (), r.1),
;

} // verus!
