//! The fork-join primitive that the large-operand paths use.
use vstd::prelude::*;

verus! {

/// `rayon::join` runs both closures, possibly on different worker threads, and
/// returns their results in order.  Claimed of it: each closure is called once,
/// so that each result is one that the closure can return.
pub assume_specification<A, B, RA, RB>[ rayon::join::<A, B, RA, RB> ](
    oper_a: A,
    oper_b: B,
) -> (r: (RA, RB)) where A: FnOnce() -> RA + Send, B: FnOnce() -> RB + Send, RA: Send, RB: Send
    requires
        oper_a.requires(()),
        oper_b.requires(()),
    ensures
        oper_a.ensures((), r.0),
        oper_b.ensures((), r.1),
;

} // verus!
