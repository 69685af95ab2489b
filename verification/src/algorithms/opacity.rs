//! Opacity sources: what the grid algorithms ask about which cells block
//! sight.  A caller's predicate is one source; an opacity map is another.

use vstd::prelude::*;

use crate::geometry::IVec2;

verus! {

/// Something that says, cell by cell, whether the cell blocks sight.
pub trait OpacitySource {
    /// The source can be asked about any cell.
    spec fn ready(&self) -> bool;

    /// The answer for each cell.
    spec fn opacity(&self) -> spec_fn(IVec2) -> bool;

    fn query_cell(&self, cell: IVec2) -> (r: bool)
        requires
            self.ready(),
        ensures
            r == self.opacity()(cell),
    ;
}

/// The opacity the predicate `f` reports for each cell.
pub open spec fn opacity_of<F: Fn(IVec2) -> bool>(f: F) -> spec_fn(IVec2) -> bool {
    |c: IVec2| choose|b: bool| call_ensures(f, (c,), b)
}

/// `f` may be asked about any cell and always gives the same answer for the
/// same cell.
pub open spec fn is_opacity_query<F: Fn(IVec2) -> bool>(f: F) -> bool {
    &&& forall|c: IVec2| call_requires(f, (c,))
    &&& forall|c: IVec2, a: bool, b: bool|
        #![trigger call_ensures(f, (c,), a), call_ensures(f, (c,), b)]
        call_ensures(f, (c,), a) && call_ensures(f, (c,), b) ==> a == b
}

/// A caller's predicate as an opacity source.
pub struct OpacityFn<F: Fn(IVec2) -> bool>(pub F);

impl<F: Fn(IVec2) -> bool> OpacitySource for OpacityFn<F> {
    open spec fn ready(&self) -> bool {
        is_opacity_query(self.0)
    }

    open spec fn opacity(&self) -> spec_fn(IVec2) -> bool {
        opacity_of(self.0)
    }

    fn query_cell(&self, cell: IVec2) -> (r: bool) {
        let r = (self.0)(cell);
        proof {
            let b = choose|b: bool| call_ensures(self.0, (cell,), b);
            assert(call_ensures(self.0, (cell,), b));
        }
        r
    }
}

} // verus!
