use vstd::prelude::*;
use crate::weight::Weight;

verus! {

/// The source elements that contribute to one destination element: `size`
/// consecutive ones from `start`.
#[derive(Clone, Copy, Debug, PartialEq, Eq, Structural)]
pub struct Bound {
    pub start: u32,
    pub size: u32,
}

/// A flat table of weights with `window_size` slots for each bound, in the
/// order of `bounds`; only the first `size` slots of each block are used.
pub struct Coefficients {
    pub values: Vec<Weight>,
    pub window_size: usize,
    pub bounds: Vec<Bound>,
}

/// The table layout holds: each bound has its block of `window_size` values and
/// fits in it.
pub open spec fn layout_ok(values_len: int, window_size: int, bounds: Seq<Bound>) -> bool {
    &&& window_size * bounds.len() <= values_len
    &&& forall|i: int| 0 <= i < bounds.len() ==> #[trigger] bounds[i].size <= window_size
}

/// Every weight of the sequence is well formed.
pub open spec fn all_wf(ws: Seq<Weight>) -> bool {
    forall|i: int| 0 <= i < ws.len() ==> #[trigger] ws[i].wf()
}

impl Coefficients {
    /// The weights are well formed and the table layout holds.
    pub open spec fn wf(&self) -> bool {
        &&& all_wf(self.values@)
        &&& layout_ok(self.values@.len() as int, self.window_size as int, self.bounds@)
    }
}

} // verus!
