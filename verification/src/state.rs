//! The shape of per-entity storage, as far as enumeration consults it.
//!
//! Enumeration does not read values; it only needs to know how many
//! array or collection elements are currently populated under each node.

use vstd::prelude::*;

verus! {

broadcast use vstd::std_specs::vec::axiom_vec_index_decreases;

/// One node of the per-entity population tree: the children are indexed by
/// the next path slot.
#[derive(Debug)]
pub struct FieldState {
    pub children: Vec<FieldState>,
}

/// Every node's child count fits in a path slot.
pub open spec fn state_wf(st: FieldState) -> bool
    decreases st,
{
    st.children@.len() <= u16::MAX && forall|i: int|
        0 <= i < st.children@.len() ==> state_wf(#[trigger] st.children@[i])
}

/// Every node's child count stays below `bound`.
pub open spec fn state_bounded(st: FieldState, bound: int) -> bool
    decreases st,
{
    st.children@.len() <= bound && forall|i: int|
        0 <= i < st.children@.len() ==> state_bounded(#[trigger] st.children@[i], bound)
}

impl FieldState {
    /// A node with nothing populated under it.
    pub fn empty() -> (r: FieldState)
        ensures
            r.children@.len() == 0,
            state_wf(r),
            forall|b: int| 0 <= b ==> state_bounded(r, b),
    {
        FieldState { children: Vec::new() }
    }
}

} // verus!
