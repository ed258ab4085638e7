use vstd::prelude::*;

use crate::identity::{SigView, Signature};
use crate::layout::Layout;

verus! {

/// The mathematical value of a session state.
pub ghost struct StateView {
    pub layout: Layout,
    pub order: Seq<SigView>,
}

/// The only value that outlives an invocation: the layout in force and
/// the remembered window order, as signatures.  Missing or unreadable
/// persisted data is replaced by `SessionState::default()`.
#[derive(Debug)]
pub struct SessionState {
    pub current_layout: Layout,
    pub window_order: Vec<Signature>,
}

impl View for SessionState {
    type V = StateView;

    open spec fn view(&self) -> StateView {
        StateView {
            layout: self.current_layout,
            order: self.window_order@.map_values(|s: Signature| s@),
        }
    }
}

impl Default for SessionState {
    /// The state in force when nothing was persisted: vertical layout,
    /// no remembered windows.
    fn default() -> (r: SessionState)
        ensures
            r@.layout == Layout::Vertical,
            r@.order == Seq::<SigView>::empty(),
    {
        let r = SessionState { current_layout: Layout::Vertical, window_order: Vec::new() };
        proof {
            assert(r@.order =~= Seq::<SigView>::empty());
        }
        r
    }
}

} // verus!
