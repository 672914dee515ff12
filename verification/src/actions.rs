use vstd::prelude::*;

verus! {

/// What a completed chord sequence asks the application to do.
#[derive(Debug, Clone, Copy, PartialEq, Eq, Structural)]
pub enum Action {
    Quit,
    AddTorrent,
    /// A binding that names no action.
    NoOp,
}

impl Default for Action {
    fn default() -> (r: Self)
        ensures
            r == Action::NoOp,
    {
        Action::NoOp
    }
}

} // verus!
