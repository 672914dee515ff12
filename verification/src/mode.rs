use vstd::prelude::*;

verus! {

/// The screen the application shows.
#[derive(Debug, Hash, Clone, Copy, PartialEq, Eq, Structural)]
pub enum Mode {
    TorrentList,
}

impl Default for Mode {
    fn default() -> (r: Self)
        ensures
            r == Mode::TorrentList,
    {
        Mode::TorrentList
    }
}

} // verus!
