use vstd::prelude::*;

verus! {

/// The input context that selects which binding tree is active.
#[derive(Debug, Hash, Clone, Copy, PartialEq, Eq, Structural)]
pub enum KeyMode {
    TorrentList,
    AddTorrent,
}

impl Default for KeyMode {
    fn default() -> (r: Self)
        ensures
            r == KeyMode::TorrentList,
    {
        KeyMode::TorrentList
    }
}

} // verus!
