//! Ties one parsed download to its overall progress state.
use vstd::prelude::*;

use crate::torrent::{Torrent, TorrentState};

verus! {

/// One download session: the parsed torrent and where it stands.
pub struct Client {
    pub torrent: Torrent,
    pub state: TorrentState,
}

impl Client {
    /// A fresh session over a parsed descriptor.
    pub fn new(torrent: Torrent) -> (c: Client)
        ensures
            c.state == TorrentState::Init,
            c.torrent == torrent,
    {
        Client { torrent, state: TorrentState::Init }
    }
}

} // verus!
