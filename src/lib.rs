//! The core of a BitTorrent leecher: the bencode codec, the metainfo model, the tracker
//! and peer wire codecs, the peer session state machine, the piece scheduler, the swarm
//! bookkeeping and the mapping of payload offsets onto files, each stated and proved.
use vstd::prelude::*;

pub mod bencode;
pub mod digest;
pub mod message;
pub mod rng;
pub mod scheduler;
pub mod session;
pub mod storage;
pub mod swarm;
pub mod torrent;
pub mod tracker;
pub mod wire;

verus! {

} // verus!
