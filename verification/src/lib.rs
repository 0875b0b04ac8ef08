//! The engine of a small BitTorrent client: torrent descriptions, piece bookkeeping, the peer
//! wire protocol, tracker announces and the registry of running torrents.
//!
//! Nothing here reads a socket, a file or a clock. Each protocol is a state machine that says
//! what to do next and is told what came of it.
pub mod bytes;
pub mod download;
pub mod manager;
pub mod metainfo;
pub mod outside;
pub mod paths;
pub mod peer;
pub mod pieces;
pub mod start;
pub mod state;
pub mod text;
pub mod tracker;
pub mod wire;
