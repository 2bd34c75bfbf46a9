//! A minimal BitTorrent v1 leecher library: bencode codec, metainfo model,
//! tracker request and response handling, handshake and peer-message codecs,
//! and the piece download state machine.

pub mod bencode;
pub mod cli;
pub mod digits;
pub mod download;
pub mod handshake;
pub mod json;
pub mod message;
pub mod text;
pub mod torrent;
pub mod tracker;
