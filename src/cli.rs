//! The commands the client understands, as plain data; argument parsing
//! builds these.

use vstd::prelude::*;

verus! {

/// One invocation of the client.
pub struct Cli {
    pub command: Commands,
}

/// What to do.
pub enum Commands {
    /// Print a bencoded value as JSON.
    Decode { encoded_value: String },
    /// Print a metainfo file's tracker, length, info hash and piece hashes.
    Info { path: String },
    /// Print the peers the tracker returns.
    Peers { path: String },
    /// Handshake with one peer, given as address and port.
    Handshake { path: String, ip_and_port: Vec<String> },
    /// Download one piece to a file.
    DownloadPiece { output: String, path: String, index: usize },
    /// Download the whole file.
    Download { output: String, path: String },
}

} // verus!
