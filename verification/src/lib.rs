//! Core of a peer-to-peer file download client: the self-describing binary
//! codec, the metadata model with its content hash, directory-service
//! request building and response parsing, the peer wire protocol with its
//! session state machine, and the fragment assembler.
pub mod bencode;
pub mod client;
pub mod peer;
pub mod torrent;
