//! Decoding and validation of BitTorrent metainfo files: bencode bytes to a
//! value tree, the tree to a typed torrent, the torrent through its semantic
//! checks, and the outcome to a boundary response.

pub mod bencode;
pub mod metainfo;
pub mod validate;
pub mod pipeline;
