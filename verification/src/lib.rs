//! A minimal BitTorrent client core: the Bencode codec, the metainfo model with
//! its info-hash, the tracker exchange and the peer wire protocol. Everything
//! here is free of I/O; sockets, files and HTTP live with the caller, which
//! hands bytes in and takes bytes or decisions out.

pub mod bencode;
pub mod decimal;
pub mod digest;
pub mod endian;
pub mod peer;
pub mod text;
pub mod torrent;
pub mod torrent_client;
pub mod tracker;
