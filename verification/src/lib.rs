//! Core of a leeching BitTorrent client: bencoding, metainfo, the piece and
//! block plan, the peer wire codec, tracker requests and the per-connection
//! session logic, with their contracts.
//!
//! Nothing here touches a socket, a file or a clock. The code that does
//! hands this library bytes and takes back what to send, what to store and
//! when to stop.

pub mod bencoded_parser;
pub mod byte_order;
pub mod digest;
pub mod download;
pub mod helpers;
pub mod layout;
pub mod message;
pub mod peers;
pub mod session;
pub mod torrent_parser;
pub mod tracker;
