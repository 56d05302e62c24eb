//! A verified core for a BitTorrent tracker: announce/scrape query parsing,
//! swarm and torrent bookkeeping, peer sampling, and the exact bencoded wire
//! responses.
pub mod digits;
pub mod query;
pub mod peer;
pub mod iptext;
pub mod trusted;
pub mod bittorrent;
pub mod store;
pub mod torrent;
pub mod stats;
pub mod bencode;
pub mod engine;
pub mod laws;
pub mod canonical;
