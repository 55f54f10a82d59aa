//! A BitTorrent engine core: bencode, piece selection, peer session rules,
//! storage layout and bookkeeping, stated in contracts and proved.

pub mod alerts;
pub mod announce;
pub mod arith;
pub mod bencode;
pub mod blob;
pub mod decimal;
pub mod engine;
pub mod entropy;
pub mod ids;
pub mod idset;
pub mod keyed;
pub mod lex;
pub mod lines;
pub mod lsd;
pub mod metrics_exporter;
pub mod net;
pub mod order;
pub mod peer_filter;
pub mod peer_id;
pub mod picker;
pub mod session;
pub mod storage;
pub mod text;

pub use ids::{PeerSlot, TorrentId};
