//! One UDP socket for several users.

pub mod demux;

pub use demux::{DemuxError, UdpDemux, DEFAULT_TRACKER_TXN_TTL};
