//! Alerts: typed events and the bounded queue that carries them.

pub mod category;
pub mod queue;

pub use category::{Alert, AlertCategory, AlertErrorCode};
pub use queue::AlertQueue;
