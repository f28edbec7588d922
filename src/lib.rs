//! MIN: a point-to-point, frame-based protocol for exchanging short byte
//! payloads over a byte stream, with an optional reliable transport layer.
#[allow(unused_imports)]
use vstd::prelude::*;

pub mod arq;
pub mod crc;
pub mod crc32;
pub mod delivery;
mod clock;
pub mod context;
pub mod engine;
pub mod frame;
pub mod interface;
pub mod receive;
pub mod transport;

pub use context::{Context, Error, Msg, RxState, check_tx_space};
pub use interface::Interface;

verus! {

} // verus!
