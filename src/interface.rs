//! What a context needs from the byte transport below it.
use vstd::prelude::*;

verus! {

/// The byte sink that a context transmits through. Every byte is tagged
/// with the context's port, and each frame is bracketed by `tx_start` and
/// `tx_finished`. `tx_space` is advisory: a context asks it once before an
/// application, transport or ACK frame and sends nothing of a frame that
/// would not fit; a RESET is sent without asking.
pub trait Interface {
    fn tx_space(&self) -> u16;

    fn tx_start(&self);

    fn tx_finished(&self);

    fn tx_byte(&self, port: u8, byte: u8);
}

} // verus!
