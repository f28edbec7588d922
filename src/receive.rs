//! The receiver as a state machine over plain values: one step per byte.
use vstd::prelude::*;
use crate::context::RxState;
use crate::crc::step_reversed_spec;
use crate::frame::{EOF_BYTE, HEADER_BYTE, STUFF_BYTE};

verus! {

/// The receiver's state.
pub struct RxView {
    /// Header bytes seen in a row, up to 2.
    pub header_seen: u8,
    pub state: RxState,
    pub id_control: u8,
    pub seq: u8,
    /// Payload bytes still expected.
    pub length: u8,
    /// The length byte of the frame.
    pub control: u8,
    /// Payload bytes received so far.
    pub payload_bytes: u8,
    /// The payload buffer; bytes past `payload_bytes` are left from earlier frames.
    pub buf: Seq<u8>,
    /// The checksum register over the frame's fields so far.
    pub crc: u32,
    /// The checksum received over the wire.
    pub frame_checksum: u32,
}

impl RxView {
    pub open spec fn wf(&self) -> bool {
        &&& self.header_seen <= 2
        &&& self.buf.len() == 255
        &&& (self.state == RxState::ReceivingSeq || self.state == RxState::ReceivingLength)
            ==> self.payload_bytes == 0
        &&& self.state == RxState::ReceivingPayload ==> {
            &&& 1 <= self.length
            &&& self.payload_bytes + self.length == self.control
        }
        &&& self.state == RxState::ReceivingEof ==> !self.crc == self.frame_checksum
    }

    /// The payload of the frame being received.
    pub open spec fn payload(&self) -> Seq<u8> {
        self.buf.take(self.control as int)
    }
}

/// The receiver of a new context.
pub open spec fn rx_initial() -> RxView {
    RxView {
        header_seen: 0,
        state: RxState::SearchingForSof,
        id_control: 0,
        seq: 0,
        length: 0,
        control: 0,
        payload_bytes: 0,
        buf: Seq::new(255, |i: int| 0u8),
        crc: 0xffff_ffff,
        frame_checksum: 0,
    }
}

/// The state switch, once the header-byte count has been updated.
pub open spec fn rx_dispatch(v: RxView, b: u8, t_min: bool) -> RxView {
    match v.state {
        RxState::SearchingForSof => v,
        RxState::ReceivingIdControl => {
            if b & 0x80 == 0x80 {
                RxView {
                    id_control: b,
                    payload_bytes: 0,
                    crc: step_reversed_spec(0xffff_ffff, b),
                    state: if t_min {
                        RxState::ReceivingSeq
                    } else {
                        RxState::SearchingForSof
                    },
                    ..v
                }
            } else {
                RxView {
                    id_control: b,
                    payload_bytes: 0,
                    crc: step_reversed_spec(0xffff_ffff, b),
                    seq: 0,
                    state: RxState::ReceivingLength,
                    ..v
                }
            }
        },
        RxState::ReceivingSeq => RxView {
            seq: b,
            crc: step_reversed_spec(v.crc, b),
            state: RxState::ReceivingLength,
            ..v
        },
        RxState::ReceivingLength => RxView {
            length: b,
            control: b,
            crc: step_reversed_spec(v.crc, b),
            state: if b > 0 {
                RxState::ReceivingPayload
            } else {
                RxState::ReceivingChecksum3
            },
            ..v
        },
        RxState::ReceivingPayload => RxView {
            buf: v.buf.update(v.payload_bytes as int, b),
            payload_bytes: (v.payload_bytes + 1) as u8,
            crc: step_reversed_spec(v.crc, b),
            length: (v.length - 1) as u8,
            state: if v.length == 1 {
                RxState::ReceivingChecksum3
            } else {
                RxState::ReceivingPayload
            },
            ..v
        },
        RxState::ReceivingChecksum3 => RxView {
            frame_checksum: (b as u32) << 24u32,
            state: RxState::ReceivingChecksum2,
            ..v
        },
        RxState::ReceivingChecksum2 => RxView {
            frame_checksum: v.frame_checksum | ((b as u32) << 16u32),
            state: RxState::ReceivingChecksum1,
            ..v
        },
        RxState::ReceivingChecksum1 => RxView {
            frame_checksum: v.frame_checksum | ((b as u32) << 8u32),
            state: RxState::ReceivingChecksum0,
            ..v
        },
        RxState::ReceivingChecksum0 => {
            let c = v.frame_checksum | (b as u32);
            RxView {
                frame_checksum: c,
                state: if !v.crc != c {
                    RxState::SearchingForSof
                } else {
                    RxState::ReceivingEof
                },
                ..v
            }
        },
        RxState::ReceivingEof => RxView { state: RxState::SearchingForSof, ..v },
    }
}

/// One received byte. Two header bytes in a row followed by a third start a
/// frame in any state; followed by a stuff byte, the stuff byte is dropped;
/// followed by anything else, the frame in progress is abandoned.
pub open spec fn rx_step(v: RxView, b: u8, t_min: bool) -> RxView {
    if v.header_seen == 2 {
        if b == HEADER_BYTE {
            RxView { header_seen: 0, state: RxState::ReceivingIdControl, ..v }
        } else if b == STUFF_BYTE {
            RxView { header_seen: 0, ..v }
        } else {
            RxView { header_seen: 0, state: RxState::SearchingForSof, ..v }
        }
    } else {
        rx_dispatch(
            RxView {
                header_seen: if b == HEADER_BYTE {
                    (v.header_seen + 1) as u8
                } else {
                    0
                },
                ..v
            },
            b,
            t_min,
        )
    }
}

/// Whether byte `b` completes a frame: the end-of-frame byte, after a
/// frame whose checksum matched.
pub open spec fn rx_delivers(v: RxView, b: u8) -> bool {
    v.header_seen != 2 && v.state == RxState::ReceivingEof && b == EOF_BYTE
}

/// The receiver's state machine keeps its invariant.
pub proof fn lemma_rx_step_wf(v: RxView, b: u8, t_min: bool)
    requires
        v.wf(),
    ensures
        rx_step(v, b, t_min).wf(),
{
}

/// A frame is only ever delivered after the checksum computed over its
/// fields has matched the checksum it carried.
pub proof fn lemma_delivery_needs_checksum(v: RxView, b: u8)
    requires
        v.wf(),
        rx_delivers(v, b),
    ensures
        !v.crc == v.frame_checksum,
{
}

/// The bytes `s` through the state switch alone, one after another.
pub open spec fn dispatch_all(v: RxView, s: Seq<u8>, t_min: bool) -> RxView
    decreases s.len(),
{
    if s.len() == 0 {
        v
    } else {
        rx_dispatch(dispatch_all(v, s.drop_last(), t_min), s.last(), t_min)
    }
}

} // verus!
