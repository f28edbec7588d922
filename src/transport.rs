//! The transport layer's FIFO of outgoing frames, its sequence numbers,
//! timers and counters.
use vstd::prelude::*;
use std::collections::VecDeque;
use crate::clock::now_ms;

verus! {

pub const TRANSPORT_MAX_PAYLOAD_LEN: u8 = 255;
pub const TRANSPORT_FIFO_MAX_FRAMES: u8 = 31;
pub const TRANSPORT_MAX_WINDOW_SIZE: u8 = 16;

pub const TRANSPORT_IDLE_TIMEOUT_MS: u128 = 500;
pub const TRANSPORT_ACK_RETRANSMIT_TIMEOUT_MS: u128 = 250;
pub const TRANSPORT_FRAME_RETRANSMIT_TIMEOUT_MS: u128 = 1000;

pub const ACK: u8 = 0xff;
pub const RESET: u8 = 0xfe;

#[derive(Copy, Clone)]
pub struct TransportFrame {
    /// When frame was last sent (used for re-send timeouts)
    pub last_sent_time_ms: u128,
    pub payload: [u8; 255],
    /// How big the payload is
    pub payload_len: u8,
    /// ID of frame
    pub min_id: u8,
    /// Sequence number of frame
    pub seq: u8,
}

/// `f` is a frame freshly made for `min_id` and `data`: unsent, sequence
/// number 0, payload padded with zeros.
pub open spec fn is_new_frame(f: TransportFrame, min_id: u8, data: Seq<u8>) -> bool {
    &&& f.last_sent_time_ms == 0
    &&& f.payload_len == data.len()
    &&& f.min_id == min_id
    &&& f.seq == 0
    &&& f.payload@ == data + Seq::new((255 - data.len()) as nat, |i: int| 0u8)
}

impl TransportFrame {
    /// The payload bytes in use.
    pub open spec fn data(&self) -> Seq<u8> {
        self.payload@.take(self.payload_len as int)
    }

    pub fn new(min_id: u8, payload: &[u8], len: u8) -> (r: Self)
        requires
            len <= payload@.len(),
        ensures
            is_new_frame(r, min_id, payload@.take(len as int)),
            r.data() == payload@.take(len as int),
    {
        let mut frame = TransportFrame {
            last_sent_time_ms: 0,
            payload: [0u8; 255],
            payload_len: len,
            min_id: min_id,
            seq: 0,
        };
        let mut i: usize = 0;
        while i < len as usize
            invariant
                i <= len,
                len <= payload@.len(),
                frame.last_sent_time_ms == 0,
                frame.payload_len == len,
                frame.min_id == min_id,
                frame.seq == 0,
                frame.payload@.len() == 255,
                forall|j: int| 0 <= j < i ==> frame.payload@[j] == payload@[j],
                forall|j: int| i <= j < 255 ==> frame.payload@[j] == 0u8,
            decreases len - i,
        {
            frame.payload[i] = payload[i];
            i = i + 1;
        }
        assert(frame.payload@ =~= payload@.take(len as int) + Seq::new((255 - len) as nat, |i: int| 0u8));
        assert(frame.data() =~= payload@.take(len as int));
        frame
    }
}

/// The transport state as plain values.
pub struct TransportView {
    pub frames: Seq<TransportFrame>,
    pub last_sent_ack_time_ms: u128,
    pub last_received_anything_ms: u128,
    pub last_received_frame_ms: u128,
    pub spurious_acks: u32,
    pub sequence_mismatch_drop: u32,
    pub resets_received: u32,
    pub n_frames: u8,
    pub n_frames_max: u8,
    pub sn_min: u8,
    pub sn_max: u8,
    pub rn: u8,
}

impl TransportView {
    /// Frames sent and not yet acknowledged: `sn_max - sn_min` modulo 256.
    pub open spec fn window_size(&self) -> u8 {
        self.sn_max.wrapping_sub(self.sn_min)
    }

    /// At most 31 frames, counted by `n_frames`; the window is at most 16
    /// wide and holds only frames that are in the FIFO.
    pub open spec fn wf(&self) -> bool {
        &&& self.frames.len() <= TRANSPORT_FIFO_MAX_FRAMES
        &&& self.n_frames == self.frames.len()
        &&& self.window_size() <= TRANSPORT_MAX_WINDOW_SIZE
        &&& self.window_size() <= self.frames.len()
    }

    /// The state of a transport just made: nothing queued, nothing counted,
    /// the idle and ACK timers started together.
    pub open spec fn is_new(&self) -> bool {
        &&& self.frames.len() == 0
        &&& self.last_sent_ack_time_ms == self.last_received_anything_ms
        &&& self.last_received_frame_ms == 0
        &&& self.spurious_acks == 0
        &&& self.sequence_mismatch_drop == 0
        &&& self.resets_received == 0
        &&& self.n_frames == 0
        &&& self.n_frames_max == 0
        &&& self.sn_min == 0
        &&& self.sn_max == 0
        &&& self.rn == 0
    }

    /// The state after a reset at time `now`: FIFO empty, sequence numbers
    /// and timers restarted, counters kept.
    pub open spec fn reset_at(self, now: u128) -> TransportView {
        TransportView {
            frames: Seq::empty(),
            n_frames: 0,
            sn_max: 0,
            sn_min: 0,
            rn: 0,
            last_received_anything_ms: now,
            last_sent_ack_time_ms: now,
            last_received_frame_ms: 0,
            ..self
        }
    }
}

pub struct Transport {
    pub frames: VecDeque<TransportFrame>,
    pub last_sent_ack_time_ms: u128,
    pub last_received_anything_ms: u128,
    pub last_received_frame_ms: u128,
    pub spurious_acks: u32,
    pub sequence_mismatch_drop: u32,
    pub resets_received: u32,
    /// Number of frames in the FIFO
    pub n_frames: u8,
    /// Larger number of frames in the FIFO
    pub n_frames_max: u8,
    /// Sequence numbers for transport protocol
    pub sn_min: u8,
    pub sn_max: u8,
    pub rn: u8,
}

impl View for Transport {
    type V = TransportView;

    open spec fn view(&self) -> TransportView {
        TransportView {
            frames: self.frames@,
            last_sent_ack_time_ms: self.last_sent_ack_time_ms,
            last_received_anything_ms: self.last_received_anything_ms,
            last_received_frame_ms: self.last_received_frame_ms,
            spurious_acks: self.spurious_acks,
            sequence_mismatch_drop: self.sequence_mismatch_drop,
            resets_received: self.resets_received,
            n_frames: self.n_frames,
            n_frames_max: self.n_frames_max,
            sn_min: self.sn_min,
            sn_max: self.sn_max,
            rn: self.rn,
        }
    }
}

impl Transport {
    /// A transport with an empty FIFO, whose idle and ACK timers start now.
    pub fn new() -> (r: Self)
        ensures
            r@.is_new(),
            r@.wf(),
    {
        let now = now_ms();
        Transport {
            frames: VecDeque::with_capacity(TRANSPORT_FIFO_MAX_FRAMES as usize),
            last_sent_ack_time_ms: now,
            last_received_anything_ms: now,
            last_received_frame_ms: 0,
            spurious_acks: 0,
            sequence_mismatch_drop: 0,
            resets_received: 0,
            n_frames: 0,
            n_frames_max: 0,
            sn_min: 0,
            sn_max: 0,
            rn: 0,
        }
    }

    pub(crate) fn reset_at(&mut self, now: u128)
        ensures
            final(self)@ == old(self)@.reset_at(now),
    {
        // Clear down the transmission FIFO queue
        self.frames.clear();
        self.n_frames = 0;
        self.sn_max = 0;
        self.sn_min = 0;
        self.rn = 0;

        // Reset the timers
        self.last_received_anything_ms = now;
        self.last_sent_ack_time_ms = now;
        self.last_received_frame_ms = 0;
    }

    /// Empties the FIFO and restarts the sequence numbers and timers at
    /// the current time; the counters are kept.
    pub fn reset_transport_fifo(&mut self)
        ensures
            exists|now: u128| final(self)@ == #[trigger] old(self)@.reset_at(now),
    {
        let now = now_ms();
        self.reset_at(now);
    }

    /// Drops the oldest frame of the FIFO.
    pub fn pop(&mut self)
        requires
            old(self)@.n_frames == old(self)@.frames.len(),
            old(self)@.frames.len() > 0,
        ensures
            final(self)@ == (TransportView {
                frames: old(self)@.frames.skip(1),
                n_frames: (old(self)@.n_frames - 1) as u8,
                ..old(self)@
            }),
    {
        self.frames.pop_front();
        self.n_frames = self.n_frames - 1;
        assert(self@.frames =~= old(self)@.frames.skip(1));
    }

    pub fn get_drop_cnt(&self) -> (r: u32)
        ensures
            r == self.sequence_mismatch_drop,
    {
        self.sequence_mismatch_drop
    }

    pub fn get_reset_cnt(&self) -> (r: u32)
        ensures
            r == self.resets_received,
    {
        self.resets_received
    }

    pub fn get_spurious_ack_cnt(&self) -> (r: u32)
        ensures
            r == self.spurious_acks,
    {
        self.spurious_acks
    }
}

} // verus!
