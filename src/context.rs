//! A MIN context: the transmit framer, the receive state machine and the
//! transport layer over one hardware interface.
use vstd::prelude::*;
use crate::clock::now_ms;
use crate::crc::{Crc32Context, crc_update, crc32, lemma_crc_update_push, step_reversed_spec};
use crate::engine::{
    LinkView, MsgView, ack_wire, byte_step, emitted_after, frame_wire,
    lemma_emitted_after_chain, lemma_emitted_after_one, lemma_emitted_after_same,
    lemma_emitted_after_skip, msg_of, on_ack, on_frame, oldest_upto, elapsed, feed, poll_result,
    resend_first, stamped, tick,
};
use crate::frame::{
    EOF_BYTE, HEADER_BYTE, STUFF_BYTE, countdown_after, encode_frame, frame_body,
    frame_fields, lemma_countdown_range, lemma_stuffed_push, next_countdown, sof, stuff_one,
    stuffed,
};
use crate::interface::Interface;
use crate::receive::{RxView, rx_initial};
use crate::transport::{
    ACK, RESET, Transport, TransportFrame, TransportView, TRANSPORT_ACK_RETRANSMIT_TIMEOUT_MS,
    TRANSPORT_FIFO_MAX_FRAMES, TRANSPORT_FRAME_RETRANSMIT_TIMEOUT_MS, TRANSPORT_IDLE_TIMEOUT_MS,
    TRANSPORT_MAX_WINDOW_SIZE, is_new_frame,
};

verus! {

const CRC_SEED: u32 = 0xffffffff;
const CRC_REVERSED: bool = true;
const CRC_REFIN: bool = false;
const CRC_REFOUT: bool = false;

const MAX_PAYLOAD: u8 = 255;
const MAX_MSG: u8 = 128;

/// Error
#[derive(Debug)]
pub enum Error {
    /// There is no enough space in tx buffer. The value is the size of bytes overflowed.
    NoEnoughTxSpace(u16),
    NoMsg,
}

/// Receiving state machine
#[derive(Clone, Copy, Debug, PartialEq, Eq)]
pub enum RxState {
    SearchingForSof,
    ReceivingIdControl,
    ReceivingSeq,
    ReceivingLength,
    ReceivingPayload,
    ReceivingChecksum3,
    ReceivingChecksum2,
    ReceivingChecksum1,
    ReceivingChecksum0,
    ReceivingEof,
}

pub struct Msg {
    pub min_id: u8,
    pub len: u8,
    pub buf: Vec<u8>,
    pub port: u8,
}

impl View for Msg {
    type V = MsgView;

    open spec fn view(&self) -> MsgView {
        MsgView { min_id: self.min_id, len: self.len, buf: self.buf@, port: self.port }
    }
}

impl Msg {
    fn new(min_id: u8, payload: &[u8], payload_len: u8, port: u8) -> (r: Self)
        requires
            payload_len <= payload@.len(),
        ensures
            r@ == (MsgView {
                min_id: min_id,
                len: payload_len,
                buf: payload@.take(payload_len as int),
                port: port,
            }),
    {
        let mut buf: Vec<u8> = Vec::new();
        let mut i: u8 = 0;
        while i < payload_len
            invariant
                i <= payload_len,
                payload_len <= payload@.len(),
                buf@ == payload@.take(i as int),
            decreases payload_len - i,
        {
            buf.push(payload[i as usize]);
            i = i + 1;
            assert(buf@ =~= payload@.take(i as int));
        }
        Msg { min_id: min_id, len: payload_len, buf: buf, port: port }
    }
}

/// Whether a frame with `len` payload bytes may be sent when the interface
/// reports `space` bytes free: it needs `len + 11`. The error carries
/// `len - space`, wrapping.
pub open spec fn admission(len: u8, space: u16) -> Result<u8, Error> {
    if len as u16 + 11 <= space {
        Ok(len)
    } else {
        Err(Error::NoEnoughTxSpace((len as u16).wrapping_sub(space)))
    }
}

/// Decides whether a frame with `len` payload bytes fits in `space` bytes
/// of transmit buffer.
pub fn check_tx_space(len: u8, space: u16) -> (r: Result<u8, Error>)
    ensures
        r == admission(len, space),
{
    if (len as u16) + 11 <= space {
        Ok(len)
    } else {
        Err(Error::NoEnoughTxSpace((len as u16).wrapping_sub(space)))
    }
}

/// context for MIN.
pub struct Context<'a, T> where T: Interface {
    pub name: String,
    /// Use transport protocol
    pub t_min: bool,
    /// Hardware interface
    pub hw_if: &'a T,
    transport: Transport,
    /// Number of the port associated with the context
    port: u8,
    /// Count out the header bytes
    tx_header_byte_countdown: u8,
    /// Calculated checksum for sending frame
    tx_checksum: Crc32Context,
    /// Countdown of header bytes to reset state
    rx_header_bytes_seen: u8,
    /// State of receiver
    rx_frame_state: RxState,
    /// ID and control bit of frame being received
    rx_frame_id_control: u8,
    /// Length of payload received so far
    rx_frame_payload_bytes: u8,
    /// Calculated checksum for receiving frame
    rx_checksum: Crc32Context,
    /// Sequence number of frame being received
    rx_frame_seq: u8,
    /// Length of frame
    rx_frame_length: u8,
    /// Control byte
    rx_control: u8,
    /// Payload received so far
    rx_frame_payload_buf: [u8; 255],
    /// Checksum received over the wire
    rx_frame_checksum: u32,
    msg_queue: Vec<Msg>,
    /// Every byte handed to the interface so far.
    sent: Ghost<Seq<u8>>,
}

impl<'a, T> Context<'a, T> where T: Interface {
    /// The receiver's state.
    pub closed spec fn rx_view(&self) -> RxView {
        RxView {
            header_seen: self.rx_header_bytes_seen,
            state: self.rx_frame_state,
            id_control: self.rx_frame_id_control,
            seq: self.rx_frame_seq,
            length: self.rx_frame_length,
            control: self.rx_control,
            payload_bytes: self.rx_frame_payload_bytes,
            buf: self.rx_frame_payload_buf@,
            crc: self.rx_checksum.register(),
            frame_checksum: self.rx_frame_checksum,
        }
    }

    /// The state of the context apart from the wire.
    pub closed spec fn link(&self) -> LinkView {
        LinkView {
            rx: self.rx_view(),
            transport: self.transport@,
            msgs: self.msg_queue@.map_values(|m: Msg| m@),
        }
    }

    /// Every byte this context has transmitted, in order.
    pub closed spec fn wire(&self) -> Seq<u8> {
        self.sent@
    }

    /// Whether the transport layer is in use.
    pub closed spec fn transport_enabled(&self) -> bool {
        self.t_min
    }

    /// The port the context tags bytes and messages with.
    pub closed spec fn port_tag(&self) -> u8 {
        self.port
    }

    pub closed spec fn wf(&self) -> bool {
        &&& self.rx_view().wf()
        &&& self.transport@.wf()
        &&& self.rx_checksum.is_reversed()
        &&& !self.rx_checksum.reflects_output()
    }

    fn tx_raw(&mut self, byte: u8)
        ensures
            final(self).wire() == old(self).wire().push(byte),
            final(self).link() == old(self).link(),
            final(self).wf() == old(self).wf(),
            final(self).port == old(self).port,
            final(self).transport_enabled() == old(self).transport_enabled(),
            final(self).tx_checksum == old(self).tx_checksum,
            final(self).tx_header_byte_countdown == old(self).tx_header_byte_countdown,
    {
        self.hw_if.tx_byte(self.port, byte);
        self.sent = Ghost(self.sent@.push(byte));
    }

    fn stuffed_tx_byte(&mut self, byte: u8)
        requires
            old(self).tx_header_byte_countdown == 1 || old(self).tx_header_byte_countdown == 2,
            old(self).tx_checksum.is_reversed(),
        ensures
            final(self).wire() == old(self).wire() + stuff_one(byte, old(self).tx_header_byte_countdown),
            final(self).tx_header_byte_countdown == next_countdown(old(self).tx_header_byte_countdown, byte),
            final(self).tx_checksum.register() == step_reversed_spec(old(self).tx_checksum.register(), byte),
            final(self).tx_checksum.is_reversed(),
            final(self).tx_checksum.reflects_output() == old(self).tx_checksum.reflects_output(),
            final(self).link() == old(self).link(),
            final(self).wf() == old(self).wf(),
            final(self).port == old(self).port,
            final(self).transport_enabled() == old(self).transport_enabled(),
    {
        // Transmit the byte
        self.tx_raw(byte);

        self.tx_checksum.step(byte);

        if byte == HEADER_BYTE {
            self.tx_header_byte_countdown = self.tx_header_byte_countdown - 1;
            if self.tx_header_byte_countdown == 0 {
                self.tx_raw(STUFF_BYTE);
                self.tx_header_byte_countdown = 2;
            }
        } else {
            self.tx_header_byte_countdown = 2;
        }
        assert(self.wire() =~= old(self).wire() + stuff_one(byte, old(self).tx_header_byte_countdown));
    }

    /// Progress of a frame being sent: the wire is `w0`, the start of frame,
    /// then the body bytes `sent` stuffed; the checksum covers `sent`.
    closed spec fn tx_progress(&self, w0: Seq<u8>, sent: Seq<u8>) -> bool {
        &&& self.wire() == w0 + sof() + stuffed(sent)
        &&& self.tx_header_byte_countdown == countdown_after(sent)
        &&& self.tx_checksum.register() == crc_update(CRC_SEED, sent)
        &&& self.tx_checksum.is_reversed()
        &&& !self.tx_checksum.reflects_output()
    }

    fn send_body_byte(&mut self, b: u8, Ghost(w0): Ghost<Seq<u8>>, Ghost(sent): Ghost<Seq<u8>>)
        requires
            old(self).tx_progress(w0, sent),
        ensures
            final(self).tx_progress(w0, sent.push(b)),
            final(self).link() == old(self).link(),
            final(self).wf() == old(self).wf(),
            final(self).port == old(self).port,
            final(self).transport_enabled() == old(self).transport_enabled(),
    {
        proof {
            lemma_stuffed_push(sent, b);
            lemma_countdown_range(sent);
            lemma_crc_update_push(CRC_SEED, sent, b);
        }
        self.stuffed_tx_byte(b);
        assert(self.wire() =~= w0 + sof() + stuffed(sent.push(b)));
    }

    /// Sends a whole frame on the wire.
    fn on_wire_bytes(&mut self, id_control: u8, seq: u8, payload: &[u8], payload_len: u8)
        requires
            payload_len <= payload@.len(),
        ensures
            final(self).wire() == old(self).wire() + encode_frame(
                id_control,
                seq,
                payload@.take(payload_len as int),
            ),
            final(self).link() == old(self).link(),
            final(self).wf() == old(self).wf(),
            final(self).port == old(self).port,
            final(self).transport_enabled() == old(self).transport_enabled(),
    {
        let ghost data = payload@.take(payload_len as int);
        let ghost fields = frame_fields(id_control, seq, data);
        let ghost w0 = self.wire();
        self.tx_header_byte_countdown = 2;
        self.tx_checksum = Crc32Context::new(CRC_SEED, CRC_REVERSED, CRC_REFIN, CRC_REFOUT);

        self.hw_if.tx_start();

        // Header is 3 bytes; because unstuffed will reset receiver immediately
        self.tx_raw(HEADER_BYTE);
        self.tx_raw(HEADER_BYTE);
        self.tx_raw(HEADER_BYTE);
        assert(self.wire() =~= w0 + sof() + stuffed(Seq::empty()));

        let ghost mut sent: Seq<u8> = Seq::empty();
        self.send_body_byte(id_control, Ghost(w0), Ghost(sent));
        proof {
            sent = sent.push(id_control);
        }
        if id_control & 0x80 == 0x80 {
            // Send the sequence number if it is a transport frame
            self.send_body_byte(seq, Ghost(w0), Ghost(sent));
            proof {
                sent = sent.push(seq);
            }
        }
        self.send_body_byte(payload_len, Ghost(w0), Ghost(sent));
        proof {
            sent = sent.push(payload_len);
        }
        assert(sent =~= fields.take(fields.len() - payload_len));
        let mut i: u8 = 0;
        while i < payload_len
            invariant
                i <= payload_len,
                payload_len <= payload@.len(),
                data == payload@.take(payload_len as int),
                fields == frame_fields(id_control, seq, data),
                fields.len() >= payload_len,
                sent == fields.take(fields.len() - payload_len + i),
                self.tx_progress(w0, sent),
                self.link() == old(self).link(),
                self.wf() == old(self).wf(),
                self.port == old(self).port,
                self.t_min == old(self).transport_enabled(),
            decreases payload_len - i,
        {
            let b = payload[i as usize];
            self.send_body_byte(b, Ghost(w0), Ghost(sent));
            proof {
                sent = sent.push(b);
            }
            i = i + 1;
            assert(sent =~= fields.take(fields.len() - payload_len + i));
        }
        assert(sent =~= fields);

        // send crc checksum
        let checksum = self.tx_checksum.finalize();
        assert(checksum == crc32(fields));
        let b3 = (checksum >> 24u32) as u8;
        let b2 = (checksum >> 16u32) as u8;
        let b1 = (checksum >> 8u32) as u8;
        let b0 = checksum as u8;
        self.send_body_byte(b3, Ghost(w0), Ghost(sent));
        proof {
            sent = sent.push(b3);
        }
        self.send_body_byte(b2, Ghost(w0), Ghost(sent));
        proof {
            sent = sent.push(b2);
        }
        self.send_body_byte(b1, Ghost(w0), Ghost(sent));
        proof {
            sent = sent.push(b1);
        }
        self.send_body_byte(b0, Ghost(w0), Ghost(sent));
        proof {
            sent = sent.push(b0);
        }
        assert(sent =~= frame_body(id_control, seq, data));

        // Ensure end-of-frame doesn't contain 0xaa and confuse search for start-of-frame
        self.tx_raw(EOF_BYTE);

        self.hw_if.tx_finished();
        assert(self.wire() =~= w0 + encode_frame(id_control, seq, data));
    }
}

impl<'a, T> Context<'a, T> where T: Interface {
    fn msg_enqueue(&mut self)
        requires
            old(self).wf(),
        ensures
            final(self).link() == (LinkView {
                msgs: old(self).link().msgs.push(msg_of(old(self).rx_view(), old(self).port)),
                ..old(self).link()
            }),
            final(self).wire() == old(self).wire(),
            final(self).wf(),
            final(self).port == old(self).port,
            final(self).transport_enabled() == old(self).transport_enabled(),
    {
        let msg = Msg::new(
            self.rx_frame_id_control & 0x3f,
            self.rx_frame_payload_buf.as_slice(),
            self.rx_control,
            self.port,
        );
        self.msg_queue.push(msg);
        assert(self.msg_queue@.map_values(|m: Msg| m@) =~= old(self).msg_queue@.map_values(
            |m: Msg| m@,
        ).push(msg_of(old(self).rx_view(), old(self).port)));
    }

    /// Sends a transport frame if the interface has room for it.
    fn on_wire_t_frame(&mut self, id: u8, seq: u8, payload: &[u8], len: u8) -> (r: Result<u8, Error>)
        requires
            len <= payload@.len(),
        ensures
            exists|space: u16| r == #[trigger] admission(len, space),
            r is Ok ==> final(self).wire() == old(self).wire() + encode_frame(
                id | 0x80,
                seq,
                payload@.take(len as int),
            ),
            !(r is Ok) ==> final(self).wire() == old(self).wire(),
            final(self).link() == old(self).link(),
            final(self).wf() == old(self).wf(),
            final(self).port == old(self).port,
            final(self).transport_enabled() == old(self).transport_enabled(),
    {
        let avaliable_for_send = self.hw_if.tx_space();
        let r = check_tx_space(len, avaliable_for_send);
        if r.is_ok() {
            self.on_wire_bytes(id | 0x80u8, seq, payload, len);
        }
        r
    }

    /// (Re)sends the frame at `idx` of the FIFO, stamping it with `now`, and
    /// with the next sequence number if `update_seq`.
    fn transport_fifo_frame_send(&mut self, idx: usize, update_seq: bool, now: u128)
        requires
            old(self).wf(),
            idx < old(self).transport@.frames.len(),
        ensures
            ({
                let f0 = stamped(old(self).transport@.frames[idx as int], now);
                let f = if update_seq {
                    TransportFrame { seq: old(self).transport@.sn_max, ..f0 }
                } else {
                    f0
                };
                &&& final(self).link() == (LinkView {
                    transport: TransportView {
                        frames: old(self).transport@.frames.update(idx as int, f),
                        ..old(self).transport@
                    },
                    ..old(self).link()
                })
                &&& emitted_after(old(self).wire(), final(self).wire(), seq![frame_wire(f)])
            }),
            final(self).wf(),
            final(self).port == old(self).port,
            final(self).transport_enabled() == old(self).transport_enabled(),
    {
        let ghost w0 = self.wire();
        let removed = self.transport.frames.remove(idx);
        match removed {
            Some(f) => {
                let mut frame = f;
                frame.last_sent_time_ms = now;
                if update_seq {
                    frame.seq = self.transport.sn_max;
                }
                self.transport.frames.insert(idx, frame);
                assert(self.transport@.frames =~= old(self).transport@.frames.update(
                    idx as int,
                    frame,
                ));
                let ghost w1 = self.wire();
                let r = self.on_wire_t_frame(
                    frame.min_id,
                    frame.seq,
                    frame.payload.as_slice(),
                    frame.payload_len,
                );
                proof {
                    if r is Ok {
                        lemma_emitted_after_one(w0, self.wire(), frame_wire(frame));
                    } else {
                        lemma_emitted_after_skip(w0, self.wire(), frame_wire(frame));
                    }
                }
            },
            None => {},
        }
    }

    fn push(&mut self, frame: TransportFrame)
        requires
            old(self).wf(),
            old(self).transport@.frames.len() < TRANSPORT_FIFO_MAX_FRAMES,
        ensures
            final(self).link().transport == (TransportView {
                frames: old(self).transport@.frames.push(frame),
                n_frames: (old(self).transport@.n_frames + 1) as u8,
                n_frames_max: if old(self).transport@.n_frames_max < old(self).transport@.n_frames + 1 {
                    (old(self).transport@.n_frames + 1) as u8
                } else {
                    old(self).transport@.n_frames_max
                },
                ..old(self).transport@
            }),
            final(self).wf(),
            final(self).link().rx == old(self).link().rx,
            final(self).link().msgs == old(self).link().msgs,
            final(self).wire() == old(self).wire(),
            final(self).port == old(self).port,
            final(self).transport_enabled() == old(self).transport_enabled(),
    {
        self.transport.frames.push_back(frame);
        self.transport.n_frames = self.transport.n_frames.wrapping_add(1);
        if self.transport.n_frames_max < self.transport.n_frames {
            self.transport.n_frames_max = self.transport.n_frames;
        }
    }

    fn send_ack(&mut self, now: u128)
        requires
            old(self).wf(),
        ensures
            final(self).link() == (LinkView {
                transport: TransportView { last_sent_ack_time_ms: now, ..old(self).transport@ },
                ..old(self).link()
            }),
            emitted_after(old(self).wire(), final(self).wire(), seq![ack_wire(old(self).transport@.rn)]),
            final(self).wf(),
            final(self).port == old(self).port,
            final(self).transport_enabled() == old(self).transport_enabled(),
    {
        let ghost w0 = self.wire();
        let rn = self.transport.rn;
        let payload: [u8; 1] = [rn];
        assert(payload@.take(1) =~= seq![rn]);
        assert(ACK | 0x80u8 == ACK) by (bit_vector);
        let r = self.on_wire_t_frame(ACK, rn, payload.as_slice(), 1);
        proof {
            if r is Ok {
                lemma_emitted_after_one(w0, self.wire(), ack_wire(rn));
            } else {
                lemma_emitted_after_skip(w0, self.wire(), ack_wire(rn));
            }
        }
        self.transport.last_sent_ack_time_ms = now;
    }

    fn send_reset(&mut self)
        ensures
            final(self).wire() == old(self).wire() + encode_frame(crate::transport::RESET, 0, Seq::empty()),
            final(self).link() == old(self).link(),
            final(self).wf() == old(self).wf(),
            final(self).port == old(self).port,
            final(self).transport_enabled() == old(self).transport_enabled(),
    {
        let payload: [u8; 1] = [0];
        assert(payload@.take(0) =~= Seq::<u8>::empty());
        self.on_wire_bytes(crate::transport::RESET, 0, payload.as_slice(), 0);
    }
}

impl<'a, T> Context<'a, T> where T: Interface {
    /// An ACK has been received: drop what it acknowledges, resend what it asks for.
    fn ack_received(&mut self, now: u128)
        requires
            old(self).wf(),
        ensures
            ({
                let r = on_ack(
                    old(self).transport@,
                    old(self).rx_view().seq,
                    old(self).rx_view().buf[0],
                    now,
                );
                &&& final(self).link() == (LinkView { transport: r.0, ..old(self).link() })
                &&& emitted_after(old(self).wire(), final(self).wire(), r.1)
            }),
            final(self).wf(),
            final(self).port == old(self).port,
            final(self).transport_enabled() == old(self).transport_enabled(),
    {
        let ghost t0 = self.transport@;
        let seq = self.rx_frame_seq;
        // If we get an ACK then we remove all the acknowledged frames with seq < rn
        // The payload byte specifies the number of NACKed frames: how many we want retransmitted because
        // they have gone missing.
        // But we need to make sure we don't accidentally ACK too many because of a stale ACK from an old session
        let num_acked = seq.wrapping_sub(self.transport.sn_min);
        let num_nacked = self.rx_frame_payload_buf[0].wrapping_sub(seq);
        let num_in_window = self.transport.sn_max.wrapping_sub(self.transport.sn_min);
        if num_acked <= num_in_window {
            self.transport.sn_min = seq;
            assert(t0.frames.skip(0) =~= t0.frames);
            // Now pop off all the frames up to (but not including) rn
            // The ACK contains Rn; all frames before Rn are ACKed and can be removed from the window
            let mut i: u8 = 0;
            while i < num_acked
                invariant
                    i <= num_acked,
                    num_acked <= t0.window_size(),
                    t0.wf(),
                    self.transport@ == (TransportView {
                        frames: t0.frames.skip(i as int),
                        n_frames: (t0.n_frames - i) as u8,
                        sn_min: seq,
                        ..t0
                    }),
                    self.rx_view() == old(self).rx_view(),
                    self.msg_queue@ == old(self).msg_queue@,
                    self.rx_checksum == old(self).rx_checksum,
                    self.wire() == old(self).wire(),
                    self.port == old(self).port,
                    self.t_min == old(self).transport_enabled(),
                decreases num_acked - i,
            {
                self.transport.pop();
                i = i + 1;
                assert(self.transport@.frames =~= t0.frames.skip(i as int));
            }
            let ghost popped = self.transport@;
            assert(self.wf());
            // Now retransmit the number of frames that were requested
            let window = self.transport.sn_max.wrapping_sub(self.transport.sn_min);
            let k: u8 = if num_nacked <= window {
                num_nacked
            } else {
                window
            };
            proof {
                lemma_emitted_after_same(self.wire());
                assert(resend_first(popped, 0, now).0.frames =~= popped.frames);
                assert(resend_first(popped, 0, now).1 =~= Seq::<Seq<u8>>::empty());
            }
            let mut j: u8 = 0;
            while j < k
                invariant
                    j <= k,
                    k <= popped.window_size(),
                    popped.wf(),
                    self.transport@ == resend_first(popped, j as nat, now).0,
                    emitted_after(old(self).wire(), self.wire(), resend_first(popped, j as nat, now).1),
                    self.link().rx == old(self).link().rx,
                    self.link().msgs == old(self).link().msgs,
                    self.wf(),
                    self.port == old(self).port,
                    self.t_min == old(self).transport_enabled(),
                decreases k - j,
            {
                let ghost w = self.wire();
                self.transport_fifo_frame_send(j as usize, false, now);
                proof {
                    lemma_emitted_after_chain(
                        old(self).wire(),
                        w,
                        self.wire(),
                        resend_first(popped, j as nat, now).1,
                        seq![frame_wire(popped.frames[j as int])],
                    );
                }
                j = j + 1;
                assert(self.transport@.frames =~= resend_first(popped, j as nat, now).0.frames);
                assert(resend_first(popped, (j - 1) as nat, now).1 + seq![frame_wire(popped.frames[j - 1])]
                    =~= resend_first(popped, j as nat, now).1);
            }
        } else {
            self.transport.spurious_acks = self.transport.spurious_acks.wrapping_add(1);
            proof {
                lemma_emitted_after_same(self.wire());
            }
        }
    }

    /// This runs the receiving half of the transport protocol, acknowledging frames received, discarding
    /// duplicates received, and handling RESET requests.
    fn valid_frame_received(&mut self, now: u128)
        requires
            old(self).wf(),
        ensures
            ({
                let r = on_frame(
                    old(self).transport_enabled(),
                    old(self).port,
                    old(self).transport@,
                    old(self).link().msgs,
                    old(self).rx_view(),
                    now,
                );
                &&& final(self).link() == (LinkView { rx: old(self).link().rx, transport: r.0, msgs: r.1 })
                &&& emitted_after(old(self).wire(), final(self).wire(), r.2)
            }),
            final(self).wf(),
            final(self).port == old(self).port,
            final(self).transport_enabled() == old(self).transport_enabled(),
    {
        proof {
            lemma_emitted_after_same(self.wire());
        }
        if self.t_min {
            self.transport.last_received_anything_ms = now;
            let id_control = self.rx_frame_id_control;
            if id_control == ACK {
                self.ack_received(now);
            } else if id_control == RESET {
                // If we get a RESET demand then we reset the transport protocol (empty the FIFO, reset the
                // sequence numbers, etc.)
                // We don't send anything, we just do it. The other end can send frames to see if this end is
                // alive (pings, etc.) or just wait to get application frames.
                self.transport.resets_received = self.transport.resets_received.wrapping_add(1);
                self.transport.reset_at(now);
            } else if id_control & 0x80 == 0x80 {
                // Incoming application frames
                // Reset the activity time (an idle connection will be stalled)
                self.transport.last_received_frame_ms = now;
                if self.rx_frame_seq == self.transport.rn {
                    // Now looking for the next one in the sequence
                    self.transport.rn = self.transport.rn.wrapping_add(1);
                    // Always send an ACK back for the frame we received
                    self.send_ack(now);
                    // Now ready to pass this up to the application handlers
                    self.msg_enqueue();
                } else {
                    // Discard this frame because we aren't looking for it: it's either a dupe because it was
                    // retransmitted when our ACK didn't get through in time, or else it's further on in the
                    // sequence and others got dropped.
                    self.transport.sequence_mismatch_drop = self.transport.sequence_mismatch_drop.wrapping_add(1);
                }
            } else {
                // Not a transport frame
                self.msg_enqueue();
            }
        } else {
            self.msg_enqueue();
        }
    }

    fn rx_byte(&mut self, byte: u8, now: u128)
        requires
            old(self).wf(),
        ensures
            ({
                let s = byte_step(old(self).transport_enabled(), old(self).port, old(self).link(), byte, now);
                &&& final(self).link() == s.0
                &&& emitted_after(old(self).wire(), final(self).wire(), s.1)
            }),
            final(self).wf(),
            final(self).port == old(self).port,
            final(self).transport_enabled() == old(self).transport_enabled(),
    {
        proof {
            lemma_emitted_after_same(self.wire());
        }
        // Regardless of state, three header bytes means "start of frame" and
        // should reset the frame buffer and be ready to receive frame data.
        //
        // Two in a row in over the frame means to expect a stuff byte.
        if self.rx_header_bytes_seen == 2 {
            self.rx_header_bytes_seen = 0;
            if byte == HEADER_BYTE {
                self.rx_frame_state = RxState::ReceivingIdControl;
                return;
            } else if byte == STUFF_BYTE {
                // Discard this byte; carry on receiving on the next character.
                return;
            } else {
                // Something has gone wrong, give up on this frame and look for header again.
                self.rx_frame_state = RxState::SearchingForSof;
            }
        }
        if byte == HEADER_BYTE {
            self.rx_header_bytes_seen = self.rx_header_bytes_seen + 1;
        } else {
            self.rx_header_bytes_seen = 0;
        }

        match self.rx_frame_state {
            RxState::SearchingForSof => {},
            RxState::ReceivingIdControl => {
                self.rx_frame_id_control = byte;
                self.rx_frame_payload_bytes = 0;
                self.rx_checksum = Crc32Context::new(CRC_SEED, CRC_REVERSED, CRC_REFIN, CRC_REFOUT);
                self.rx_checksum.step(byte);
                if byte & 0x80 == 0x80 {
                    if self.t_min {
                        self.rx_frame_state = RxState::ReceivingSeq;
                    } else {
                        // Without the transport, transport frames are ignored
                        self.rx_frame_state = RxState::SearchingForSof;
                    }
                } else {
                    self.rx_frame_seq = 0;
                    self.rx_frame_state = RxState::ReceivingLength;
                }
            },
            RxState::ReceivingSeq => {
                self.rx_frame_seq = byte;
                self.rx_checksum.step(byte);
                self.rx_frame_state = RxState::ReceivingLength;
            },
            RxState::ReceivingLength => {
                self.rx_frame_length = byte;
                self.rx_control = byte;
                self.rx_checksum.step(byte);
                if self.rx_frame_length > 0 {
                    if self.rx_frame_length <= MAX_PAYLOAD {
                        self.rx_frame_state = RxState::ReceivingPayload;
                    } else {
                        // Frame dropped because it's longer than any frame we can buffer
                        self.rx_frame_state = RxState::SearchingForSof;
                    }
                } else {
                    self.rx_frame_state = RxState::ReceivingChecksum3;
                }
            },
            RxState::ReceivingPayload => {
                self.rx_frame_payload_buf[self.rx_frame_payload_bytes as usize] = byte;
                self.rx_frame_payload_bytes = self.rx_frame_payload_bytes + 1;
                self.rx_checksum.step(byte);
                self.rx_frame_length = self.rx_frame_length - 1;
                if self.rx_frame_length == 0 {
                    self.rx_frame_state = RxState::ReceivingChecksum3;
                }
            },
            RxState::ReceivingChecksum3 => {
                self.rx_frame_checksum = (byte as u32) << 24u32;
                self.rx_frame_state = RxState::ReceivingChecksum2;
            },
            RxState::ReceivingChecksum2 => {
                self.rx_frame_checksum = self.rx_frame_checksum | ((byte as u32) << 16u32);
                self.rx_frame_state = RxState::ReceivingChecksum1;
            },
            RxState::ReceivingChecksum1 => {
                self.rx_frame_checksum = self.rx_frame_checksum | ((byte as u32) << 8u32);
                self.rx_frame_state = RxState::ReceivingChecksum0;
            },
            RxState::ReceivingChecksum0 => {
                self.rx_frame_checksum = self.rx_frame_checksum | (byte as u32);
                let crc = self.rx_checksum.finalize();
                if crc != self.rx_frame_checksum {
                    // Frame fails the checksum and so is dropped
                    self.rx_frame_state = RxState::SearchingForSof;
                } else {
                    // Checksum passes, go on to check for the end-of-frame marker
                    self.rx_frame_state = RxState::ReceivingEof;
                }
            },
            RxState::ReceivingEof => {
                if byte == EOF_BYTE {
                    // Frame received OK, pass up data to handler
                    self.valid_frame_received(now);
                }
                // else discard
                // Look for next frame
                self.rx_frame_state = RxState::SearchingForSof;
            },
        }
    }
}

impl<'a, T> Context<'a, T> where T: Interface {
    /// Of the frames in the window, the one sent longest ago, and when it was sent.
    fn find_retransmit_frame(&self, now: u128) -> (r: (usize, u128))
        requires
            self.wf(),
            self.transport@.window_size() > 0,
        ensures
            r.0 == oldest_upto(self.transport@.frames, now, self.transport@.window_size() as nat),
            r.0 < self.transport@.window_size(),
            r.1 == self.transport@.frames[r.0 as int].last_sent_time_ms,
    {
        let window_size = self.transport.sn_max.wrapping_sub(self.transport.sn_min);
        let mut oldest_frame_index: usize = 0;
        let mut oldest_elapsed_time: u128 = now.wrapping_sub(self.transport.frames[0].last_sent_time_ms);
        let mut i: u8 = 1;
        while i < window_size
            invariant
                1 <= i <= window_size,
                window_size == self.transport@.window_size(),
                window_size <= self.transport@.frames.len(),
                oldest_frame_index < i,
                oldest_frame_index == oldest_upto(self.transport@.frames, now, i as nat),
                oldest_elapsed_time == elapsed(
                    now,
                    self.transport@.frames[oldest_frame_index as int].last_sent_time_ms,
                ),
            decreases window_size - i,
        {
            let elapsed = now.wrapping_sub(self.transport.frames[i as usize].last_sent_time_ms);
            if elapsed > oldest_elapsed_time {
                oldest_elapsed_time = elapsed;
                oldest_frame_index = i as usize;
            }
            i = i + 1;
        }
        (oldest_frame_index, self.transport.frames[oldest_frame_index].last_sent_time_ms)
    }

    /// One round of the transport's timers: send a new frame or resend an
    /// old one, then ACK if due.
    fn transport_tick(&mut self, now: u128)
        requires
            old(self).wf(),
        ensures
            ({
                let t = tick(old(self).transport@, now);
                &&& final(self).link() == (LinkView { transport: t.0, ..old(self).link() })
                &&& emitted_after(old(self).wire(), final(self).wire(), t.1)
            }),
            final(self).wf(),
            final(self).port == old(self).port,
            final(self).transport_enabled() == old(self).transport_enabled(),
    {
        let ghost w0 = self.wire();
        let mut remote_connected = false;
        let mut remote_active = false;
        if now.wrapping_sub(self.transport.last_received_anything_ms) < TRANSPORT_IDLE_TIMEOUT_MS {
            remote_connected = true;
        }
        if now.wrapping_sub(self.transport.last_received_frame_ms) < TRANSPORT_IDLE_TIMEOUT_MS {
            remote_active = true;
        }
        let window_size = self.transport.sn_max.wrapping_sub(self.transport.sn_min);
        proof {
            lemma_emitted_after_same(w0);
        }
        if (window_size < TRANSPORT_MAX_WINDOW_SIZE) && (self.transport.n_frames > window_size) {
            // There are new frames we can send; but don't even bother if there's no buffer space for them
            self.transport_fifo_frame_send(window_size as usize, true, now);
            self.transport.sn_max = self.transport.sn_max.wrapping_add(1);
        } else {
            // Sender cannot send new frames so resend old ones (if there's anyone there)
            if (window_size > 0) && remote_connected {
                // There are unacknowledged frames. Can re-send an old frame. Pick the least recently sent one.
                let (index, last_sent_time_ms) = self.find_retransmit_frame(now);
                if now.wrapping_sub(last_sent_time_ms) >= TRANSPORT_FRAME_RETRANSMIT_TIMEOUT_MS {
                    self.transport_fifo_frame_send(index, false, now);
                }
            }
        }
        let ghost w1 = self.wire();
        let ghost s = crate::engine::send_step(old(self).transport@, now);
        assert(self.transport@ == s.0);
        if now.wrapping_sub(self.transport.last_sent_ack_time_ms) > TRANSPORT_ACK_RETRANSMIT_TIMEOUT_MS {
            if remote_active {
                self.send_ack(now);
                proof {
                    lemma_emitted_after_chain(w0, w1, self.wire(), s.1, seq![ack_wire(s.0.rn)]);
                    assert(s.1 + seq![ack_wire(s.0.rn)] =~= s.1.push(ack_wire(s.0.rn)));
                }
            }
        }
    }
}

impl<'a, T> Context<'a, T> where T: Interface {
    /// Construct a `Context` for MIN.
    /// # Arguments
    /// * `name` - identifier string for debug.
    /// * `hw_if` - Reference of hardware interface.
    /// * `port` - Number of the port associated with the context.
    /// * `t_min` - Use transport protocol.
    pub fn new(name: String, hw_if: &'a T, port: u8, t_min: bool) -> (r: Self)
        ensures
            r.wf(),
            r.transport_enabled() == t_min,
            r.port_tag() == port,
            r.wire() == Seq::<u8>::empty(),
            r.link().rx == rx_initial(),
            r.link().transport.is_new(),
            r.link().msgs == Seq::<MsgView>::empty(),
    {
        let r = Context {
            transport: Transport::new(),
            hw_if: hw_if,
            name: name,
            port: port,
            t_min: t_min,
            tx_header_byte_countdown: 2,
            tx_checksum: Crc32Context::new(CRC_SEED, CRC_REVERSED, CRC_REFIN, CRC_REFOUT),
            rx_header_bytes_seen: 0,
            rx_frame_state: RxState::SearchingForSof,
            rx_frame_id_control: 0,
            rx_frame_payload_bytes: 0,
            rx_checksum: Crc32Context::new(CRC_SEED, CRC_REVERSED, CRC_REFIN, CRC_REFOUT),
            rx_frame_seq: 0,
            rx_frame_length: 0,
            rx_control: 0,
            rx_frame_payload_buf: [0u8; 255],
            rx_frame_checksum: 0,
            msg_queue: Vec::with_capacity(MAX_MSG as usize),
            sent: Ghost(Seq::empty()),
        };
        assert(r.rx_view().buf =~= rx_initial().buf);
        assert(r.link().msgs =~= Seq::<MsgView>::empty());
        r
    }

    /// Sends an application MIN frame on the wire (do not put into the transport queue),
    /// returning the number of bytes sent or crate::Error.
    /// The frame goes out with `id & 0x3f` and no sequence number, whole, if
    /// the interface reports room for `len + 11` bytes; else nothing is sent.
    /// # Arguments
    /// * `id` - Identifier/Control
    /// * `payload` - data to send
    /// * `len` - length of payload
    pub fn send_frame(&mut self, id: u8, payload: &[u8], len: u8) -> (r: Result<u8, Error>)
        requires
            old(self).wf(),
            len <= payload@.len(),
        ensures
            exists|space: u16| r == #[trigger] admission(len, space),
            r is Ok ==> final(self).wire() == old(self).wire() + encode_frame(
                id & 0x3f,
                0,
                payload@.take(len as int),
            ),
            !(r is Ok) ==> final(self).wire() == old(self).wire(),
            final(self).link() == old(self).link(),
            final(self).wf(),
            final(self).transport_enabled() == old(self).transport_enabled(),
            final(self).port_tag() == old(self).port_tag(),
    {
        let avaliable_for_send = self.hw_if.tx_space();
        let r = check_tx_space(len, avaliable_for_send);
        if r.is_ok() {
            self.on_wire_bytes(id & 0x3fu8, 0, payload, len);
        }
        r
    }

    /// Restarts the transport: the FIFO is emptied and the sequence numbers
    /// and timers restart at the current time. With `inform_other_side` a
    /// RESET goes on the wire first. Fails without the transport.
    pub fn reset_transport(&mut self, inform_other_side: bool) -> (r: Result<(), String>)
        requires
            old(self).wf(),
        ensures
            final(self).wf(),
            final(self).transport_enabled() == old(self).transport_enabled(),
            final(self).port_tag() == old(self).port_tag(),
            old(self).transport_enabled() ==> {
                &&& r is Ok
                &&& exists|now: u128|
                    final(self).link() == (LinkView {
                        transport: #[trigger] old(self).link().transport.reset_at(now),
                        ..old(self).link()
                    })
                &&& final(self).wire() == old(self).wire() + (if inform_other_side {
                    encode_frame(RESET, 0, Seq::empty())
                } else {
                    Seq::empty()
                })
            },
            !old(self).transport_enabled() ==> {
                &&& r matches Err(e) && e@ == "no transport support."@
                &&& final(self).link() == old(self).link()
                &&& final(self).wire() == old(self).wire()
            },
    {
        if self.t_min {
            if inform_other_side {
                self.send_reset();
            }
            let now = now_ms();
            self.transport.reset_at(now);
            assert(self.link() == (LinkView {
                transport: old(self).link().transport.reset_at(now),
                ..old(self).link()
            }));
            assert(self.wire() =~= old(self).wire() + (if inform_other_side {
                encode_frame(RESET, 0, Seq::empty())
            } else {
                Seq::empty()
            }));
            Ok(())
        } else {
            proof {
                reveal_strlit("no transport support.");
            }
            Err("no transport support.".to_owned())
        }
    }

    /// Queues a MIN ID / payload frame into the outgoing FIFO(T-MIN only)
    /// Fails without the transport, or when the FIFO already holds
    /// `TRANSPORT_FIFO_MAX_FRAMES` frames.
    pub fn queue_frame(&mut self, id: u8, payload: &[u8], len: u8) -> (r: Result<(), String>)
        requires
            old(self).wf(),
            len <= payload@.len(),
        ensures
            final(self).wf(),
            final(self).transport_enabled() == old(self).transport_enabled(),
            final(self).port_tag() == old(self).port_tag(),
            final(self).wire() == old(self).wire(),
            final(self).link().rx == old(self).link().rx,
            final(self).link().msgs == old(self).link().msgs,
            ({
                let t0 = old(self).link().transport;
                let t1 = final(self).link().transport;
                if !old(self).transport_enabled() {
                    &&& r matches Err(e) && e@ == "no transport support."@
                    &&& t1 == t0
                } else if t0.frames.len() >= TRANSPORT_FIFO_MAX_FRAMES {
                    &&& r matches Err(e) && e@ == "transport fifo full."@
                    &&& t1 == t0
                } else {
                    &&& r is Ok
                    &&& t1.frames.len() == t0.frames.len() + 1
                    &&& t1.frames.drop_last() == t0.frames
                    &&& is_new_frame(t1.frames.last(), id, payload@.take(len as int))
                    &&& t1 == (TransportView {
                        frames: t1.frames,
                        n_frames: (t0.n_frames + 1) as u8,
                        n_frames_max: if t0.n_frames_max < t0.n_frames + 1 {
                            (t0.n_frames + 1) as u8
                        } else {
                            t0.n_frames_max
                        },
                        ..t0
                    })
                }
            }),
    {
        if self.t_min {
            if self.transport.n_frames >= TRANSPORT_FIFO_MAX_FRAMES {
                proof {
                    reveal_strlit("transport fifo full.");
                }
                return Err("transport fifo full.".to_owned());
            }
            let frame = TransportFrame::new(id, payload, len);
            self.push(frame);
            assert(self.link().transport.frames.drop_last() =~= old(self).link().transport.frames);
            Ok(())
        } else {
            proof {
                reveal_strlit("no transport support.");
            }
            Err("no transport support.".to_owned())
        }
    }

    /// Runs the received bytes `buf[..buf_len]` through the receiver at time
    /// `now_ms`, then, with the transport, one round of its timers.
    pub fn poll_at(&mut self, buf: &[u8], buf_len: u32, now_ms: u128)
        requires
            old(self).wf(),
            buf_len <= buf@.len(),
        ensures
            ({
                let r = poll_result(
                    old(self).transport_enabled(),
                    old(self).port_tag(),
                    old(self).link(),
                    buf@.take(buf_len as int),
                    now_ms,
                );
                &&& final(self).link() == r.0
                &&& emitted_after(old(self).wire(), final(self).wire(), r.1)
            }),
            final(self).wf(),
            final(self).transport_enabled() == old(self).transport_enabled(),
            final(self).port_tag() == old(self).port_tag(),
    {
        let ghost t_min = self.t_min;
        let ghost port = self.port;
        proof {
            lemma_emitted_after_same(self.wire());
            assert(buf@.take(0) =~= Seq::<u8>::empty());
        }
        let mut i: u32 = 0;
        while i < buf_len
            invariant
                i <= buf_len,
                buf_len <= buf@.len(),
                self.wf(),
                self.t_min == t_min,
                self.port == port,
                t_min == old(self).transport_enabled(),
                port == old(self).port,
                self.link() == feed(t_min, port, old(self).link(), buf@.take(i as int), now_ms).0,
                emitted_after(
                    old(self).wire(),
                    self.wire(),
                    feed(t_min, port, old(self).link(), buf@.take(i as int), now_ms).1,
                ),
            decreases buf_len - i,
        {
            let ghost w = self.wire();
            let ghost l = self.link();
            self.rx_byte(buf[i as usize], now_ms);
            proof {
                let s = byte_step(t_min, port, l, buf@[i as int], now_ms);
                lemma_emitted_after_chain(
                    old(self).wire(),
                    w,
                    self.wire(),
                    feed(t_min, port, old(self).link(), buf@.take(i as int), now_ms).1,
                    s.1,
                );
                assert(buf@.take(i + 1).drop_last() =~= buf@.take(i as int));
            }
            i = i + 1;
        }
        let ghost f = feed(t_min, port, old(self).link(), buf@.take(buf_len as int), now_ms);
        if self.t_min {
            let ghost w = self.wire();
            self.transport_tick(now_ms);
            proof {
                lemma_emitted_after_chain(
                    old(self).wire(),
                    w,
                    self.wire(),
                    f.1,
                    tick(f.0.transport, now_ms).1,
                );
            }
        }
    }

    /// sends received bytes into a MIN context and runs the transport timeouts.
    pub fn poll(&mut self, buf: &[u8], buf_len: u32)
        requires
            old(self).wf(),
            buf_len <= buf@.len(),
        ensures
            exists|now: u128|
                {
                    let r = #[trigger] poll_result(
                        old(self).transport_enabled(),
                        old(self).port_tag(),
                        old(self).link(),
                        buf@.take(buf_len as int),
                        now,
                    );
                    &&& final(self).link() == r.0
                    &&& emitted_after(old(self).wire(), final(self).wire(), r.1)
                },
            final(self).wf(),
            final(self).transport_enabled() == old(self).transport_enabled(),
            final(self).port_tag() == old(self).port_tag(),
    {
        let now = now_ms();
        self.poll_at(buf, buf_len, now);
    }

    /// Takes the most recently delivered message.
    pub fn get_msg(&mut self) -> (r: Result<Msg, Error>)
        requires
            old(self).wf(),
        ensures
            final(self).wf(),
            final(self).wire() == old(self).wire(),
            final(self).transport_enabled() == old(self).transport_enabled(),
            final(self).port_tag() == old(self).port_tag(),
            old(self).link().msgs.len() == 0 ==> {
                &&& r matches Err(e) && e is NoMsg
                &&& final(self).link() == old(self).link()
            },
            old(self).link().msgs.len() > 0 ==> {
                &&& r matches Ok(m) && m@ == old(self).link().msgs.last()
                &&& final(self).link() == (LinkView {
                    msgs: old(self).link().msgs.drop_last(),
                    ..old(self).link()
                })
            },
    {
        match self.msg_queue.pop() {
            Some(msg) => {
                assert(self.link().msgs =~= old(self).link().msgs.drop_last());
                Ok(msg)
            },
            None => Err(Error::NoMsg),
        }
    }

    /// The checksum computed over the fields of the frame last received.
    pub fn get_rx_checksum(&self) -> (r: u32)
        requires
            self.wf(),
        ensures
            r == !self.link().rx.crc,
    {
        self.rx_checksum.finalize()
    }

    /// The checksum carried by the frame last received.
    pub fn get_rx_frame_checksum(&self) -> (r: u32)
        ensures
            r == self.link().rx.frame_checksum,
    {
        self.rx_frame_checksum
    }

    /// The length byte of the frame last received.
    pub fn get_rx_frame_len(&self) -> (r: u8)
        ensures
            r == self.link().rx.control,
    {
        self.rx_control
    }

    pub fn get_reset_cnt(&self) -> (r: u32)
        ensures
            r == self.link().transport.resets_received,
    {
        self.transport.get_reset_cnt()
    }

    pub fn get_spurious_ack_cnt(&self) -> (r: u32)
        ensures
            r == self.link().transport.spurious_acks,
    {
        self.transport.get_spurious_ack_cnt()
    }

    pub fn get_drop_cnt(&self) -> (r: u32)
        ensures
            r == self.link().transport.sequence_mismatch_drop,
    {
        self.transport.get_drop_cnt()
    }
}

} // verus!
