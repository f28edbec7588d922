//! What a context does, as plain values: the handling of a received frame,
//! the transport's timers, and what may appear on the wire.
use vstd::prelude::*;
use crate::frame::encode_frame;
use crate::receive::{RxView, rx_delivers, rx_step};
use crate::transport::{
    ACK, RESET, TRANSPORT_ACK_RETRANSMIT_TIMEOUT_MS, TRANSPORT_FRAME_RETRANSMIT_TIMEOUT_MS,
    TRANSPORT_IDLE_TIMEOUT_MS, TRANSPORT_MAX_WINDOW_SIZE, TransportFrame, TransportView,
};

verus! {

/// A delivered message as plain values.
pub struct MsgView {
    pub min_id: u8,
    pub len: u8,
    pub buf: Seq<u8>,
    pub port: u8,
}

/// The state of a context apart from the wire.
pub struct LinkView {
    pub rx: RxView,
    pub transport: TransportView,
    /// Delivered messages, oldest first.
    pub msgs: Seq<MsgView>,
}

/// The message for the frame the receiver holds.
pub open spec fn msg_of(v: RxView, port: u8) -> MsgView {
    MsgView { min_id: v.id_control & 0x3f, len: v.control, buf: v.payload(), port: port }
}

/// The wire bytes of a queued frame.
pub open spec fn frame_wire(f: TransportFrame) -> Seq<u8> {
    encode_frame(f.min_id | 0x80, f.seq, f.data())
}

/// The wire bytes of an ACK carrying `rn`.
pub open spec fn ack_wire(rn: u8) -> Seq<u8> {
    encode_frame(ACK, rn, seq![rn])
}

/// The wire bytes of a RESET.
pub open spec fn reset_wire() -> Seq<u8> {
    encode_frame(RESET, 0, Seq::empty())
}

/// Frame `f` stamped as sent at `now`.
pub open spec fn stamped(f: TransportFrame, now: u128) -> TransportFrame {
    TransportFrame { last_sent_time_ms: now, ..f }
}

/// Resends the first `k` frames of the FIFO at `now`.
pub open spec fn resend_first(tv: TransportView, k: nat, now: u128) -> (TransportView, Seq<Seq<u8>>) {
    (
        TransportView {
            frames: Seq::new(
                tv.frames.len(),
                |i: int|
                    if i < k {
                        stamped(tv.frames[i], now)
                    } else {
                        tv.frames[i]
                    },
            ),
            ..tv
        },
        Seq::new(k, |i: int| frame_wire(tv.frames[i])),
    )
}

/// An ACK carrying `seq` (the peer's next expected sequence number) and
/// `nack` in its payload. If it acknowledges no more than the window, the
/// acknowledged frames leave the FIFO, `sn_min` becomes `seq`, and the first
/// `nack - seq` frames of the window are resent; else it is counted as
/// spurious.
pub open spec fn on_ack(tv: TransportView, seq: u8, nack: u8, now: u128) -> (TransportView, Seq<Seq<u8>>) {
    let num_acked = seq.wrapping_sub(tv.sn_min);
    let num_in_window = tv.window_size();
    if num_acked <= num_in_window {
        let popped = TransportView {
            frames: tv.frames.skip(num_acked as int),
            n_frames: (tv.n_frames - num_acked) as u8,
            sn_min: seq,
            ..tv
        };
        let num_nacked = nack.wrapping_sub(seq);
        let k: nat = if num_nacked <= popped.window_size() {
            num_nacked as nat
        } else {
            popped.window_size() as nat
        };
        resend_first(popped, k, now)
    } else {
        (TransportView { spurious_acks: tv.spurious_acks.wrapping_add(1), ..tv }, seq![])
    }
}

/// A valid frame, held by the receiver in `v`, arrives at `now`. Gives the
/// new transport state, the messages, and the frames that are sent in
/// answer (each only if the interface has room for it).
pub open spec fn on_frame(
    t_min: bool,
    port: u8,
    tv: TransportView,
    msgs: Seq<MsgView>,
    v: RxView,
    now: u128,
) -> (TransportView, Seq<MsgView>, Seq<Seq<u8>>) {
    if !t_min {
        (tv, msgs.push(msg_of(v, port)), seq![])
    } else {
        let tv0 = TransportView { last_received_anything_ms: now, ..tv };
        if v.id_control == ACK {
            let r = on_ack(tv0, v.seq, v.buf[0], now);
            (r.0, msgs, r.1)
        } else if v.id_control == RESET {
            (
                TransportView {
                    resets_received: tv0.resets_received.wrapping_add(1),
                    ..tv0
                }.reset_at(now),
                msgs,
                seq![],
            )
        } else if v.id_control & 0x80 == 0x80 {
            let tv1 = TransportView { last_received_frame_ms: now, ..tv0 };
            if v.seq == tv1.rn {
                let rn = tv1.rn.wrapping_add(1);
                (
                    TransportView { rn: rn, last_sent_ack_time_ms: now, ..tv1 },
                    msgs.push(msg_of(v, port)),
                    seq![ack_wire(rn)],
                )
            } else {
                (
                    TransportView {
                        sequence_mismatch_drop: tv1.sequence_mismatch_drop.wrapping_add(1),
                        ..tv1
                    },
                    msgs,
                    seq![],
                )
            }
        } else {
            (tv0, msgs.push(msg_of(v, port)), seq![])
        }
    }
}

/// One received byte at `now`.
pub open spec fn byte_step(t_min: bool, port: u8, l: LinkView, b: u8, now: u128) -> (LinkView, Seq<Seq<u8>>) {
    let rx = rx_step(l.rx, b, t_min);
    if rx_delivers(l.rx, b) {
        let r = on_frame(t_min, port, l.transport, l.msgs, l.rx, now);
        (LinkView { rx: rx, transport: r.0, msgs: r.1 }, r.2)
    } else {
        (LinkView { rx: rx, ..l }, seq![])
    }
}

/// The received bytes `bytes`, one after another, at `now`.
pub open spec fn feed(t_min: bool, port: u8, l: LinkView, bytes: Seq<u8>, now: u128) -> (LinkView, Seq<Seq<u8>>)
    decreases bytes.len(),
{
    if bytes.len() == 0 {
        (l, seq![])
    } else {
        let r = feed(t_min, port, l, bytes.drop_last(), now);
        let s = byte_step(t_min, port, r.0, bytes.last(), now);
        (s.0, r.1 + s.1)
    }
}

/// Milliseconds from `t` to `now`, wrapping.
pub open spec fn elapsed(now: u128, t: u128) -> u128 {
    now.wrapping_sub(t)
}

/// Among the first `n` frames, the index of the one sent longest ago
/// (the first of equals).
pub open spec fn oldest_upto(frames: Seq<TransportFrame>, now: u128, n: nat) -> nat
    decreases n,
{
    if n <= 1 {
        0
    } else {
        let j = oldest_upto(frames, now, (n - 1) as nat);
        if elapsed(now, frames[n - 1].last_sent_time_ms) > elapsed(now, frames[j as int].last_sent_time_ms) {
            (n - 1) as nat
        } else {
            j
        }
    }
}

/// The new-or-resend step of a transport tick: send the next frame that
/// waits for the window if the window has room; else, if the peer is
/// connected, resend the oldest frame of the window once it is due.
pub open spec fn send_step(tv: TransportView, now: u128) -> (TransportView, Seq<Seq<u8>>) {
    let w = tv.window_size();
    if w < TRANSPORT_MAX_WINDOW_SIZE && tv.n_frames > w {
        let f = TransportFrame { seq: tv.sn_max, ..stamped(tv.frames[w as int], now) };
        (
            TransportView {
                frames: tv.frames.update(w as int, f),
                sn_max: tv.sn_max.wrapping_add(1),
                ..tv
            },
            seq![frame_wire(f)],
        )
    } else if w > 0 && elapsed(now, tv.last_received_anything_ms) < TRANSPORT_IDLE_TIMEOUT_MS {
        let idx = oldest_upto(tv.frames, now, w as nat) as int;
        if elapsed(now, tv.frames[idx].last_sent_time_ms) >= TRANSPORT_FRAME_RETRANSMIT_TIMEOUT_MS {
            (
                TransportView { frames: tv.frames.update(idx, stamped(tv.frames[idx], now)), ..tv },
                seq![frame_wire(tv.frames[idx])],
            )
        } else {
            (tv, seq![])
        }
    } else {
        (tv, seq![])
    }
}

/// One transport tick at `now`: the new-or-resend step, then an ACK if
/// none went out for 250 ms and the peer sent a frame in the last 500 ms.
pub open spec fn tick(tv: TransportView, now: u128) -> (TransportView, Seq<Seq<u8>>) {
    let remote_active = elapsed(now, tv.last_received_frame_ms) < TRANSPORT_IDLE_TIMEOUT_MS;
    let s = send_step(tv, now);
    if elapsed(now, tv.last_sent_ack_time_ms) > TRANSPORT_ACK_RETRANSMIT_TIMEOUT_MS && remote_active {
        (TransportView { last_sent_ack_time_ms: now, ..s.0 }, s.1.push(ack_wire(s.0.rn)))
    } else {
        s
    }
}

/// `ext` is some of the frames of `cands`, in their order, each whole:
/// a frame is left out where the interface had no room for it.
pub open spec fn emitted(ext: Seq<u8>, cands: Seq<Seq<u8>>) -> bool
    decreases cands.len(),
{
    if cands.len() == 0 {
        ext.len() == 0
    } else {
        let last = cands.last();
        ||| emitted(ext, cands.drop_last())
        ||| {
            &&& ext.len() >= last.len()
            &&& ext.subrange(ext.len() - last.len(), ext.len() as int) == last
            &&& emitted(ext.subrange(0, ext.len() - last.len()), cands.drop_last())
        }
    }
}

/// `w1` is `w0` followed by some of the frames of `cands`.
pub open spec fn emitted_after(w0: Seq<u8>, w1: Seq<u8>, cands: Seq<Seq<u8>>) -> bool {
    &&& w0.len() <= w1.len()
    &&& w1.take(w0.len() as int) == w0
    &&& emitted(w1.skip(w0.len() as int), cands)
}

/// What one poll does: the bytes at `now`, then, with the transport on, a tick.
pub open spec fn poll_result(t_min: bool, port: u8, l: LinkView, bytes: Seq<u8>, now: u128) -> (LinkView, Seq<Seq<u8>>) {
    let f = feed(t_min, port, l, bytes, now);
    if t_min {
        let t = tick(f.0.transport, now);
        (LinkView { transport: t.0, ..f.0 }, f.1 + t.1)
    } else {
        f
    }
}

pub proof fn lemma_emitted_after_same(w: Seq<u8>)
    ensures
        emitted_after(w, w, Seq::empty()),
{
    assert(w.take(w.len() as int) =~= w);
    assert(w.skip(w.len() as int) =~= Seq::<u8>::empty());
}

pub proof fn lemma_emitted_after_skip(w0: Seq<u8>, w1: Seq<u8>, f: Seq<u8>)
    requires
        w1 == w0,
    ensures
        emitted_after(w0, w1, seq![f]),
{
    assert(w1.take(w0.len() as int) =~= w0);
    lemma_emitted_none(w1.skip(w0.len() as int), f);
}

pub proof fn lemma_emitted_after_one(w0: Seq<u8>, w1: Seq<u8>, f: Seq<u8>)
    requires
        w1 == w0 + f,
    ensures
        emitted_after(w0, w1, seq![f]),
{
    assert(w1.take(w0.len() as int) =~= w0);
    assert(w1.skip(w0.len() as int) =~= f);
    lemma_emitted_one(w1.skip(w0.len() as int), f);
}

pub proof fn lemma_emitted_after_chain(
    w0: Seq<u8>,
    w1: Seq<u8>,
    w2: Seq<u8>,
    c1: Seq<Seq<u8>>,
    c2: Seq<Seq<u8>>,
)
    requires
        emitted_after(w0, w1, c1),
        emitted_after(w1, w2, c2),
    ensures
        emitted_after(w0, w2, c1 + c2),
{
    let e1 = w1.skip(w0.len() as int);
    let e2 = w2.skip(w1.len() as int);
    lemma_emitted_concat(e1, c1, e2, c2);
    assert(w1 =~= w0 + e1);
    assert(w2 =~= w1 + e2);
    assert(w2.take(w0.len() as int) =~= w0);
    assert(w2.skip(w0.len() as int) =~= e1 + e2);
}

pub proof fn lemma_emitted_none(ext: Seq<u8>, f: Seq<u8>)
    requires
        ext.len() == 0,
    ensures
        emitted(ext, seq![f]),
{
    reveal_with_fuel(emitted, 2);
    assert(seq![f].drop_last() =~= Seq::<Seq<u8>>::empty());
}

pub proof fn lemma_emitted_one(ext: Seq<u8>, f: Seq<u8>)
    requires
        ext == f,
    ensures
        emitted(ext, seq![f]),
{
    reveal_with_fuel(emitted, 2);
    assert(seq![f].drop_last() =~= Seq::<Seq<u8>>::empty());
    assert(ext.subrange(0, 0) =~= Seq::<u8>::empty());
    assert(ext.subrange(0, ext.len() as int) =~= ext);
}

pub proof fn lemma_emitted_concat(e1: Seq<u8>, c1: Seq<Seq<u8>>, e2: Seq<u8>, c2: Seq<Seq<u8>>)
    requires
        emitted(e1, c1),
        emitted(e2, c2),
    ensures
        emitted(e1 + e2, c1 + c2),
    decreases c2.len(),
{
    if c2.len() == 0 {
        assert(e1 + e2 =~= e1);
        assert(c1 + c2 =~= c1);
    } else {
        let last = c2.last();
        assert((c1 + c2).drop_last() =~= c1 + c2.drop_last());
        assert((c1 + c2).last() == last);
        if emitted(e2, c2.drop_last()) {
            lemma_emitted_concat(e1, c1, e2, c2.drop_last());
        } else {
            let p = e2.subrange(0, e2.len() - last.len());
            lemma_emitted_concat(e1, c1, p, c2.drop_last());
            let e = e1 + e2;
            assert(e.subrange(0, e.len() - last.len()) =~= e1 + p);
            assert(e.subrange(e.len() - last.len(), e.len() as int) =~= e2.subrange(
                e2.len() - last.len(),
                e2.len() as int,
            ));
        }
    }
}

} // verus!
