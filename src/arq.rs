//! The sliding window: what an ACK removes, which frame a tick resends,
//! and the order in which frames are numbered and delivered.
use vstd::prelude::*;
use crate::engine::{
    ack_wire, elapsed, frame_wire, msg_of, on_ack, on_frame, oldest_upto, send_step, tick,
    MsgView,
};
use crate::receive::RxView;
use crate::transport::{
    ACK, RESET, TRANSPORT_FRAME_RETRANSMIT_TIMEOUT_MS, TRANSPORT_IDLE_TIMEOUT_MS,
    TRANSPORT_MAX_WINDOW_SIZE, TransportFrame, TransportView,
};

verus! {

/// Two frames that differ at most in when they were last sent.
pub open spec fn same_frame(f: TransportFrame, g: TransportFrame) -> bool {
    &&& f.min_id == g.min_id
    &&& f.seq == g.seq
    &&& f.payload_len == g.payload_len
    &&& f.payload == g.payload
}

/// An ACK carrying `k` that acknowledges no more than the window drops
/// exactly the `k - sn_min` oldest frames, keeps the others in order, and
/// moves `sn_min` to `k`. One that acknowledges more is only counted.
pub proof fn theorem_ack_advances_window(tv: TransportView, k: u8, nack: u8, now: u128)
    requires
        tv.wf(),
    ensures
        ({
            let a = k.wrapping_sub(tv.sn_min);
            let r = on_ack(tv, k, nack, now).0;
            if a <= tv.window_size() {
                &&& r.sn_min == k
                &&& r.sn_max == tv.sn_max
                &&& r.window_size() == tv.window_size() - a
                &&& r.frames.len() == tv.frames.len() - a
                &&& forall|i: int|
                    0 <= i < r.frames.len() ==> same_frame(
                        #[trigger] r.frames[i],
                        tv.frames[i + a],
                    )
                &&& r.wf()
            } else {
                r == TransportView { spurious_acks: tv.spurious_acks.wrapping_add(1), ..tv }
            }
        }),
{
}

/// Among the first `n` frames, `oldest_upto` picks one sent longest ago,
/// the first of equals.
pub proof fn lemma_oldest_upto(frames: Seq<TransportFrame>, now: u128, n: nat)
    requires
        1 <= n <= frames.len(),
    ensures
        ({
            let j = oldest_upto(frames, now, n) as int;
            &&& 0 <= j < n
            &&& forall|k: int|
                0 <= k < n ==> {
                    let ek = elapsed(now, (#[trigger] frames[k]).last_sent_time_ms);
                    let ej = elapsed(now, frames[j].last_sent_time_ms);
                    &&& ek <= ej
                    &&& ek == ej ==> j <= k
                }
        }),
    decreases n,
{
    if n > 1 {
        lemma_oldest_upto(frames, now, (n - 1) as nat);
    }
}

/// A frame of the window that is due (sent 1000 ms ago or more) and is the
/// one sent longest ago (the first of equals) is resent by the next tick,
/// when the peer is connected and no new frame goes out first.
pub proof fn theorem_due_frame_resent(tv: TransportView, now: u128, i: int)
    requires
        tv.wf(),
        !(tv.window_size() < TRANSPORT_MAX_WINDOW_SIZE && tv.n_frames > tv.window_size()),
        elapsed(now, tv.last_received_anything_ms) < TRANSPORT_IDLE_TIMEOUT_MS,
        0 <= i < tv.window_size(),
        elapsed(now, tv.frames[i].last_sent_time_ms) >= TRANSPORT_FRAME_RETRANSMIT_TIMEOUT_MS,
        forall|j: int|
            0 <= j < tv.window_size() && j != i ==> {
                let ej = elapsed(now, (#[trigger] tv.frames[j]).last_sent_time_ms);
                let ei = elapsed(now, tv.frames[i].last_sent_time_ms);
                ej < ei || (ej == ei && j > i)
            },
    ensures
        ({
            let r = tick(tv, now);
            &&& r.0.frames[i].last_sent_time_ms == now
            &&& r.1.len() >= 1
            &&& r.1[0] == frame_wire(tv.frames[i])
        }),
{
    let n = tv.window_size() as nat;
    lemma_oldest_upto(tv.frames, now, n);
    let j = oldest_upto(tv.frames, now, n) as int;
    if j != i {
        assert(elapsed(now, tv.frames[i].last_sent_time_ms) <= elapsed(now, tv.frames[j].last_sent_time_ms));
    }
    assert(j == i);
}

/// When any frame of the window is due, the peer is connected and no new
/// frame goes out first, the next tick resends a frame of the window sent
/// no later than that one.
pub proof fn theorem_overdue_window_resent(tv: TransportView, now: u128, i: int)
    requires
        tv.wf(),
        !(tv.window_size() < TRANSPORT_MAX_WINDOW_SIZE && tv.n_frames > tv.window_size()),
        elapsed(now, tv.last_received_anything_ms) < TRANSPORT_IDLE_TIMEOUT_MS,
        0 <= i < tv.window_size(),
        elapsed(now, tv.frames[i].last_sent_time_ms) >= TRANSPORT_FRAME_RETRANSMIT_TIMEOUT_MS,
    ensures
        exists|j: int|
            {
                let r = tick(tv, now);
                &&& 0 <= j < tv.window_size()
                &&& elapsed(now, (#[trigger] tv.frames[j]).last_sent_time_ms) >= elapsed(
                    now,
                    tv.frames[i].last_sent_time_ms,
                )
                &&& r.0.frames[j].last_sent_time_ms == now
                &&& r.1.len() >= 1
                &&& r.1[0] == frame_wire(tv.frames[j])
            },
{
    let n = tv.window_size() as nat;
    lemma_oldest_upto(tv.frames, now, n);
    let j = oldest_upto(tv.frames, now, n) as int;
    assert(elapsed(now, tv.frames[i].last_sent_time_ms) <= elapsed(now, tv.frames[j].last_sent_time_ms));
}

/// A waiting frame that enters the window is numbered `sn_max`, which then
/// moves on by one: frames go out in FIFO order with consecutive numbers.
pub proof fn theorem_new_frame_numbered(tv: TransportView, now: u128)
    requires
        tv.wf(),
        tv.window_size() < TRANSPORT_MAX_WINDOW_SIZE,
        tv.n_frames > tv.window_size(),
    ensures
        ({
            let w = tv.window_size() as int;
            let r = send_step(tv, now);
            &&& r.0.frames.len() == tv.frames.len()
            &&& r.0.frames[w].seq == tv.sn_max
            &&& r.0.frames[w].last_sent_time_ms == now
            &&& same_frame(r.0.frames[w], TransportFrame { seq: tv.sn_max, ..tv.frames[w] })
            &&& forall|k: int| 0 <= k < tv.frames.len() && k != w ==> r.0.frames[k] == tv.frames[k]
            &&& r.0.sn_max == tv.sn_max.wrapping_add(1)
            &&& r.0.window_size() == w + 1
            &&& r.1 == seq![frame_wire(r.0.frames[w])]
            &&& r.0.wf()
        }),
{
}

/// A transport data frame is delivered exactly when its sequence number is
/// the one expected; the expected number then moves on by one and an ACK
/// carrying it is sent. Any other number is dropped, counted, and not
/// acknowledged.
pub proof fn theorem_in_order_delivery(
    port: u8,
    tv: TransportView,
    msgs: Seq<MsgView>,
    v: RxView,
    now: u128,
)
    requires
        v.id_control & 0x80 == 0x80,
        v.id_control != ACK,
        v.id_control != RESET,
    ensures
        ({
            let r = on_frame(true, port, tv, msgs, v, now);
            if v.seq == tv.rn {
                &&& r.1 == msgs.push(msg_of(v, port))
                &&& r.0.rn == tv.rn.wrapping_add(1)
                &&& r.2 == seq![ack_wire(r.0.rn)]
            } else {
                &&& r.1 == msgs
                &&& r.0.rn == tv.rn
                &&& r.0.sequence_mismatch_drop == tv.sequence_mismatch_drop.wrapping_add(1)
                &&& r.2.len() == 0
            }
        }),
{
}

/// The frames of the window carry consecutive sequence numbers from `sn_min`.
pub open spec fn window_numbered(tv: TransportView) -> bool {
    forall|i: int| 0 <= i < tv.window_size() ==> (#[trigger] tv.frames[i]).seq.wrapping_sub(tv.sn_min) == i
}

/// The frames an ACK removes are exactly those numbered from `sn_min` up to,
/// not including, the number it carries; the window left behind is still
/// numbered consecutively from there.
pub proof fn theorem_ack_removes_acknowledged(tv: TransportView, k: u8, nack: u8, now: u128)
    requires
        tv.wf(),
        window_numbered(tv),
        k.wrapping_sub(tv.sn_min) <= tv.window_size(),
    ensures
        ({
            let a = k.wrapping_sub(tv.sn_min);
            let r = on_ack(tv, k, nack, now).0;
            &&& forall|i: int| 0 <= i < a ==> (#[trigger] tv.frames[i]).seq.wrapping_sub(tv.sn_min) < a
            &&& window_numbered(r)
            &&& r.sn_min == k
        }),
{
    let a = k.wrapping_sub(tv.sn_min);
    let r = on_ack(tv, k, nack, now).0;
    assert forall|i: int| 0 <= i < r.window_size() implies (#[trigger] r.frames[i]).seq.wrapping_sub(
        r.sn_min,
    ) == i by {
        assert(tv.frames[i + a].seq.wrapping_sub(tv.sn_min) == i + a);
    }
}

/// Handling a received frame and running a tick both keep the window
/// numbered consecutively.
pub proof fn theorem_numbering_kept(
    t_min: bool,
    port: u8,
    tv: TransportView,
    msgs: Seq<MsgView>,
    v: RxView,
    now: u128,
)
    requires
        tv.wf(),
        window_numbered(tv),
        v.wf(),
    ensures
        window_numbered(on_frame(t_min, port, tv, msgs, v, now).0),
        window_numbered(tick(tv, now).0),
{
    let tv0 = TransportView { last_received_anything_ms: now, ..tv };
    if t_min && v.id_control == ACK && v.seq.wrapping_sub(tv.sn_min) <= tv.window_size() {
        theorem_ack_removes_acknowledged(tv0, v.seq, v.buf[0], now);
    }
    let s = send_step(tv, now);
    let w = tv.window_size();
    if w < TRANSPORT_MAX_WINDOW_SIZE && tv.n_frames > w {
        theorem_new_frame_numbered(tv, now);
        assert forall|i: int| 0 <= i < s.0.window_size() implies (#[trigger] s.0.frames[i]).seq.wrapping_sub(
            s.0.sn_min,
        ) == i by {
            if i < w {
                assert(s.0.frames[i] == tv.frames[i]);
            }
        }
    } else if w > 0 {
        lemma_oldest_upto(tv.frames, now, w as nat);
        assert forall|i: int| 0 <= i < s.0.window_size() implies (#[trigger] s.0.frames[i]).seq.wrapping_sub(
            s.0.sn_min,
        ) == i by {
            assert(s.0.frames[i].seq == tv.frames[i].seq);
        }
    }
}

} // verus!
