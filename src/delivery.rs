//! What the receiver delivers for a stream of bytes: a framed message
//! comes out whole, whatever noise came before it, and only when its
//! checksum holds.
use vstd::prelude::*;
use crate::context::RxState;
use crate::engine::{LinkView, MsgView, ack_wire, byte_step, feed, on_frame, poll_result};
use crate::crc::{
    crc32, crc_update, differ_in_one_byte, lemma_crc32_detects_one_byte, lemma_crc_update_append,
    lemma_crc_update_push,
};
use crate::frame::{
    EOF_BYTE, body_with_checksum, checksum_bytes, encode_frame, encode_with_checksum, frame_fields,
    sof, HEADER_BYTE, STUFF_BYTE, countdown_after, lemma_countdown_range, lemma_stuffed_push,
    next_countdown, stuff_one, stuffed,
};
use crate::receive::{RxView, dispatch_all, lemma_rx_step_wf, rx_dispatch, rx_initial, rx_step};
use crate::transport::{ACK, RESET};

verus! {

/// Feeding `a + b` is feeding `a`, then `b`.
pub proof fn lemma_feed_append(t_min: bool, port: u8, l: LinkView, a: Seq<u8>, b: Seq<u8>, now: u128)
    ensures
        ({
            let fa = feed(t_min, port, l, a, now);
            let fb = feed(t_min, port, fa.0, b, now);
            feed(t_min, port, l, a + b, now) == (fb.0, fa.1 + fb.1)
        }),
    decreases b.len(),
{
    let fa = feed(t_min, port, l, a, now);
    if b.len() == 0 {
        assert(a + b =~= a);
        assert(fa.1 + Seq::<Seq<u8>>::empty() =~= fa.1);
    } else {
        let p = b.drop_last();
        lemma_feed_append(t_min, port, l, a, p, now);
        assert((a + b).drop_last() =~= a + p);
        assert((a + b).last() == b.last());
        let fp = feed(t_min, port, fa.0, p, now);
        let s = byte_step(t_min, port, fp.0, b.last(), now);
        assert(fa.1 + fp.1 + s.1 =~= fa.1 + (fp.1 + s.1));
    }
}

/// The state switch neither reads nor changes the header-byte count.
proof fn lemma_dispatch_keeps_header_count(v: RxView, h: u8, b: u8, t_min: bool)
    ensures
        rx_dispatch(RxView { header_seen: h, ..v }, b, t_min) == (RxView {
            header_seen: h,
            ..rx_dispatch(v, b, t_min)
        }),
{
}

/// One body byte with its stuffing, away from the end of a frame.
proof fn lemma_feed_stuffed_byte(t_min: bool, port: u8, l: LinkView, b: u8, c: u8, now: u128)
    requires
        c == 1 || c == 2,
        l.rx.header_seen == 2 - c,
        l.rx.state != RxState::ReceivingEof,
    ensures
        feed(t_min, port, l, stuff_one(b, c), now) == (
            LinkView {
                rx: RxView {
                    header_seen: (2 - next_countdown(c, b)) as u8,
                    ..rx_dispatch(l.rx, b, t_min)
                },
                ..l
            },
            Seq::<Seq<u8>>::empty(),
        ),
{
    let h: u8 = if b == HEADER_BYTE { (l.rx.header_seen + 1) as u8 } else { 0 };
    lemma_dispatch_keeps_header_count(l.rx, h, b, t_min);
    let e = Seq::<u8>::empty();
    if b == HEADER_BYTE && c == 1 {
        let s = seq![b, STUFF_BYTE];
        assert(s.drop_last() =~= seq![b]);
        assert(seq![b].drop_last() =~= e);
        reveal_with_fuel(feed, 3);
        assert(Seq::<Seq<u8>>::empty() + Seq::<Seq<u8>>::empty() + Seq::<Seq<u8>>::empty()
            =~= Seq::<Seq<u8>>::empty());
    } else {
        assert(seq![b].drop_last() =~= e);
        reveal_with_fuel(feed, 2);
        assert(Seq::<Seq<u8>>::empty() + Seq::<Seq<u8>>::empty() =~= Seq::<Seq<u8>>::empty());
    }
}

/// A run of stuffed body bytes, none of which ends a frame, goes through the
/// state switch byte for byte, stuff bytes dropped.
pub proof fn lemma_feed_stuffed(t_min: bool, port: u8, l: LinkView, s: Seq<u8>, now: u128)
    requires
        l.rx.header_seen == 0,
        forall|k: int|
            0 <= k < s.len() ==> (#[trigger] dispatch_all(l.rx, s.take(k), t_min)).state
                != RxState::ReceivingEof,
    ensures
        feed(t_min, port, l, stuffed(s), now) == (
            LinkView {
                rx: RxView {
                    header_seen: (2 - countdown_after(s)) as u8,
                    ..dispatch_all(l.rx, s, t_min)
                },
                ..l
            },
            Seq::<Seq<u8>>::empty(),
        ),
    decreases s.len(),
{
    lemma_countdown_range(s);
    if s.len() == 0 {
        assert(stuffed(s) =~= Seq::<u8>::empty());
        assert(l.rx == (RxView { header_seen: 0, ..l.rx }));
    } else {
        let p = s.drop_last();
        let b = s.last();
        assert forall|k: int| 0 <= k < p.len() implies (#[trigger] dispatch_all(
            l.rx,
            p.take(k),
            t_min,
        )).state != RxState::ReceivingEof by {
            assert(p.take(k) =~= s.take(k));
        }
        lemma_feed_stuffed(t_min, port, l, p, now);
        lemma_countdown_range(p);
        lemma_stuffed_push(p, b);
        assert(p.push(b) =~= s);
        assert(s.take(p.len() as int) =~= p);
        lemma_feed_append(t_min, port, l, stuffed(p), stuff_one(b, countdown_after(p)), now);
        let lp = feed(t_min, port, l, stuffed(p), now).0;
        lemma_feed_stuffed_byte(t_min, port, lp, b, countdown_after(p), now);
        lemma_dispatch_keeps_header_count(
            dispatch_all(l.rx, p, t_min),
            (2 - countdown_after(p)) as u8,
            b,
            t_min,
        );
        assert(Seq::<Seq<u8>>::empty() + Seq::<Seq<u8>>::empty() =~= Seq::<Seq<u8>>::empty());
    }
}

proof fn lemma_dispatch_all_push(v: RxView, s: Seq<u8>, b: u8, t_min: bool)
    ensures
        dispatch_all(v, s.push(b), t_min) == rx_dispatch(dispatch_all(v, s, t_min), b, t_min),
{
    assert(s.push(b).drop_last() =~= s);
}

proof fn lemma_dispatch_all_append(v: RxView, a: Seq<u8>, b: Seq<u8>, t_min: bool)
    ensures
        dispatch_all(v, a + b, t_min) == dispatch_all(dispatch_all(v, a, t_min), b, t_min),
    decreases b.len(),
{
    if b.len() == 0 {
        assert(a + b =~= a);
    } else {
        lemma_dispatch_all_append(v, a, b.drop_last(), t_min);
        assert((a + b).drop_last() =~= a + b.drop_last());
        assert((a + b).last() == b.last());
    }
}

/// The payload bytes fill the buffer in order and feed the checksum.
proof fn lemma_dispatch_payload(v: RxView, p: Seq<u8>, k: nat, t_min: bool)
    requires
        v.state == RxState::ReceivingPayload,
        v.payload_bytes == 0,
        v.length == p.len(),
        v.control == p.len(),
        1 <= p.len() <= 255,
        v.buf.len() == 255,
        k <= p.len(),
    ensures
        ({
            let r = dispatch_all(v, p.take(k as int), t_min);
            &&& r.payload_bytes == k
            &&& r.length == p.len() - k
            &&& r.control == v.control
            &&& r.id_control == v.id_control
            &&& r.seq == v.seq
            &&& r.header_seen == v.header_seen
            &&& r.buf.len() == 255
            &&& r.buf.take(k as int) == p.take(k as int)
            &&& r.crc == crc_update(v.crc, p.take(k as int))
            &&& r.state == if k < p.len() {
                RxState::ReceivingPayload
            } else {
                RxState::ReceivingChecksum3
            }
        }),
    decreases k,
{
    if k == 0 {
        assert(p.take(0) =~= Seq::<u8>::empty());
        assert(v.buf.take(0) =~= Seq::<u8>::empty());
    } else {
        let j = (k - 1) as nat;
        lemma_dispatch_payload(v, p, j, t_min);
        assert(p.take(j as int).push(p[j as int]) =~= p.take(k as int));
        lemma_dispatch_all_push(v, p.take(j as int), p[j as int], t_min);
        lemma_crc_update_push(v.crc, p.take(j as int), p[j as int]);
        let r = dispatch_all(v, p.take(j as int), t_min);
        assert(r.buf.update(j as int, p[j as int]).take(k as int) =~= p.take(k as int));
    }
}

proof fn lemma_checksum_bytes_join(c: u32)
    by (bit_vector)
    ensures
        ((((c >> 24u32) as u8) as u32) << 24u32) | ((((c >> 16u32) as u8) as u32) << 16u32) | ((((c
            >> 8u32) as u8) as u32) << 8u32) | ((c as u8) as u32) == c,
{
}

/// The head of a frame (id/control, the sequence number when the transport
/// bit is set, the length) through the state switch from the start of a frame.
proof fn lemma_dispatch_head(v: RxView, id: u8, seq: u8, p: Seq<u8>, t_min: bool)
    requires
        v.wf(),
        v.state == RxState::ReceivingIdControl,
        id & 0x80 == 0 || t_min,
        p.len() <= 255,
    ensures
        ({
            let fields = frame_fields(id, seq, p);
            let head = fields.take(fields.len() - p.len());
            let r = dispatch_all(v, head, t_min);
            &&& fields == head + p
            &&& forall|k: int|
                0 <= k < head.len() ==> (#[trigger] dispatch_all(v, head.take(k), t_min)).state
                    != RxState::ReceivingEof
            &&& r.id_control == id
            &&& r.seq == if id & 0x80 == 0x80 {
                seq
            } else {
                0
            }
            &&& r.payload_bytes == 0
            &&& r.length == p.len()
            &&& r.control == p.len()
            &&& r.buf == v.buf
            &&& r.header_seen == v.header_seen
            &&& r.crc == crc_update(0xffff_ffff, head)
            &&& r.state == if p.len() > 0 {
                RxState::ReceivingPayload
            } else {
                RxState::ReceivingChecksum3
            }
        }),
{
    let n = p.len() as u8;
    let e = Seq::<u8>::empty();
    let fields = frame_fields(id, seq, p);
    assert(dispatch_all(v, e, t_min) == v);
    lemma_dispatch_all_push(v, e, id, t_min);
    lemma_crc_update_push(0xffff_ffff, e, id);
    assert(e.push(id) =~= seq![id]);
    if id & 0x80 == 0x80 {
        let head = seq![id, seq, n];
        assert(fields =~= head + p);
        assert(fields.take(fields.len() - p.len()) =~= head);
        assert(seq![id].push(seq) =~= seq![id, seq]);
        assert(seq![id, seq].push(n) =~= head);
        lemma_dispatch_all_push(v, seq![id], seq, t_min);
        lemma_dispatch_all_push(v, seq![id, seq], n, t_min);
        lemma_crc_update_push(0xffff_ffff, seq![id], seq);
        lemma_crc_update_push(0xffff_ffff, seq![id, seq], n);
        assert(head.take(0) =~= e);
        assert(head.take(1) =~= seq![id]);
        assert(head.take(2) =~= seq![id, seq]);
    } else {
        let head = seq![id, n];
        assert(fields =~= head + p);
        assert(fields.take(fields.len() - p.len()) =~= head);
        assert(seq![id].push(n) =~= head);
        lemma_dispatch_all_push(v, seq![id], n, t_min);
        lemma_crc_update_push(0xffff_ffff, seq![id], n);
        assert(head.take(0) =~= e);
        assert(head.take(1) =~= seq![id]);
    }
}

/// The body of a frame through the state switch from the start of a frame:
/// no prefix ends a frame, and the whole body leaves the frame ready to end
/// exactly when its checksum holds.
#[verifier::rlimit(60)]
pub proof fn lemma_dispatch_body(v: RxView, id: u8, seq: u8, p: Seq<u8>, c: u32, t_min: bool)
    requires
        v.wf(),
        v.state == RxState::ReceivingIdControl,
        id & 0x80 == 0 || t_min,
        p.len() <= 255,
    ensures
        ({
            let body = body_with_checksum(id, seq, p, c);
            &&& forall|k: int|
                0 <= k < body.len() ==> (#[trigger] dispatch_all(v, body.take(k), t_min)).state
                    != RxState::ReceivingEof
            &&& ({
                let r = dispatch_all(v, body, t_min);
                &&& r.id_control == id
                &&& r.seq == if id & 0x80 == 0x80 {
                    seq
                } else {
                    0
                }
                &&& r.control == p.len()
                &&& r.buf.len() == 255
                &&& r.buf.take(p.len() as int) == p
                &&& r.header_seen == v.header_seen
                &&& r.state == if c == crc32(frame_fields(id, seq, p)) {
                    RxState::ReceivingEof
                } else {
                    RxState::SearchingForSof
                }
            })
        }),
{
    let n = p.len() as u8;
    let fields = frame_fields(id, seq, p);
    let head = fields.take(fields.len() - p.len());
    let h = head.len() as int;
    let cb = checksum_bytes(c);
    let body = body_with_checksum(id, seq, p, c);
    lemma_dispatch_head(v, id, seq, p, t_min);
    assert(body =~= head + p + cb);
    let v2 = dispatch_all(v, head, t_min);
    // the payload
    let v3 = dispatch_all(v, head + p, t_min);
    lemma_dispatch_all_append(v, head, p, t_min);
    lemma_crc_update_append(0xffff_ffff, head, p);
    if n > 0 {
        lemma_dispatch_payload(v2, p, p.len(), t_min);
        assert(p.take(p.len() as int) =~= p);
    } else {
        assert(p =~= Seq::<u8>::empty());
        assert(head + p =~= head);
        assert(v2.buf.take(0) =~= p);
    }
    assert(v3.state == RxState::ReceivingChecksum3);
    assert(v3.crc == crc_update(0xffff_ffff, fields));
    assert(v3.buf.take(p.len() as int) == p);
    // the checksum
    let b3 = (c >> 24u32) as u8;
    let b2 = (c >> 16u32) as u8;
    let b1 = (c >> 8u32) as u8;
    let b0 = c as u8;
    let f = head + p;
    lemma_dispatch_all_push(v, f, b3, t_min);
    lemma_dispatch_all_push(v, f.push(b3), b2, t_min);
    lemma_dispatch_all_push(v, f.push(b3).push(b2), b1, t_min);
    lemma_dispatch_all_push(v, f.push(b3).push(b2).push(b1), b0, t_min);
    assert(f.push(b3).push(b2).push(b1).push(b0) =~= body);
    lemma_checksum_bytes_join(c);
    // no prefix ends the frame
    assert forall|k: int| 0 <= k < body.len() implies (#[trigger] dispatch_all(
        v,
        body.take(k),
        t_min,
    )).state != RxState::ReceivingEof by {
        if k < h {
            assert(body.take(k) =~= head.take(k));
        } else if k <= h + p.len() {
            assert(body.take(k) =~= head + p.take(k - h));
            lemma_dispatch_all_append(v, head, p.take(k - h), t_min);
            if n > 0 {
                lemma_dispatch_payload(v2, p, (k - h) as nat, t_min);
            } else {
                assert(p.take(k - h) =~= Seq::<u8>::empty());
                assert(head + p.take(k - h) =~= head);
            }
        } else if k == h + p.len() + 1 {
            assert(body.take(k) =~= f.push(b3));
        } else if k == h + p.len() + 2 {
            assert(body.take(k) =~= f.push(b3).push(b2));
        } else {
            assert(body.take(k) =~= f.push(b3).push(b2).push(b1));
        }
    }
}

/// Feeding bytes keeps the receiver's invariant.
pub proof fn lemma_feed_rx_wf(t_min: bool, port: u8, l: LinkView, s: Seq<u8>, now: u128)
    requires
        l.rx.wf(),
    ensures
        feed(t_min, port, l, s, now).0.rx.wf(),
    decreases s.len(),
{
    if s.len() > 0 {
        lemma_feed_rx_wf(t_min, port, l, s.drop_last(), now);
        lemma_rx_step_wf(feed(t_min, port, l, s.drop_last(), now).0.rx, s.last(), t_min);
    }
}

/// Three header bytes, from a receiver that has just seen no header byte,
/// start a frame and deliver nothing.
proof fn lemma_feed_sof(t_min: bool, port: u8, l: LinkView, now: u128)
    requires
        l.rx.wf(),
        l.rx.header_seen == 0,
    ensures
        ({
            let r = feed(t_min, port, l, sof(), now);
            &&& r.1 == Seq::<Seq<u8>>::empty()
            &&& r.0.transport == l.transport
            &&& r.0.msgs == l.msgs
            &&& r.0.rx.wf()
            &&& r.0.rx.header_seen == 0
            &&& r.0.rx.state == RxState::ReceivingIdControl
        }),
{
    let h = HEADER_BYTE;
    let e = Seq::<u8>::empty();
    assert(seq![h] =~= e.push(h));
    assert(seq![h, h] =~= seq![h].push(h));
    assert(sof() =~= seq![h, h].push(h));
    assert(e.push(h).drop_last() =~= e);
    assert(seq![h].push(h).drop_last() =~= seq![h]);
    assert(seq![h, h].push(h).drop_last() =~= seq![h, h]);
    lemma_rx_step_wf(l.rx, h, t_min);
    lemma_rx_step_wf(rx_step(l.rx, h, t_min), h, t_min);
    reveal_with_fuel(feed, 4);
    let ee = Seq::<Seq<u8>>::empty();
    assert(ee + ee + ee + ee =~= ee);
}

/// A frame with checksum `c`, after a receiver that has just seen no header
/// byte. If `c` is the checksum of its fields, the receiver hands on exactly
/// this frame; else nothing happens apart from the receiver's own state.
pub proof fn lemma_framed(
    t_min: bool,
    port: u8,
    l: LinkView,
    id: u8,
    seq: u8,
    p: Seq<u8>,
    c: u32,
    now: u128,
)
    requires
        l.rx.wf(),
        l.rx.header_seen == 0,
        id & 0x80 == 0 || t_min,
        p.len() <= 255,
    ensures
        feed(t_min, port, l, encode_with_checksum(id, seq, p, c), now).0.rx.wf(),
        feed(t_min, port, l, encode_with_checksum(id, seq, p, c), now).0.rx.header_seen == 0,
        ({
            let r = feed(t_min, port, l, encode_with_checksum(id, seq, p, c), now);
            if c == crc32(frame_fields(id, seq, p)) {
                exists|v: RxView|
                    {
                        &&& v.id_control == id
                        &&& v.seq == if id & 0x80 == 0x80 {
                            seq
                        } else {
                            0
                        }
                        &&& v.control == p.len()
                        &&& v.buf.len() == 255
                        &&& v.payload() == p
                        &&& (r.0.transport, r.0.msgs, r.1) == #[trigger] on_frame(
                            t_min,
                            port,
                            l.transport,
                            l.msgs,
                            v,
                            now,
                        )
                    }
            } else {
                &&& r.0.transport == l.transport
                &&& r.0.msgs == l.msgs
                &&& r.1 == Seq::<Seq<u8>>::empty()
            }
        }),
{
    let body = body_with_checksum(id, seq, p, c);
    let eof = seq![EOF_BYTE];
    assert(encode_with_checksum(id, seq, p, c) =~= sof() + stuffed(body) + eof);
    lemma_feed_append(t_min, port, l, sof() + stuffed(body), eof, now);
    lemma_feed_append(t_min, port, l, sof(), stuffed(body), now);
    lemma_feed_sof(t_min, port, l, now);
    let l1 = feed(t_min, port, l, sof(), now).0;
    lemma_dispatch_body(l1.rx, id, seq, p, c, t_min);
    lemma_feed_stuffed(t_min, port, l1, body, now);
    lemma_countdown_range(body);
    let l2 = feed(t_min, port, l1, stuffed(body), now).0;
    assert(eof.drop_last() =~= Seq::<u8>::empty());
    reveal_with_fuel(feed, 2);
    let ee = Seq::<Seq<u8>>::empty();
    assert(ee + ee + ee =~= ee);
    lemma_feed_rx_wf(t_min, port, l, encode_with_checksum(id, seq, p, c), now);
    if c == crc32(frame_fields(id, seq, p)) {
        let r = on_frame(t_min, port, l.transport, l.msgs, l2.rx, now);
        assert(ee + ee + r.2 =~= r.2);
        assert(l2.rx.payload() == p);
    }
}

/// A frame without the transport bit, with checksum `c`, after a receiver
/// that has just seen no header byte: its message is delivered exactly when
/// `c` is the checksum of its fields; otherwise nothing is.
pub proof fn lemma_framed_message(
    t_min: bool,
    port: u8,
    l: LinkView,
    id: u8,
    p: Seq<u8>,
    c: u32,
    now: u128,
)
    requires
        l.rx.wf(),
        l.rx.header_seen == 0,
        id & 0x80 == 0,
        p.len() <= 255,
    ensures
        feed(t_min, port, l, encode_with_checksum(id, 0, p, c), now).0.msgs == if c == crc32(
            frame_fields(id, 0, p),
        ) {
            l.msgs.push(MsgView { min_id: id & 0x3f, len: p.len() as u8, buf: p, port: port })
        } else {
            l.msgs
        },
{
    lemma_framed(t_min, port, l, id, 0, p, c, now);
    assert(id != ACK && id != RESET && id & 0x80 != 0x80) by (bit_vector)
        requires
            id & 0x80 == 0,
            ACK == 0xff,
            RESET == 0xfe,
    ;
    if c == crc32(frame_fields(id, 0, p)) {
        let v = choose|v: RxView|
            {
                &&& v.id_control == id
                &&& v.seq == 0
                &&& v.control == p.len()
                &&& v.buf.len() == 255
                &&& v.payload() == p
                &&& (feed(t_min, port, l, encode_with_checksum(id, 0, p, c), now).0.transport,
                    feed(t_min, port, l, encode_with_checksum(id, 0, p, c), now).0.msgs,
                    feed(t_min, port, l, encode_with_checksum(id, 0, p, c), now).1) == #[trigger] on_frame(
                    t_min,
                    port,
                    l.transport,
                    l.msgs,
                    v,
                    now,
                )
            };
    }
}

/// A frame without the transport bit, as it goes on the wire, run through a
/// new receiver, gives exactly one message: the frame's id and payload.
pub proof fn theorem_round_trip(t_min: bool, port: u8, l: LinkView, id: u8, p: Seq<u8>, now: u128)
    requires
        l.rx == rx_initial(),
        l.msgs.len() == 0,
        p.len() <= 255,
    ensures
        poll_result(t_min, port, l, encode_frame(id & 0x3f, 0, p), now).0.msgs == seq![
            MsgView { min_id: id & 0x3f, len: p.len() as u8, buf: p, port: port },
        ],
{
    let i = id & 0x3f;
    assert(i & 0x80 == 0 && i & 0x3f == i) by (bit_vector)
        requires
            i == id & 0x3f,
    ;
    assert(encode_frame(i, 0, p) == encode_with_checksum(i, 0, p, crc32(frame_fields(i, 0, p))));
    lemma_framed_message(t_min, port, l, i, p, crc32(frame_fields(i, 0, p)), now);
    assert(l.msgs.push(MsgView { min_id: i, len: p.len() as u8, buf: p, port: port }) =~= seq![
        MsgView { min_id: i, len: p.len() as u8, buf: p, port: port },
    ]);
}

/// Whatever bytes `x` a new receiver saw first, a frame without the
/// transport bit that follows them is delivered, as long as `x` does not
/// leave the receiver inside a run of header bytes.
pub proof fn theorem_resync(
    t_min: bool,
    port: u8,
    l: LinkView,
    x: Seq<u8>,
    id: u8,
    p: Seq<u8>,
    now: u128,
)
    requires
        l.rx == rx_initial(),
        feed(t_min, port, l, x, now).0.rx.header_seen == 0,
        id & 0x80 == 0,
        p.len() <= 255,
    ensures
        feed(t_min, port, l, x + encode_frame(id, 0, p), now).0.msgs == feed(
            t_min,
            port,
            l,
            x,
            now,
        ).0.msgs.push(MsgView { min_id: id & 0x3f, len: p.len() as u8, buf: p, port: port }),
{
    assert(rx_initial().wf());
    lemma_feed_rx_wf(t_min, port, l, x, now);
    lemma_feed_append(t_min, port, l, x, encode_frame(id, 0, p), now);
    let lx = feed(t_min, port, l, x, now).0;
    assert(encode_frame(id, 0, p) == encode_with_checksum(id, 0, p, crc32(frame_fields(id, 0, p))));
    lemma_framed_message(t_min, port, lx, id, p, crc32(frame_fields(id, 0, p)), now);
}

/// A frame whose checksum field is not the checksum of its fields (any
/// flipped checksum bit makes it so) is dropped: no message, no change to
/// the transport, nothing sent.
pub proof fn theorem_bad_checksum_dropped(
    t_min: bool,
    port: u8,
    l: LinkView,
    id: u8,
    seq: u8,
    p: Seq<u8>,
    c: u32,
    now: u128,
)
    requires
        l.rx.wf(),
        l.rx.header_seen == 0,
        id & 0x80 == 0 || t_min,
        p.len() <= 255,
        c != crc32(frame_fields(id, seq, p)),
    ensures
        ({
            let r = feed(t_min, port, l, encode_with_checksum(id, seq, p, c), now);
            &&& r.0.msgs == l.msgs
            &&& r.0.transport == l.transport
            &&& r.1.len() == 0
        }),
{
    lemma_framed(t_min, port, l, id, seq, p, c, now);
}

/// A frame whose id/control, sequence number or one payload byte changed on
/// the way (any one flipped bit there does so), while its checksum field
/// still holds the checksum of the frame as sent, is dropped.
pub proof fn theorem_corrupted_field_dropped(
    t_min: bool,
    port: u8,
    l: LinkView,
    id: u8,
    seq: u8,
    p: Seq<u8>,
    id_recv: u8,
    seq_recv: u8,
    p_recv: Seq<u8>,
    now: u128,
)
    requires
        l.rx.wf(),
        l.rx.header_seen == 0,
        id_recv & 0x80 == 0 || t_min,
        p_recv.len() <= 255,
        differ_in_one_byte(frame_fields(id, seq, p), frame_fields(id_recv, seq_recv, p_recv)),
    ensures
        ({
            let r = feed(
                t_min,
                port,
                l,
                encode_with_checksum(id_recv, seq_recv, p_recv, crc32(frame_fields(id, seq, p))),
                now,
            );
            &&& r.0.msgs == l.msgs
            &&& r.0.transport == l.transport
            &&& r.1.len() == 0
        }),
{
    lemma_crc32_detects_one_byte(frame_fields(id, seq, p), frame_fields(id_recv, seq_recv, p_recv));
    theorem_bad_checksum_dropped(t_min, port, l, id_recv, seq_recv, p_recv, crc32(frame_fields(id, seq, p)), now);
}

/// A transport data frame, as the transport puts it on the wire, reaching a
/// receiver that expects its sequence number: its message is delivered,
/// the expected number moves on by one, and an ACK carrying it is sent.
pub proof fn theorem_transport_frame_delivered(
    port: u8,
    l: LinkView,
    id: u8,
    p: Seq<u8>,
    now: u128,
)
    requires
        l.rx.wf(),
        l.rx.header_seen == 0,
        id | 0x80 != ACK,
        id | 0x80 != RESET,
        p.len() <= 255,
    ensures
        ({
            let r = feed(true, port, l, encode_frame(id | 0x80, l.transport.rn, p), now);
            let rn = l.transport.rn.wrapping_add(1);
            &&& r.0.msgs == l.msgs.push(
                MsgView { min_id: id & 0x3f, len: p.len() as u8, buf: p, port: port },
            )
            &&& r.0.transport.rn == rn
            &&& r.1 == seq![ack_wire(rn)]
            &&& r.0.rx.wf()
            &&& r.0.rx.header_seen == 0
        }),
{
    let i = id | 0x80;
    assert(i & 0x80 == 0x80 && i & 0x3f == id & 0x3f) by (bit_vector)
        requires
            i == id | 0x80,
    ;
    let seq = l.transport.rn;
    let c = crc32(frame_fields(i, seq, p));
    assert(encode_frame(i, seq, p) == encode_with_checksum(i, seq, p, c));
    lemma_framed(true, port, l, i, seq, p, c, now);
    let r = feed(true, port, l, encode_with_checksum(i, seq, p, c), now);
    let v = choose|v: RxView|
        {
            &&& v.id_control == i
            &&& v.seq == seq
            &&& v.control == p.len()
            &&& v.buf.len() == 255
            &&& v.payload() == p
            &&& (r.0.transport, r.0.msgs, r.1) == #[trigger] on_frame(
                true,
                port,
                l.transport,
                l.msgs,
                v,
                now,
            )
        };
}

/// The wire bytes of transport data frames `fs` (id/control and payload
/// each), numbered on from `start`.
pub open spec fn transport_stream(fs: Seq<(u8, Seq<u8>)>, start: u8) -> Seq<u8>
    decreases fs.len(),
{
    if fs.len() == 0 {
        Seq::empty()
    } else {
        let k = (fs.len() - 1) as int;
        transport_stream(fs.drop_last(), start) + encode_frame(
            fs.last().0 | 0x80,
            ((start + k) % 256) as u8,
            fs.last().1,
        )
    }
}

/// The message of a transport data frame.
pub open spec fn stream_msg(f: (u8, Seq<u8>), port: u8) -> MsgView {
    MsgView { min_id: f.0 & 0x3f, len: f.1.len() as u8, buf: f.1, port: port }
}

/// Frames numbered on from the number the receiver expects, and received in
/// that order, are each delivered once, in that order; the expected number
/// moves on by one per frame.
pub proof fn theorem_stream_delivered_in_order(
    port: u8,
    l: LinkView,
    fs: Seq<(u8, Seq<u8>)>,
    now: u128,
)
    requires
        l.rx.wf(),
        l.rx.header_seen == 0,
        forall|k: int|
            0 <= k < fs.len() ==> {
                &&& (#[trigger] fs[k]).0 | 0x80 != ACK
                &&& fs[k].0 | 0x80 != RESET
                &&& fs[k].1.len() <= 255
            },
    ensures
        ({
            let r = feed(true, port, l, transport_stream(fs, l.transport.rn), now).0;
            &&& r.msgs == l.msgs + fs.map_values(|f: (u8, Seq<u8>)| stream_msg(f, port))
            &&& r.transport.rn == ((l.transport.rn + fs.len()) % 256) as u8
            &&& r.rx.wf()
            &&& r.rx.header_seen == 0
        }),
    decreases fs.len(),
{
    let start = l.transport.rn;
    if fs.len() == 0 {
        assert(transport_stream(fs, start) =~= Seq::<u8>::empty());
        assert(l.msgs + fs.map_values(|f: (u8, Seq<u8>)| stream_msg(f, port)) =~= l.msgs);
        assert(feed(true, port, l, transport_stream(fs, start), now).0 == l);
    } else {
        let q = fs.drop_last();
        let f = fs.last();
        let k = q.len() as int;
        assert forall|j: int| 0 <= j < q.len() implies {
            &&& (#[trigger] q[j]).0 | 0x80 != ACK
            &&& q[j].0 | 0x80 != RESET
            &&& q[j].1.len() <= 255
        } by {
            assert(q[j] == fs[j]);
        }
        theorem_stream_delivered_in_order(port, l, q, now);
        let lq = feed(true, port, l, transport_stream(q, start), now).0;
        let seqk = ((start + k) % 256) as u8;
        let frame = encode_frame(f.0 | 0x80, seqk, f.1);
        assert(transport_stream(fs, start) == transport_stream(q, start) + frame);
        lemma_feed_append(true, port, l, transport_stream(q, start), frame, now);
        assert(fs[k] == f);
        theorem_transport_frame_delivered(port, lq, f.0, f.1, now);
        lemma_next_number(lq.transport.rn, start + k);
        assert(l.msgs + fs.map_values(|g: (u8, Seq<u8>)| stream_msg(g, port)) =~= (l.msgs
            + q.map_values(|g: (u8, Seq<u8>)| stream_msg(g, port))).push(stream_msg(f, port)));
    }
}

proof fn lemma_next_number(x: u8, a: int)
    requires
        a >= 0,
        x == (a % 256) as u8,
    ensures
        x.wrapping_add(1) == ((a + 1) % 256) as u8,
{
    vstd::arithmetic::div_mod::lemma_add_mod_noop(a, 1, 256);
}

} // verus!
