//! The wire format of a frame: header, byte-stuffed body, end-of-frame marker.
use vstd::prelude::*;
use crate::crc::crc32;

verus! {

/// Start-of-frame byte; three in a row begin a frame.
pub const HEADER_BYTE: u8 = 0xaa;
/// Inserted after two header bytes inside a frame body.
pub const STUFF_BYTE: u8 = 0x55;
/// Ends a frame.
pub const EOF_BYTE: u8 = 0x55;

/// The fields covered by the checksum: id/control, the sequence number when
/// the transport bit is set, the length, then the payload.
pub open spec fn frame_fields(id_control: u8, seq: u8, payload: Seq<u8>) -> Seq<u8> {
    let head: Seq<u8> = if id_control & 0x80 == 0x80 {
        seq![id_control, seq]
    } else {
        seq![id_control]
    };
    head + seq![payload.len() as u8] + payload
}

/// A checksum as four bytes, most significant first.
pub open spec fn checksum_bytes(c: u32) -> Seq<u8> {
    seq![(c >> 24u32) as u8, (c >> 16u32) as u8, (c >> 8u32) as u8, c as u8]
}

/// The frame body before stuffing, with the given checksum.
pub open spec fn body_with_checksum(id_control: u8, seq: u8, payload: Seq<u8>, c: u32) -> Seq<u8> {
    frame_fields(id_control, seq, payload) + checksum_bytes(c)
}

/// The frame body before stuffing, with its correct checksum.
pub open spec fn frame_body(id_control: u8, seq: u8, payload: Seq<u8>) -> Seq<u8> {
    body_with_checksum(id_control, seq, payload, crc32(frame_fields(id_control, seq, payload)))
}

/// The stuffing countdown after sending `s`: it starts at 2, drops on each
/// header byte and is restored by any other byte or by a stuff byte.
pub open spec fn countdown_after(s: Seq<u8>) -> u8
    decreases s.len(),
{
    if s.len() == 0 {
        2
    } else {
        next_countdown(countdown_after(s.drop_last()), s.last())
    }
}

pub open spec fn next_countdown(c: u8, b: u8) -> u8 {
    if b == HEADER_BYTE && c != 1 {
        (c - 1) as u8
    } else {
        2
    }
}

/// What goes on the wire for byte `b` with countdown `c`.
pub open spec fn stuff_one(b: u8, c: u8) -> Seq<u8> {
    if b == HEADER_BYTE && c == 1 {
        seq![b, STUFF_BYTE]
    } else {
        seq![b]
    }
}

/// `s` with a stuff byte after every second consecutive header byte.
pub open spec fn stuffed(s: Seq<u8>) -> Seq<u8>
    decreases s.len(),
{
    if s.len() == 0 {
        Seq::empty()
    } else {
        stuffed(s.drop_last()) + stuff_one(s.last(), countdown_after(s.drop_last()))
    }
}

pub open spec fn sof() -> Seq<u8> {
    seq![HEADER_BYTE, HEADER_BYTE, HEADER_BYTE]
}

/// The complete on-wire bytes of a frame with checksum `c`.
pub open spec fn encode_with_checksum(id_control: u8, seq: u8, payload: Seq<u8>, c: u32) -> Seq<u8> {
    sof() + stuffed(body_with_checksum(id_control, seq, payload, c)) + seq![EOF_BYTE]
}

/// The complete on-wire bytes of a frame.
pub open spec fn encode_frame(id_control: u8, seq: u8, payload: Seq<u8>) -> Seq<u8> {
    sof() + stuffed(frame_body(id_control, seq, payload)) + seq![EOF_BYTE]
}

/// Whether `s` holds three header bytes in a row.
pub open spec fn has_header_run(s: Seq<u8>) -> bool {
    exists|i: int|
        0 <= i && i + 2 < s.len() && #[trigger] s[i] == HEADER_BYTE && s[i + 1] == HEADER_BYTE
            && s[i + 2] == HEADER_BYTE
}

pub proof fn lemma_stuffed_push(s: Seq<u8>, b: u8)
    ensures
        stuffed(s.push(b)) == stuffed(s) + stuff_one(b, countdown_after(s)),
        countdown_after(s.push(b)) == next_countdown(countdown_after(s), b),
        s.push(b).drop_last() == s,
        s.push(b).last() == b,
{
    assert(s.push(b).drop_last() =~= s);
}

proof fn lemma_stuffed_tail(s: Seq<u8>)
    ensures
        countdown_after(s) == 1 || countdown_after(s) == 2,
        !has_header_run(stuffed(s)),
        countdown_after(s) == 2 ==> stuffed(s).len() == 0 || stuffed(s).last() != HEADER_BYTE,
        countdown_after(s) == 1 ==> {
            let o = stuffed(s);
            &&& o.len() >= 1
            &&& o.last() == HEADER_BYTE
            &&& (o.len() == 1 || o[o.len() - 2] != HEADER_BYTE)
        },
    decreases s.len(),
{
    if s.len() > 0 {
        let p = s.drop_last();
        lemma_stuffed_tail(p);
        let o = stuffed(p);
        let e = stuff_one(s.last(), countdown_after(p));
        let n = stuffed(s);
        assert(n == o + e);
        if has_header_run(n) {
            let i = choose|i: int|
                0 <= i && i + 2 < n.len() && #[trigger] n[i] == HEADER_BYTE && n[i + 1]
                    == HEADER_BYTE && n[i + 2] == HEADER_BYTE;
            if i + 2 < o.len() {
                assert(o[i] == HEADER_BYTE && o[i + 1] == HEADER_BYTE && o[i + 2] == HEADER_BYTE);
                assert(has_header_run(o));
            }
        }
    }
}

pub proof fn lemma_countdown_range(s: Seq<u8>)
    ensures
        countdown_after(s) == 1 || countdown_after(s) == 2,
{
    lemma_stuffed_tail(s);
}

/// A stuffed body never holds three header bytes in a row, so inside a
/// frame only its leading start-of-frame does.
pub proof fn lemma_no_header_run_in_body(id_control: u8, seq: u8, payload: Seq<u8>)
    ensures
        !has_header_run(stuffed(frame_body(id_control, seq, payload)) + seq![EOF_BYTE]),
        encode_frame(id_control, seq, payload).subrange(0, 3) == sof(),
        encode_frame(id_control, seq, payload).subrange(3, encode_frame(id_control, seq, payload).len() as int)
            == stuffed(frame_body(id_control, seq, payload)) + seq![EOF_BYTE],
{
    let s = frame_body(id_control, seq, payload);
    lemma_stuffed_tail(s);
    let o = stuffed(s);
    let n = o + seq![EOF_BYTE];
    if has_header_run(n) {
        let i = choose|i: int|
            0 <= i && i + 2 < n.len() && #[trigger] n[i] == HEADER_BYTE && n[i + 1] == HEADER_BYTE
                && n[i + 2] == HEADER_BYTE;
        assert(o[i] == HEADER_BYTE && o[i + 1] == HEADER_BYTE && o[i + 2] == HEADER_BYTE);
        assert(has_header_run(o));
    }
    let w = encode_frame(id_control, seq, payload);
    assert(w.subrange(0, 3) =~= sof());
    assert(w.subrange(3, w.len() as int) =~= n);
}

} // verus!
