use min_rs::transport::{Transport, TransportFrame};
use min_rs::{Context, Interface};
use std::cell::RefCell;

struct Pipe {
    bytes: RefCell<Vec<u8>>,
}

impl Pipe {
    fn new() -> Self {
        Pipe { bytes: RefCell::new(Vec::new()) }
    }

    fn drain(&self) -> Vec<u8> {
        self.bytes.borrow_mut().drain(..).collect()
    }
}

impl Interface for Pipe {
    fn tx_space(&self) -> u16 {
        512
    }
    fn tx_start(&self) {}
    fn tx_finished(&self) {}
    fn tx_byte(&self, _port: u8, byte: u8) {
        self.bytes.borrow_mut().push(byte);
    }
}

fn clock_ms() -> u128 {
    std::time::SystemTime::now()
        .duration_since(std::time::UNIX_EPOCH)
        .map(|d| d.as_millis())
        .unwrap_or(0)
}

const STALE_ACK: [u8; 12] = [0xaa, 0xaa, 0xaa, 0xff, 0x02, 0x01, 0x02, 0x0b, 0xd0, 0x5d, 0xee, 0x55];

#[test]
fn queued_frames_arrive_in_order_once() {
    let a_out = Pipe::new();
    let b_out = Pipe::new();
    let mut a = Context::new(String::from("a"), &a_out, 1, true);
    let mut b = Context::new(String::from("b"), &b_out, 2, true);
    let payloads: Vec<Vec<u8>> = vec![vec![1], vec![2, 2], vec![0xaa, 0xaa, 0xaa], vec![], vec![4; 200]];
    for (i, p) in payloads.iter().enumerate() {
        a.queue_frame(i as u8, p, p.len() as u8).unwrap();
    }
    for _ in 0..20 {
        let to_a = b_out.drain();
        a.poll(&to_a, to_a.len() as u32);
        let to_b = a_out.drain();
        b.poll(&to_b, to_b.len() as u32);
    }
    let mut got: Vec<(u8, Vec<u8>, u8)> = Vec::new();
    while let Ok(m) = b.get_msg() {
        got.push((m.min_id, m.buf, m.port));
    }
    got.reverse();
    let want: Vec<(u8, Vec<u8>, u8)> =
        payloads.iter().enumerate().map(|(i, p)| (i as u8, p.clone(), 2u8)).collect();
    assert_eq!(got, want);
    assert_eq!(b.get_drop_cnt(), 0);
    assert_eq!(a.get_spurious_ack_cnt(), 0);
}

#[test]
fn acknowledged_frame_is_not_resent() {
    let a_out = Pipe::new();
    let b_out = Pipe::new();
    let mut a = Context::new(String::from("a"), &a_out, 0, true);
    let mut b = Context::new(String::from("b"), &b_out, 0, true);
    let t0 = clock_ms();
    a.queue_frame(3, &[7, 8, 9], 3).unwrap();
    a.poll_at(&[], 0, t0);
    let frame = a_out.drain();
    assert!(!frame.is_empty());
    b.poll(&frame, frame.len() as u32);
    let ack = b_out.drain();
    assert_eq!(&ack[0..4], &[0xaa, 0xaa, 0xaa, 0xff]);
    a.poll_at(&ack, ack.len() as u32, t0 + 900);
    assert!(a_out.drain().is_empty());
    a.poll_at(&[], 0, t0 + 1000);
    assert!(a_out.drain().is_empty());
    assert_eq!(a.get_spurious_ack_cnt(), 0);
}

#[test]
fn overdue_frame_is_resent() {
    let a_out = Pipe::new();
    let mut a = Context::new(String::from("a"), &a_out, 0, true);
    let t0 = clock_ms();
    a.queue_frame(3, &[7, 8, 9], 3).unwrap();
    a.poll_at(&[], 0, t0);
    let first = a_out.drain();
    assert_eq!(&first[0..5], &[0xaa, 0xaa, 0xaa, 0x83, 0x00]);
    // Anything received keeps the peer counted as connected.
    a.poll_at(&STALE_ACK, STALE_ACK.len() as u32, t0 + 900);
    assert_eq!(a.get_spurious_ack_cnt(), 1);
    assert!(a_out.drain().is_empty());
    a.poll_at(&[], 0, t0 + 999);
    assert!(a_out.drain().is_empty());
    a.poll_at(&[], 0, t0 + 1000);
    assert_eq!(a_out.drain(), first);
}

#[test]
fn overdue_frame_waits_for_a_connected_peer() {
    let a_out = Pipe::new();
    let mut a = Context::new(String::from("a"), &a_out, 0, true);
    let t0 = clock_ms();
    a.queue_frame(3, &[7], 1).unwrap();
    a.poll_at(&[], 0, t0);
    assert!(!a_out.drain().is_empty());
    a.poll_at(&[], 0, t0 + 5000);
    assert!(a_out.drain().is_empty());
}

#[test]
fn out_of_sequence_frame_is_dropped_without_ack() {
    let a_out = Pipe::new();
    let b_out = Pipe::new();
    let mut a = Context::new(String::from("a"), &a_out, 0, true);
    let mut b = Context::new(String::from("b"), &b_out, 0, true);
    a.queue_frame(1, &[1], 1).unwrap();
    a.queue_frame(1, &[2], 1).unwrap();
    a.poll(&[], 0);
    let first = a_out.drain();
    a.poll(&[], 0);
    let second = a_out.drain();
    b.poll(&second, second.len() as u32);
    assert_eq!(b.get_drop_cnt(), 1);
    assert!(b_out.drain().is_empty());
    assert!(b.get_msg().is_err());
    b.poll(&first, first.len() as u32);
    assert!(matches!(b.get_msg(), Ok(m) if m.buf == vec![1]));
    b.poll(&first, first.len() as u32);
    assert_eq!(b.get_drop_cnt(), 2);
}

#[test]
fn local_reset_is_seen_by_peer() {
    let a_out = Pipe::new();
    let b_out = Pipe::new();
    let mut a = Context::new(String::from("a"), &a_out, 0, true);
    let mut b = Context::new(String::from("b"), &b_out, 0, true);
    a.reset_transport(true).unwrap();
    let wire = a_out.drain();
    assert_eq!(&wire[0..6], &[0xaa, 0xaa, 0xaa, 0xfe, 0x00, 0x00]);
    b.poll(&wire, wire.len() as u32);
    assert_eq!(b.get_reset_cnt(), 1);
    assert_eq!(a.get_reset_cnt(), 0);
}

#[test]
fn quiet_reset_sends_nothing() {
    let a_out = Pipe::new();
    let mut a = Context::new(String::from("a"), &a_out, 0, true);
    a.queue_frame(1, &[1], 1).unwrap();
    a.reset_transport(false).unwrap();
    assert!(a_out.drain().is_empty());
    a.poll(&[], 0);
    assert!(a_out.drain().is_empty());
}

#[test]
fn transport_calls_fail_without_transport() {
    let a_out = Pipe::new();
    let mut a = Context::new(String::from("a"), &a_out, 0, false);
    assert_eq!(a.queue_frame(1, &[1], 1), Err(String::from("no transport support.")));
    assert_eq!(a.reset_transport(true), Err(String::from("no transport support.")));
    assert!(a_out.drain().is_empty());
}

#[test]
fn fifo_holds_at_most_31_frames() {
    let a_out = Pipe::new();
    let mut a = Context::new(String::from("a"), &a_out, 0, true);
    for i in 0..31u8 {
        assert_eq!(a.queue_frame(i, &[i], 1), Ok(()));
    }
    assert_eq!(a.queue_frame(31, &[31], 1), Err(String::from("transport fifo full.")));
}

#[test]
fn window_opens_at_most_sixteen_frames() {
    let a_out = Pipe::new();
    let mut a = Context::new(String::from("a"), &a_out, 0, true);
    for i in 0..20u8 {
        a.queue_frame(1, &[i], 1).unwrap();
    }
    let mut sent = 0;
    for _ in 0..20 {
        a.poll(&[], 0);
        if !a_out.drain().is_empty() {
            sent += 1;
        }
    }
    assert_eq!(sent, 16);
}

#[test]
fn transport_frame_new_copies_payload() {
    let f = TransportFrame::new(9, &[1, 2, 3, 4], 3);
    assert_eq!(f.min_id, 9);
    assert_eq!(f.payload_len, 3);
    assert_eq!(f.seq, 0);
    assert_eq!(f.last_sent_time_ms, 0);
    assert_eq!(&f.payload[0..4], &[1, 2, 3, 0]);
    assert!(f.payload[3..].iter().all(|b| *b == 0));
}

#[test]
fn transport_pop_and_reset() {
    let mut t = Transport::new();
    assert_eq!(t.n_frames, 0);
    assert_eq!(t.last_sent_ack_time_ms, t.last_received_anything_ms);
    t.frames.push_back(TransportFrame::new(1, &[1], 1));
    t.frames.push_back(TransportFrame::new(2, &[2], 1));
    t.n_frames = 2;
    t.pop();
    assert_eq!(t.n_frames, 1);
    assert_eq!(t.frames[0].min_id, 2);
    t.sn_max = 3;
    t.rn = 4;
    t.resets_received = 5;
    t.reset_transport_fifo();
    assert_eq!(t.frames.len(), 0);
    assert_eq!((t.n_frames, t.sn_min, t.sn_max, t.rn), (0, 0, 0, 0));
    assert_eq!(t.last_received_frame_ms, 0);
    assert_eq!(t.get_reset_cnt(), 5);
    assert_eq!(t.get_drop_cnt(), 0);
    assert_eq!(t.get_spurious_ack_cnt(), 0);
}
