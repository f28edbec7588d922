use min_rs::{Context, Error, Interface};
use std::cell::RefCell;

struct CaptureLine {
    space: u16,
    bytes: RefCell<Vec<u8>>,
}

impl CaptureLine {
    fn with_space(space: u16) -> Self {
        CaptureLine { space: space, bytes: RefCell::new(Vec::new()) }
    }

    fn take(&self) -> Vec<u8> {
        self.bytes.borrow_mut().drain(..).collect()
    }
}

impl Interface for CaptureLine {
    fn tx_space(&self) -> u16 {
        self.space
    }
    fn tx_start(&self) {}
    fn tx_finished(&self) {}
    fn tx_byte(&self, _port: u8, byte: u8) {
        self.bytes.borrow_mut().push(byte);
    }
}

const WELL_FORMED: [u8; 19] = [
    0xaa, 0xaa, 0xaa, 0x00, 0x08, 0xaa, 0xaa, 0x55, 0xaa, 0x00, 0x00, 0x00, 0x00, 0x00, 0x38, 0x83,
    0x8f, 0x82, 0x55,
];

fn encoded(id: u8, payload: &[u8]) -> Vec<u8> {
    let line = CaptureLine::with_space(512);
    let mut tx = Context::new(String::from("tx"), &line, 0, false);
    match tx.send_frame(id, payload, payload.len() as u8) {
        Ok(n) => assert_eq!(n as usize, payload.len()),
        Err(_) => panic!("send refused"),
    }
    line.take()
}

fn received(bytes: &[u8], t_min: bool) -> Vec<(u8, u8, Vec<u8>, u8)> {
    let line = CaptureLine::with_space(512);
    let mut rx = Context::new(String::from("rx"), &line, 7, t_min);
    rx.poll(bytes, bytes.len() as u32);
    let mut out = Vec::new();
    while let Ok(m) = rx.get_msg() {
        out.push((m.min_id, m.len, m.buf, m.port));
    }
    out.reverse();
    out
}

#[test]
fn basic_send_of_stuffed_payload() {
    let payload: [u8; 8] = [0xaa, 0xaa, 0xaa, 0, 0, 0, 0, 1];
    let wire = encoded(0, &payload);
    assert_eq!(&wire[0..5], &[0xaa, 0xaa, 0xaa, 0x00, 0x08]);
    assert_eq!(&wire[5..14], &[0xaa, 0xaa, 0x55, 0xaa, 0, 0, 0, 0, 1]);
    assert_eq!(wire.len(), 3 + 2 + 9 + 4 + 1);
    assert_eq!(*wire.last().unwrap(), 0x55);
    let msgs = received(&wire, false);
    assert_eq!(msgs, vec![(0u8, 8u8, payload.to_vec(), 7u8)]);
}

#[test]
fn well_formed_frame_is_delivered() {
    let line = CaptureLine::with_space(128);
    let mut rx = Context::new(String::from("rx"), &line, 3, false);
    rx.poll(&WELL_FORMED, WELL_FORMED.len() as u32);
    assert_eq!(rx.get_rx_frame_checksum(), 0x38838f82);
    assert_eq!(rx.get_rx_frame_len(), 8);
    match rx.get_msg() {
        Ok(m) => {
            assert_eq!(m.min_id, 0);
            assert_eq!(m.len, 8);
            assert_eq!(m.buf, vec![0xaa, 0xaa, 0xaa, 0, 0, 0, 0, 0]);
            assert_eq!(m.port, 3);
        },
        Err(_) => panic!("no message"),
    }
    assert!(matches!(rx.get_msg(), Err(Error::NoMsg)));
}

#[test]
fn well_formed_frame_matches_encoder() {
    let wire = encoded(0, &[0xaa, 0xaa, 0xaa, 0, 0, 0, 0, 0]);
    assert_eq!(wire, WELL_FORMED.to_vec());
}

#[test]
fn round_trip_various_payloads() {
    let mut long: Vec<u8> = Vec::new();
    for i in 0..255u32 {
        long.push((i * 37 % 256) as u8);
    }
    let cases: Vec<(u8, Vec<u8>)> = vec![
        (0, vec![]),
        (5, vec![0x55]),
        (0x3f, vec![0xaa]),
        (0x21, vec![0xaa; 255]),
        (0x12, long),
    ];
    for (id, p) in cases {
        let wire = encoded(id, &p);
        assert_eq!(received(&wire, false), vec![(id, p.len() as u8, p.clone(), 7u8)]);
        assert_eq!(received(&wire, true), vec![(id, p.len() as u8, p.clone(), 7u8)]);
    }
}

#[test]
fn send_masks_id_to_six_bits() {
    let wire = encoded(0x7f, &[1, 2]);
    assert_eq!(wire[3], 0x3f);
    assert_eq!(received(&wire, false), vec![(0x3f, 2, vec![1, 2], 7)]);
}

#[test]
fn no_triple_header_inside_frame() {
    for p in [vec![0xaa; 255], vec![0xaa, 0xaa, 0x00, 0xaa, 0xaa, 0xaa], vec![]] {
        let wire = encoded(0x2a, &p);
        assert_eq!(&wire[0..3], &[0xaa, 0xaa, 0xaa]);
        let body = &wire[3..];
        for w in body.windows(3) {
            assert!(!(w[0] == 0xaa && w[1] == 0xaa && w[2] == 0xaa));
        }
    }
}

#[test]
fn noise_before_frame_is_absorbed() {
    let wire = encoded(9, &[4, 5, 6]);
    let mut stream: Vec<u8> = vec![0x13, 0xaa, 0x55, 0x00, 0xaa, 0xaa, 0x01, 0xff, 0x55];
    stream.extend_from_slice(&wire);
    assert_eq!(received(&stream, false), vec![(9, 3, vec![4, 5, 6], 7)]);
}

#[test]
fn second_header_abandons_frame_in_progress() {
    let mut stream: Vec<u8> = vec![0xaa, 0xaa, 0xaa, 0x00, 0x08];
    stream.extend_from_slice(&WELL_FORMED);
    let line = CaptureLine::with_space(128);
    let mut rx = Context::new(String::from("rx"), &line, 0, false);
    rx.poll(&stream, stream.len() as u32);
    assert_eq!(rx.get_rx_frame_checksum(), 0x38838f82);
    assert!(rx.get_msg().is_ok());
    assert!(rx.get_msg().is_err());
}

#[test]
fn any_flipped_checksum_bit_drops_frame() {
    let wire = encoded(1, &[10, 20, 30]);
    let n = wire.len();
    // The four checksum bytes sit just before the end-of-frame byte.
    for pos in n - 5..n - 1 {
        for bit in 0..8 {
            let mut bad = wire.clone();
            bad[pos] ^= 1 << bit;
            assert_eq!(received(&bad, false), vec![]);
        }
    }
}

#[test]
fn flipped_payload_or_header_bit_drops_frame() {
    let wire = encoded(1, &[10, 20, 30]);
    for pos in 3..8 {
        for bit in 0..8 {
            let mut bad = wire.clone();
            bad[pos] ^= 1 << bit;
            assert_eq!(received(&bad, false), vec![]);
        }
    }
}

#[test]
fn corrupted_length_drops_frame() {
    let mut bad = WELL_FORMED;
    bad[4] = 0x02;
    let line = CaptureLine::with_space(128);
    let mut rx = Context::new(String::from("rx"), &line, 0, false);
    rx.poll(&bad, bad.len() as u32);
    assert!(matches!(rx.get_msg(), Err(Error::NoMsg)));
    assert_eq!(rx.get_rx_frame_checksum(), 0xaa000000);
}

#[test]
fn corrupted_checksum_drops_frame() {
    let mut bad = WELL_FORMED;
    bad[14] = 0x00;
    let line = CaptureLine::with_space(128);
    let mut rx = Context::new(String::from("rx"), &line, 0, false);
    rx.poll(&bad, bad.len() as u32);
    assert!(matches!(rx.get_msg(), Err(Error::NoMsg)));
    assert_eq!(rx.get_rx_frame_checksum(), 0x00838f82);
    assert_eq!(rx.get_rx_checksum(), 0x38838f82);
}

#[test]
fn transport_frame_ignored_without_transport() {
    let line = CaptureLine::with_space(512);
    let mut tx = Context::new(String::from("tx"), &line, 0, true);
    tx.queue_frame(2, &[1, 2, 3], 3).unwrap();
    tx.poll(&[], 0);
    let wire = line.take();
    assert_eq!(wire[3], 0x82);
    assert_eq!(received(&wire, false), vec![]);
}

#[test]
fn messages_come_out_last_first() {
    let mut stream = encoded(1, &[1]);
    stream.extend(encoded(2, &[2, 2]));
    let line = CaptureLine::with_space(128);
    let mut rx = Context::new(String::from("rx"), &line, 0, false);
    rx.poll(&stream, stream.len() as u32);
    assert_eq!(rx.get_msg().ok().map(|m| m.min_id), Some(2));
    assert_eq!(rx.get_msg().ok().map(|m| m.min_id), Some(1));
    assert!(rx.get_msg().is_err());
}

#[test]
fn poll_reads_only_the_given_length() {
    let line = CaptureLine::with_space(128);
    let mut rx = Context::new(String::from("rx"), &line, 0, false);
    rx.poll(&WELL_FORMED, 18);
    assert!(rx.get_msg().is_err());
    rx.poll(&WELL_FORMED[18..], 1);
    assert!(rx.get_msg().is_ok());
}

#[test]
fn send_needs_length_plus_eleven() {
    let payload = [0u8; 255];
    let fits = CaptureLine::with_space(19);
    let mut a = Context::new(String::from("a"), &fits, 0, false);
    assert!(matches!(a.send_frame(0, &payload, 8), Ok(8)));
    assert!(!fits.take().is_empty());
    let tight = CaptureLine::with_space(18);
    let mut b = Context::new(String::from("b"), &tight, 0, false);
    assert!(matches!(b.send_frame(0, &payload, 8), Err(Error::NoEnoughTxSpace(65526))));
    assert!(tight.take().is_empty());
}

#[test]
fn check_tx_space_values() {
    assert!(matches!(min_rs::check_tx_space(8, 19), Ok(8)));
    assert!(matches!(min_rs::check_tx_space(0, 11), Ok(0)));
    assert!(matches!(min_rs::check_tx_space(0, 10), Err(Error::NoEnoughTxSpace(65526))));
    assert!(matches!(min_rs::check_tx_space(129, 128), Err(Error::NoEnoughTxSpace(1))));
    assert!(matches!(min_rs::check_tx_space(255, 266), Ok(255)));
    assert!(matches!(min_rs::check_tx_space(255, 0), Err(Error::NoEnoughTxSpace(255))));
}
