use min_rs::crc;
use min_rs::crc32;

fn run_seeded(reversed: bool, refin: bool, refout: bool, data: &[u8]) -> u32 {
    let mut c = crc::Crc32Context::new(0xffffffff, reversed, refin, refout);
    for b in data {
        c.step(*b);
    }
    c.finalize()
}

fn run_fixed(reversed: bool, refin: bool, refout: bool, data: &[u8]) -> u32 {
    let mut c = crc32::Crc32Context::new(reversed, refin, refout);
    for b in data {
        c.step(*b);
    }
    c.finalize()
}

#[test]
fn reversed_crc_check_value() {
    assert_eq!(run_seeded(true, false, false, b"123456789"), 0xcbf43926);
    assert_eq!(run_fixed(true, false, false, b"123456789"), 0xcbf43926);
}

#[test]
fn normal_crc_check_value() {
    // CRC-32/BZIP2
    assert_eq!(run_seeded(false, false, false, b"123456789"), 0xfc891918);
    assert_eq!(run_fixed(false, false, false, b"123456789"), 0xfc891918);
}

#[test]
fn normal_crc_with_reflection_is_standard_crc() {
    assert_eq!(run_seeded(false, true, true, b"123456789"), 0xcbf43926);
    assert_eq!(run_fixed(false, true, true, b"123456789"), 0xcbf43926);
}

#[test]
fn frame_fields_checksum() {
    let fields = [0x00, 0x08, 0xaa, 0xaa, 0xaa, 0x00, 0x00, 0x00, 0x00, 0x00];
    assert_eq!(run_seeded(true, false, false, &fields), 0x38838f82);
    assert_eq!(run_seeded(true, false, false, &[0x00, 0x02, 0xaa, 0xaa]), 0x402b15e7);
}

#[test]
fn empty_input_and_other_seed() {
    assert_eq!(run_seeded(true, false, false, &[]), 0);
    let mut c = crc::Crc32Context::new(0, true, false, false);
    assert_eq!(c.finalize(), 0xffffffff);
    c.step(0);
    assert_eq!(c.finalize(), 0xffffffff);
}
