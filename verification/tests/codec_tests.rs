use rusty_nrrd::header::Endian;
use rusty_nrrd::pixel::{F32Bits, F64Bits, PixelValue};

fn roundtrip<T: PixelValue + PartialEq + std::fmt::Debug>(v: T, e: Endian, width: usize) {
    let mut buf: Vec<u8> = Vec::new();
    v.to_bytes(&mut buf, e);
    assert_eq!(buf.len(), width);
    let r = T::from_bytes(&buf, 0, e);
    assert_eq!(r, v);
}

#[test]
fn roundtrip_unsigned_both_endians() {
    for e in [Endian::Little, Endian::Big] {
        roundtrip(0u8, e, 1);
        roundtrip(0xabu8, e, 1);
        roundtrip(0xbeefu16, e, 2);
        roundtrip(0xdeadbeefu32, e, 4);
        roundtrip(0x0123_4567_89ab_cdefu64, e, 8);
        roundtrip(u64::MAX, e, 8);
    }
}

#[test]
fn roundtrip_signed_both_endians() {
    for e in [Endian::Little, Endian::Big] {
        roundtrip(-1i8, e, 1);
        roundtrip(i8::MIN, e, 1);
        roundtrip(-2i16, e, 2);
        roundtrip(i16::MIN, e, 2);
        roundtrip(-123456i32, e, 4);
        roundtrip(i32::MIN, e, 4);
        roundtrip(-99i64, e, 8);
        roundtrip(i64::MIN, e, 8);
    }
}

#[test]
fn roundtrip_float_bits_both_endians() {
    for e in [Endian::Little, Endian::Big] {
        roundtrip(F32Bits { bits: 1.5f32.to_bits() }, e, 4);
        roundtrip(F64Bits { bits: (-2.25f64).to_bits() }, e, 8);
        // NaN payloads survive bit-exactly: the codec reinterprets bytes.
        roundtrip(F32Bits { bits: 0x7fc0_0abc }, e, 4);
        roundtrip(F64Bits { bits: 0x7ff8_0000_0000_beef }, e, 8);
    }
}

#[test]
fn exact_bytes_little_endian() {
    let mut buf: Vec<u8> = Vec::new();
    0x0102_0304u32.to_bytes(&mut buf, Endian::Little);
    assert_eq!(buf, vec![0x04, 0x03, 0x02, 0x01]);
}

#[test]
fn exact_bytes_big_endian() {
    let mut buf: Vec<u8> = Vec::new();
    0x0102_0304u32.to_bytes(&mut buf, Endian::Big);
    assert_eq!(buf, vec![0x01, 0x02, 0x03, 0x04]);
}

#[test]
fn exact_bytes_negative_i16() {
    let mut buf: Vec<u8> = Vec::new();
    (-2i16).to_bytes(&mut buf, Endian::Little);
    assert_eq!(buf, vec![0xfe, 0xff]);
}

#[test]
fn decode_at_offset() {
    let bytes = [0u8, 0x2a, 0x00, 0xff];
    assert_eq!(u16::from_bytes(&bytes, 1, Endian::Little), 0x002a);
    assert_eq!(u16::from_bytes(&bytes, 1, Endian::Big), 0x2a00);
}
