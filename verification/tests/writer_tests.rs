use rusty_nrrd::reader::read_nrrd;
use rusty_nrrd::writer::write_nrrd;

#[test]
fn writes_fields_in_priority_order_then_stored_order() {
    // The header declares the fields out of order; the writer puts type,
    // dimension and sizes first, then the rest in stored order.
    let mut input =
        b"NRRD0005\nencoding: raw\ntype: uint8\ndimension: 1\nsizes: 3\nendian: little\n\n"
            .to_vec();
    input.extend_from_slice(b"abc");
    let nrrd = read_nrrd(&input).unwrap();
    let out = write_nrrd(&nrrd);
    let mut expected =
        b"NRRD0005\ntype: uint8\ndimension: 1\nsizes: 3\nencoding: raw\nendian: little\n\n"
            .to_vec();
    expected.extend_from_slice(b"abc");
    assert_eq!(out, expected);
}

#[test]
fn write_after_read_reproduces_an_already_ordered_header() {
    let mut input =
        b"NRRD0005\ntype: float\ndimension: 2\nsizes: 2 2\nendian: little\nencoding: raw\n\n"
            .to_vec();
    for v in [1.0f32, 2.0, 3.0, 4.0] {
        input.extend_from_slice(&v.to_le_bytes());
    }
    let nrrd = read_nrrd(&input).unwrap();
    let out = write_nrrd(&nrrd);
    assert_eq!(out, input);
}

#[test]
fn key_values_come_after_fields_and_payload_is_verbatim() {
    let mut input = b"NRRD0005\ntype: uint8\ndimension: 1\nsizes: 2\nencoding: raw\nk:=v\n\n"
        .to_vec();
    input.extend_from_slice(&[0x00, 0xff]);
    let nrrd = read_nrrd(&input).unwrap();
    let out = write_nrrd(&nrrd);
    let mut expected = b"NRRD0005\ntype: uint8\ndimension: 1\nsizes: 2\nencoding: raw\nk:=v\n\n"
        .to_vec();
    expected.extend_from_slice(&[0x00, 0xff]);
    assert_eq!(out, expected);
}

#[test]
fn no_trailing_newline_after_the_payload() {
    let input = b"NRRD0005\ntype: uint8\ndimension: 1\nsizes: 1\nencoding: raw\n\nZ".to_vec();
    let nrrd = read_nrrd(&input).unwrap();
    let out = write_nrrd(&nrrd);
    assert_eq!(*out.last().unwrap(), b'Z');
}
