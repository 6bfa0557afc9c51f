use rusty_nrrd::header::{Encoding, Endian, PixelType, Version};
use rusty_nrrd::image::{Image, ImageFromNrrdErr};
use rusty_nrrd::pixel::F32Bits;
use rusty_nrrd::reader::read_nrrd;
use rusty_nrrd::writer::write_nrrd;

fn float_input() -> Vec<u8> {
    let mut input =
        b"NRRD0005\ntype: float\ndimension: 2\nsizes: 2 2\nendian: little\nencoding: raw\n\n"
            .to_vec();
    for v in [1.0f32, 2.0, 3.0, 4.0] {
        input.extend_from_slice(&v.to_le_bytes());
    }
    input
}

#[test]
fn decode_float_header_scenario() {
    let img: Image<F32Bits, 2> = Image::try_read_nrrd(&float_input()).unwrap();
    assert_eq!(*img.sizes(), [2usize, 2]);
    let pix = img.pixels();
    assert_eq!(pix.len(), 4);
    for (i, v) in [1.0f32, 2.0, 3.0, 4.0].iter().enumerate() {
        assert_eq!(pix[i].bits, v.to_bits());
    }
}

#[test]
fn gzip_encoding_parses_but_fails_image_reconstruction() {
    let mut input =
        b"NRRD0005\ntype: float\ndimension: 2\nsizes: 2 2\nendian: little\nencoding: gzip\n\n"
            .to_vec();
    for v in [1.0f32, 2.0, 3.0, 4.0] {
        input.extend_from_slice(&v.to_le_bytes());
    }
    let nrrd = read_nrrd(&input).unwrap();
    assert!(matches!(nrrd.encoding(), Encoding::GZip));
    let r: Result<Image<F32Bits, 2>, _> = Image::try_from_nrrd(&nrrd);
    assert!(matches!(r, Err(ImageFromNrrdErr::UnsupportedEncoding)));
}

#[test]
fn wrong_dimension_and_wrong_pixel_type_are_distinct_errors() {
    let nrrd = read_nrrd(&float_input()).unwrap();
    let three: Result<Image<F32Bits, 3>, _> = Image::try_from_nrrd(&nrrd);
    assert!(matches!(three, Err(ImageFromNrrdErr::DimensionsDoNotMatch)));
    let ints: Result<Image<i32, 2>, _> = Image::try_from_nrrd(&nrrd);
    assert!(matches!(ints, Err(ImageFromNrrdErr::PixelTypesDoNotMatch)));
}

#[test]
fn unparsable_bytes_surface_the_parse_error() {
    let r: Result<Image<F32Bits, 2>, _> = Image::try_read_nrrd(b"not a header");
    assert!(matches!(r, Err(ImageFromNrrdErr::CannotReadNrrd(_))));
}

#[test]
fn image_round_trip_through_record() {
    // P: encoding an image of shape [2, 3] with known values, then decoding
    // the produced record, yields an identical pixel buffer and shape.
    let values = [1.0f32, -2.5, 0.0, f32::INFINITY, 3.25, -0.0];
    let buffer: Vec<F32Bits> = values.iter().map(|v| F32Bits { bits: v.to_bits() }).collect();
    let img: Image<F32Bits, 2> = Image { buffer, sizes: [2, 3] };
    let nrrd = img.to_nrrd();
    assert_eq!(nrrd.version(), Version::Nrrd5);
    assert_eq!(nrrd.dimension(), 2);
    assert_eq!(nrrd.sizes().as_slice(), &[2, 3]);
    assert_eq!(nrrd.pixel_type(), PixelType::Float32);
    assert!(matches!(nrrd.endian(), Endian::Little));
    assert!(matches!(nrrd.encoding(), Encoding::Raw));
    assert!(nrrd.key_values().is_empty());
    let back: Image<F32Bits, 2> = Image::try_from_nrrd(&nrrd).unwrap();
    assert_eq!(*back.sizes(), [2usize, 3]);
    for (i, v) in values.iter().enumerate() {
        assert_eq!(back.pixels()[i].bits, v.to_bits());
    }
}

#[test]
fn image_round_trip_through_wire_bytes() {
    let values = [10i16, -20, 30, -40];
    let img: Image<i16, 2> = Image { buffer: values.to_vec(), sizes: [4, 1] };
    let bytes = write_nrrd(&img.to_nrrd());
    let back: Image<i16, 2> = Image::try_read_nrrd(&bytes).unwrap();
    assert_eq!(back.pixels(), &values[..]);
    assert_eq!(*back.sizes(), [4usize, 1]);
}

#[test]
fn synthesized_fields_of_an_encoded_image() {
    let img: Image<u8, 1> = Image { buffer: vec![7, 8], sizes: [2] };
    let nrrd = img.to_nrrd();
    let fields = nrrd.fields();
    assert_eq!(fields.len(), 5);
    assert_eq!(fields[0].identifier, b"type".to_vec());
    assert_eq!(fields[0].descriptor, b"uint8".to_vec());
    assert_eq!(fields[1].identifier, b"dimension".to_vec());
    assert_eq!(fields[1].descriptor, b"1".to_vec());
    assert_eq!(fields[2].identifier, b"sizes".to_vec());
    assert_eq!(fields[2].descriptor, b"2".to_vec());
    assert_eq!(fields[3].identifier, b"endian".to_vec());
    assert_eq!(fields[3].descriptor, b"little".to_vec());
    assert_eq!(fields[4].identifier, b"encoding".to_vec());
    assert_eq!(fields[4].descriptor, b"raw".to_vec());
}

#[test]
fn big_endian_payload_decodes_respecting_byte_order() {
    let input =
        b"NRRD0005\ntype: uint16\ndimension: 1\nsizes: 2\nendian: big\nencoding: raw\n\n\x01\x02\x03\x04"
            .to_vec();
    let img: Image<u16, 1> = Image::try_read_nrrd(&input).unwrap();
    assert_eq!(img.pixels(), &[0x0102u16, 0x0304]);
}

#[test]
fn new_fills_with_the_background_value() {
    let img: Image<u8, 2> = Image::new(9, [3, 2]);
    assert_eq!(img.pixels_count(), 6);
    assert_eq!(img.pixels(), &[9u8; 6][..]);
    assert_eq!(*img.sizes(), [3usize, 2]);
}

#[test]
fn get_and_set_use_first_axis_fastest_order() {
    let mut img: Image<u32, 2> = Image::new(0, [2, 3]);
    img.set(&[1, 0], 10);
    img.set(&[0, 2], 42);
    assert_eq!(*img.get(&[1, 0]), 10);
    assert_eq!(*img.get(&[0, 2]), 42);
    // offset of [1, 0] is 1; offset of [0, 2] is 0 + 2 * 2 == 4
    assert_eq!(img.pixels()[1], 10);
    assert_eq!(img.pixels()[4], 42);
}

#[test]
fn zero_sized_axis_gives_an_empty_image() {
    let img: Image<u8, 2> = Image::new(1, [0, 5]);
    assert_eq!(img.pixels_count(), 0);
    assert_eq!(img.pixels().len(), 0);
}
