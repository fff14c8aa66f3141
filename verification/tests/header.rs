use qoi::{Error, Header};

#[test]
fn try_new_accepts_valid_dimensions() {
    assert_eq!(Header::try_new(1, 1, None), Ok(Header { width: 1, height: 1, length: None }));
    assert_eq!(
        Header::try_new(640, 480, Some(9)),
        Ok(Header { width: 640, height: 480, length: Some(9) })
    );
    assert_eq!(
        Header::try_new(65535, 1, None),
        Ok(Header { width: 65535, height: 1, length: None })
    );
}

#[test]
fn try_new_accepts_exactly_the_largest_image() {
    // 20000 x 20000 = 400 000 000 pixels
    assert_eq!(
        Header::try_new(20000, 20000, None),
        Ok(Header { width: 20000, height: 20000, length: None })
    );
}

#[test]
fn try_new_refuses_an_empty_image() {
    assert_eq!(
        Header::try_new(0, 7, None),
        Err(Error::InvalidImageDimensions { width: 0, height: 7 })
    );
    assert_eq!(
        Header::try_new(7, 0, Some(1)),
        Err(Error::InvalidImageDimensions { width: 7, height: 0 })
    );
    assert_eq!(
        Header::try_new(0, 0, None),
        Err(Error::InvalidImageDimensions { width: 0, height: 0 })
    );
}

#[test]
fn try_new_refuses_too_many_pixels() {
    // 20001 x 20000 = 400 020 000 pixels
    assert_eq!(
        Header::try_new(20001, 20000, None),
        Err(Error::InvalidImageDimensions { width: 20001, height: 20000 })
    );
    assert_eq!(
        Header::try_new(65535, 65535, None),
        Err(Error::InvalidImageDimensions { width: 65535, height: 65535 })
    );
}

#[test]
fn encode_lays_the_fields_out_least_significant_byte_first() {
    let header = Header { width: 0x0102, height: 0x0304, length: Some(0x0506_0708) };
    assert_eq!(
        header.encode(),
        Ok([b'q', b'o', b'i', b'f', 0x02, 0x01, 0x04, 0x03, 0x08, 0x07, 0x06, 0x05])
    );
}

#[test]
fn encode_needs_the_data_length() {
    let header = Header { width: 3, height: 4, length: None };
    assert_eq!(header.encode(), Err(Error::DataLengthNotSet));
}

#[test]
fn decode_reads_what_encode_wrote() {
    let header = Header { width: 0x0102, height: 0x0304, length: Some(0x0506_0708) };
    let bytes = header.encode().unwrap();
    assert_eq!(Header::decode(&bytes), Ok(header));
}

#[test]
fn decode_ignores_what_follows_the_header() {
    let bytes = [b'q', b'o', b'i', b'f', 2, 0, 1, 0, 3, 0, 0, 0, 0xaa, 0x88, 0xc0];
    assert_eq!(Header::decode(&bytes), Ok(Header { width: 2, height: 1, length: Some(3) }));
}

#[test]
fn decode_needs_twelve_bytes() {
    let bytes = [b'q', b'o', b'i', b'f', 2, 0, 1, 0, 3, 0, 0];
    assert_eq!(Header::decode(&bytes), Err(Error::UnexpectedBufferEnd));
    assert_eq!(Header::decode(&[]), Err(Error::UnexpectedBufferEnd));
}

#[test]
fn decode_checks_the_magic_bytes() {
    let bytes = [b'q', b'o', b'i', b'g', 2, 0, 1, 0, 3, 0, 0, 0];
    assert_eq!(Header::decode(&bytes), Err(Error::InvalidMagic { magic: 0x6769_6f71 }));
}

#[test]
fn decode_checks_the_magic_bytes_before_the_dimensions() {
    let bytes = [0, 0, 0, 0, 0, 0, 0, 0, 0, 0, 0, 0];
    assert_eq!(Header::decode(&bytes), Err(Error::InvalidMagic { magic: 0 }));
}

#[test]
fn decode_validates_the_dimensions() {
    let bytes = [b'q', b'o', b'i', b'f', 0, 0, 1, 0, 3, 0, 0, 0];
    assert_eq!(
        Header::decode(&bytes),
        Err(Error::InvalidImageDimensions { width: 0, height: 1 })
    );
    let bytes = [b'q', b'o', b'i', b'f', 0xff, 0xff, 0xff, 0xff, 3, 0, 0, 0];
    assert_eq!(
        Header::decode(&bytes),
        Err(Error::InvalidImageDimensions { width: 65535, height: 65535 })
    );
}

#[test]
fn sizes_follow_from_the_dimensions() {
    let header = Header { width: 3, height: 4, length: None };
    assert_eq!(header.n_pixels(), 12);
    assert_eq!(header.n_bytes(), 48);
    assert_eq!(header.encode_max_len(), 12 + 48 + 12 + 8);
}

#[test]
fn sizes_of_the_largest_image() {
    let header = Header { width: 20000, height: 20000, length: None };
    assert_eq!(header.n_pixels(), 400_000_000);
    assert_eq!(header.n_bytes(), 1_600_000_000);
    assert_eq!(header.encode_max_len(), 2_000_000_020);
}

#[test]
fn sizes_of_an_empty_header_are_zero() {
    let header = Header { width: 0, height: 9, length: None };
    assert_eq!(header.n_pixels(), 0);
    assert_eq!(header.n_bytes(), 0);
    assert_eq!(header.encode_max_len(), 20);
}
