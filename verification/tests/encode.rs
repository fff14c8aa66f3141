use qoi::utils::{BytesMut, Writer};
use qoi::{encode_max_len, encode_to_buf, encode_to_vec, Encoder, Error, Header};

const MAGIC: [u8; 4] = [b'q', b'o', b'i', b'f'];
const END: [u8; 8] = [0, 0, 0, 0, 0, 0, 0, 1];

/// The encoded image with the given dimensions and chunk stream.
fn image(width: u16, height: u16, chunks: &[u8]) -> Vec<u8> {
    let mut out = Vec::new();
    out.extend_from_slice(&MAGIC);
    out.extend_from_slice(&width.to_le_bytes());
    out.extend_from_slice(&height.to_le_bytes());
    out.extend_from_slice(&(chunks.len() as u32).to_le_bytes());
    out.extend_from_slice(chunks);
    out.extend_from_slice(&END);
    out
}

/// The chunk stream of a one-row image of the given samples.
fn chunks_of(data: &[u8]) -> Vec<u8> {
    let width = (data.len() / 4) as u16;
    let out = encode_to_vec(data, width, 1).unwrap();
    assert_eq!(&out[..4], &MAGIC);
    assert_eq!(&out[4..8], &[width as u8, (width >> 8) as u8, 1, 0]);
    assert_eq!(&out[8..12], &((out.len() - 20) as u32).to_le_bytes());
    assert_eq!(&out[out.len() - 8..], &END);
    out[12..out.len() - 8].to_vec()
}

fn repeat(px: [u8; 4], n: usize) -> Vec<u8> {
    let mut data = Vec::new();
    for _ in 0..n {
        data.extend_from_slice(&px);
    }
    data
}

#[test]
fn max_len_is_five_bytes_a_pixel_and_twenty() {
    assert_eq!(encode_max_len(2, 2), 40);
    assert_eq!(encode_max_len(1, 1), 25);
    assert_eq!(encode_max_len(0, 9), 20);
    assert_eq!(encode_max_len(20000, 20000), 2_000_000_020);
}

#[test]
fn two_equal_pixels_are_a_chunk_and_a_run() {
    let data = [10, 10, 10, 255, 10, 10, 10, 255];
    let out = encode_to_vec(&data, 2, 1).unwrap();
    assert_eq!(out, image(2, 1, &[0xaa, 0x88, 0xc0]));
    assert_eq!(
        out,
        vec![113, 111, 105, 102, 2, 0, 1, 0, 3, 0, 0, 0, 170, 136, 192, 0, 0, 0, 0, 0, 0, 0, 1]
    );
}

#[test]
fn two_opaque_black_pixels_are_one_run() {
    // opaque black is what the encoder takes to come before the first pixel
    let data = [0, 0, 0, 255, 0, 0, 0, 255];
    let out = encode_to_vec(&data, 2, 1).unwrap();
    assert_eq!(out, image(2, 1, &[0xc1]));
}

#[test]
fn three_pixels_with_a_leading_run() {
    // the first pixel repeats opaque black and is never stored in the cache,
    // so the third is encoded by its difference to the second
    let data = [0, 0, 0, 255, 1, 0, 0, 255, 0, 0, 0, 255];
    let out = encode_to_vec(&data, 1, 3).unwrap();
    assert_eq!(out, image(1, 3, &[0xc0, 0x7a, 0x5a]));
}

#[test]
fn a_pixel_seen_before_is_encoded_by_its_cache_slot() {
    let a = [5, 5, 5, 255];
    let b = [200, 100, 50, 255];
    let data = [a, b, a, b].concat();
    assert_eq!(chunks_of(&data), vec![0xa5, 0x88, 0xfe, 200, 100, 50, 0, 31]);
}

#[test]
fn a_repeated_pixel_then_a_cached_one() {
    // the zero pixel is in the cache from the start, in slot 0
    let data = [10, 10, 10, 255, 10, 10, 10, 255, 0, 0, 0, 0];
    assert_eq!(chunks_of(&data), vec![0xaa, 0x88, 11, 0]);
}

#[test]
fn a_single_repetition_is_closed_by_a_cache_reference() {
    let data = [5, 5, 5, 255, 5, 5, 5, 255, 200, 100, 50, 255];
    assert_eq!(chunks_of(&data), vec![0xa5, 0x88, 0x00, 0xfe, 200, 100, 50]);
}

#[test]
fn reference_mode_closes_a_single_repetition_by_a_run() {
    let data = [5, 5, 5, 255, 5, 5, 5, 255, 200, 100, 50, 255];
    let mut encoder = Encoder::new(&data, 3, 1).unwrap().with_reference(true);
    let out = encoder.encode_to_vec().unwrap();
    assert_eq!(out, image(3, 1, &[0xa5, 0x88, 0xc0, 0xfe, 200, 100, 50]));
    let mut encoder = Encoder::new(&data, 3, 1).unwrap().with_reference(false);
    let out = encoder.encode_to_vec().unwrap();
    assert_eq!(out, image(3, 1, &[0xa5, 0x88, 0x00, 0xfe, 200, 100, 50]));
}

#[test]
fn a_longer_run_is_closed_by_a_run_chunk() {
    let data = [5, 5, 5, 255, 5, 5, 5, 255, 5, 5, 5, 255, 200, 100, 50, 255];
    assert_eq!(chunks_of(&data), vec![0xa5, 0x88, 0xc1, 0xfe, 200, 100, 50]);
}

#[test]
fn uniform_images_are_a_chunk_and_runs() {
    let px = [9, 8, 7, 255];
    assert_eq!(chunks_of(&repeat(px, 1)), vec![0xa8, 0x97]);
    assert_eq!(chunks_of(&repeat(px, 2)), vec![0xa8, 0x97, 0xc0]);
    assert_eq!(chunks_of(&repeat(px, 5)), vec![0xa8, 0x97, 0xc3]);
    assert_eq!(chunks_of(&repeat(px, 63)), vec![0xa8, 0x97, 0xfd]);
    assert_eq!(chunks_of(&repeat(px, 64)), vec![0xa8, 0x97, 0xfd, 0xc0]);
    assert_eq!(chunks_of(&repeat(px, 126)), vec![0xa8, 0x97, 0xfd, 0xfd, 0xc0]);
}

#[test]
fn uniform_run_lengths_add_up() {
    let px = [9, 8, 7, 255];
    for n in 2..400usize {
        let chunks = chunks_of(&repeat(px, n));
        assert_eq!(&chunks[..2], &[0xa8, 0x97]);
        let mut total = 0usize;
        for &byte in &chunks[2..] {
            assert!((0xc0..=0xfd).contains(&byte));
            total += (byte - 0xc0) as usize + 1;
        }
        assert_eq!(total, n - 1);
        assert_eq!(chunks.len(), 2 + (n - 1 + 61) / 62);
    }
}

#[test]
fn uniform_opaque_black_is_runs_only() {
    let px = [0, 0, 0, 255];
    assert_eq!(chunks_of(&repeat(px, 1)), vec![0xc0]);
    assert_eq!(chunks_of(&repeat(px, 3)), vec![0xc2]);
    assert_eq!(chunks_of(&repeat(px, 62)), vec![0xfd]);
    assert_eq!(chunks_of(&repeat(px, 63)), vec![0xfd, 0xc0]);
    assert_eq!(chunks_of(&repeat(px, 125)), vec![0xfd, 0xfd, 0xc0]);
}

#[test]
fn uniform_zero_pixels_start_with_a_cache_reference() {
    assert_eq!(chunks_of(&repeat([0, 0, 0, 0], 2)), vec![0x00, 0xc0]);
}

#[test]
fn a_change_within_luma_range_is_no_literal() {
    assert_eq!(chunks_of(&[0, 5, 0, 255]), vec![0xa5, 0x33]);
    // differing in green only, by 5 and then by -5: the third pixel is in
    // the cache, the second is not
    let data = [0, 10, 0, 255, 0, 15, 0, 255, 0, 10, 0, 255];
    assert_eq!(chunks_of(&data), vec![0xfe, 0, 10, 0, 0xa5, 0x33, 39]);
}

#[test]
fn a_change_of_alpha_is_a_literal_with_alpha() {
    assert_eq!(chunks_of(&[0, 0, 0, 254]), vec![0xff, 0, 0, 0, 254]);
    let data = [7, 7, 7, 255, 7, 7, 7, 254];
    assert_eq!(chunks_of(&data), vec![0xa7, 0x88, 0xff, 7, 7, 7, 254]);
}

#[test]
fn a_cached_pixel_is_indexed_even_when_alpha_changes() {
    assert_eq!(chunks_of(&[0, 0, 0, 0]), vec![0x00]);
}

#[test]
fn noise_takes_the_maximum_length() {
    let data = [1, 2, 3, 4, 5, 6, 7, 8, 9, 10, 11, 12];
    let out = encode_to_vec(&data, 3, 1).unwrap();
    assert_eq!(
        out,
        image(3, 1, &[0xff, 1, 2, 3, 4, 0xff, 5, 6, 7, 8, 0xff, 9, 10, 11, 12])
    );
    assert_eq!(out.len(), encode_max_len(3, 1));
}

#[test]
fn a_change_of_colour_alone_stays_under_the_maximum_length() {
    let out = encode_to_vec(&[1, 0, 0, 255], 1, 1).unwrap();
    assert_eq!(out, image(1, 1, &[0x7a]));
    assert!(out.len() < encode_max_len(1, 1));
}

/// A small generator of test images: a linear congruential sequence drives
/// the choice between repeating, nudging and replacing the pixel.
struct Source(u32);

impl Source {
    fn next(&mut self) -> i32 {
        self.0 = self.0.wrapping_mul(1103515245).wrapping_add(12345) & 0x7fff_ffff;
        (self.0 >> 16) as i32
    }
}

fn generated(n: usize) -> Vec<u8> {
    let mut source = Source(12345);
    let mut px = [0i32, 0, 0, 255];
    let mut data = Vec::new();
    for _ in 0..n {
        match source.next() % 6 {
            1 => {
                for c in 0..3 {
                    px[c] = (px[c] + source.next() % 4 - 2).rem_euclid(256);
                }
            }
            2 => {
                let dg = source.next() % 64 - 32;
                let dr = source.next() % 16 - 8;
                let db = source.next() % 16 - 8;
                px[0] = (px[0] + dg + dr).rem_euclid(256);
                px[1] = (px[1] + dg).rem_euclid(256);
                px[2] = (px[2] + dg + db).rem_euclid(256);
            }
            3 => {
                for c in 0..3 {
                    px[c] = source.next() % 256;
                }
            }
            4 => {
                for c in 0..3 {
                    px[c] = (source.next() % 4) * 60;
                }
                px[3] = 255;
            }
            5 => {
                for c in 0..4 {
                    px[c] = source.next() % 256;
                }
            }
            _ => {}
        }
        for c in 0..4 {
            data.push(px[c] as u8);
        }
    }
    data
}

#[test]
fn a_mixed_image_has_the_expected_chunk_stream() {
    let data = generated(400);
    assert_eq!(
        &data[..24],
        &[
            0, 0, 0, 255, 60, 120, 180, 255, 59, 120, 180, 255, 172, 27, 30, 255, 19, 112, 121,
            255, 40, 141, 157, 255
        ]
    );
    let out = encode_to_vec(&data, 20, 20).unwrap();
    assert_eq!(&out[..12], &image(20, 20, &[0u8; 1081])[..12]);
    let chunks = &out[12..out.len() - 8];
    assert_eq!(chunks.len(), 1081);
    assert_eq!(
        &chunks[..24],
        &[
            0xc0, 0xfe, 0x3c, 0x78, 0xb4, 0x5a, 0xfe, 0xac, 0x1b, 0x1e, 0xfe, 0x13, 0x70, 0x79,
            0xbd, 0x0f, 0x71, 0xfe, 0x00, 0x00, 0x3c, 0xfe, 0xb4, 0x78
        ]
    );
    let sum: u64 = chunks.iter().map(|&b| b as u64).sum();
    let weighted: u64 = chunks.iter().enumerate().map(|(i, &b)| (i as u64 + 1) * b as u64).sum();
    assert_eq!(sum % 65521, 21811);
    assert_eq!(weighted % 65521, 2445);
    assert_eq!(&out[out.len() - 8..], &END);
}

#[test]
fn a_mixed_image_decodes_to_itself() {
    // reads the chunk stream back with the pixel updates of the library
    let data = generated(400);
    let out = encode_to_vec(&data, 20, 20).unwrap();
    let chunks = &out[12..out.len() - 8];
    let mut cache = [qoi::Pixel::new(); 64];
    let mut px = qoi::Pixel::new().with_a(255);
    let mut decoded = Vec::new();
    let mut i = 0;
    while i < chunks.len() {
        let b1 = chunks[i];
        i += 1;
        let mut repeats = 1;
        if b1 == 0xfe {
            px.update_rgb(chunks[i], chunks[i + 1], chunks[i + 2]);
            i += 3;
        } else if b1 == 0xff {
            px.update_rgba(chunks[i], chunks[i + 1], chunks[i + 2], chunks[i + 3]);
            i += 4;
        } else if b1 >> 6 == 0 {
            px.update(cache[b1 as usize]);
        } else if b1 >> 6 == 1 {
            px.update_diff(b1);
        } else if b1 >> 6 == 2 {
            px.update_luma(b1, chunks[i]);
            i += 1;
        } else {
            repeats = (b1 & 0x3f) as usize + 1;
        }
        cache[px.hash_index() as usize] = px;
        for _ in 0..repeats {
            decoded.extend_from_slice(&<[u8; 4]>::from(px));
        }
    }
    assert_eq!(decoded, data);
}

#[test]
fn never_longer_than_the_maximum_length() {
    for n in 1..60usize {
        let data = generated(n);
        let out = encode_to_vec(&data, n as u16, 1).unwrap();
        assert!(out.len() <= encode_max_len(n as u16, 1));
        assert_eq!(out.len(), encode_max_len(n as u16, 1) - 5 * n + (out.len() - 20));
    }
}

#[test]
fn samples_must_match_the_dimensions() {
    let data = [0u8; 7];
    assert_eq!(
        encode_to_vec(&data, 1, 2),
        Err(Error::InvalidImageLength { size: 7, width: 1, height: 2 })
    );
    assert_eq!(
        Encoder::new(&data, 1, 2).err(),
        Some(Error::InvalidImageLength { size: 7, width: 1, height: 2 })
    );
    let mut buf = [3u8; 64];
    assert_eq!(
        encode_to_buf(&mut buf, &data, 1, 2),
        Err(Error::InvalidImageLength { size: 7, width: 1, height: 2 })
    );
    assert_eq!(buf, [3u8; 64]);
}

#[test]
fn only_three_or_four_bytes_a_pixel() {
    for size in [0usize, 2, 4, 10, 12, 16] {
        let data = vec![0u8; size];
        assert_eq!(
            Encoder::new(&data, 1, 2).err(),
            Some(Error::InvalidImageLength { size, width: 1, height: 2 })
        );
    }
    assert!(Encoder::new(&[0u8; 6], 1, 2).is_ok());
    assert!(Encoder::new(&[0u8; 8], 1, 2).is_ok());
}

#[test]
fn dimensions_must_be_valid() {
    assert_eq!(
        Encoder::new(&[], 0, 0).err(),
        Some(Error::InvalidImageLength { size: 0, width: 0, height: 0 })
    );
    assert_eq!(
        Encoder::new(&[0u8; 8], 0, 2).err(),
        Some(Error::InvalidImageLength { size: 8, width: 0, height: 2 })
    );
    assert_eq!(
        encode_to_vec(&[0u8; 8], 20001, 20000),
        Err(Error::InvalidImageLength { size: 8, width: 20001, height: 20000 })
    );
}

#[test]
fn samples_are_read_four_bytes_at_a_time() {
    // six bytes for two pixels: the first four are a sample, the rest is not
    let data = [1, 2, 3, 4, 5, 6];
    let out = encode_to_vec(&data, 1, 2).unwrap();
    assert_eq!(out, image(1, 2, &[0xff, 1, 2, 3, 4]));
}

#[test]
fn buffer_too_small_is_refused() {
    let data = [0u8; 16];
    let mut buf = [7u8; 39];
    let r = encode_to_buf(&mut buf, &data, 2, 2);
    assert_eq!(r, Err(Error::OutputBufferTooSmall { size: 39, required: 40 }));
    assert_eq!(buf, [7u8; 39]);
    let mut encoder = Encoder::new(&data, 2, 2).unwrap();
    assert_eq!(encoder.required_buf_len(), 40);
    let r = encoder.encode_to_buf(&mut buf);
    assert_eq!(r, Err(Error::OutputBufferTooSmall { size: 39, required: 40 }));
    assert_eq!(*encoder.header(), Header { width: 2, height: 2, length: None });
}

#[test]
fn buffer_of_the_maximum_length_is_enough() {
    let data = [1, 2, 3, 4, 5, 6, 7, 8, 9, 10, 11, 12];
    let mut buf = [0u8; 35];
    assert_eq!(encode_to_buf(&mut buf, &data, 3, 1), Ok(35));
    assert_eq!(
        buf.to_vec(),
        image(3, 1, &[0xff, 1, 2, 3, 4, 0xff, 5, 6, 7, 8, 0xff, 9, 10, 11, 12])
    );
}

#[test]
fn encoder_keeps_the_length_in_its_header() {
    let data = [10, 10, 10, 255, 10, 10, 10, 255];
    let mut encoder = Encoder::new(&data, 2, 1).unwrap();
    assert_eq!(*encoder.header(), Header { width: 2, height: 1, length: None });
    assert_eq!(encoder.required_buf_len(), 30);
    let mut buf = [9u8; 40];
    let n = encoder.encode_to_buf(&mut buf).unwrap();
    assert_eq!(n, 23);
    assert_eq!(&buf[..23], &image(2, 1, &[0xaa, 0x88, 0xc0])[..]);
    assert_eq!(&buf[23..], &[9u8; 17][..]);
    assert_eq!(*encoder.header(), Header { width: 2, height: 1, length: Some(3) });
    assert_eq!(encoder.header().encode().unwrap(), buf[..12]);
}

#[test]
fn encode_to_vec_sets_the_length_too() {
    let data = [10, 10, 10, 255, 10, 10, 10, 255];
    let mut encoder = Encoder::new(&data, 1, 2).unwrap();
    let out = encoder.encode_to_vec().unwrap();
    assert_eq!(out, image(1, 2, &[0xaa, 0x88, 0xc0]));
    assert_eq!(*encoder.header(), Header { width: 1, height: 2, length: Some(3) });
}

#[test]
fn encode_to_stream_appends_the_image() {
    let data = [10, 10, 10, 255, 10, 10, 10, 255];
    let encoder = Encoder::new(&data, 2, 1).unwrap();
    let sink = BytesMut::new(30).write_many(&[1, 2]).unwrap();
    let (sink, n) = encoder.encode_to_stream(sink).unwrap();
    assert_eq!(n, 23);
    assert_eq!(sink.capacity(), 5);
    assert_eq!(&sink.as_slice()[..2], &[1, 2]);
    assert_eq!(&sink.as_slice()[2..], &image(2, 1, &[0xaa, 0x88, 0xc0])[..]);
    assert_eq!(*encoder.header(), Header { width: 2, height: 1, length: None });
}

#[test]
fn encode_to_stream_needs_room_for_the_image_only() {
    let data = [10, 10, 10, 255, 10, 10, 10, 255];
    let encoder = Encoder::new(&data, 2, 1).unwrap();
    let (sink, n) = encoder.encode_to_stream(BytesMut::new(23)).unwrap();
    assert_eq!(n, 23);
    assert_eq!(sink.capacity(), 0);
    assert_eq!(sink.into_vec(), image(2, 1, &[0xaa, 0x88, 0xc0]));
}

#[test]
fn encode_to_stream_fails_when_the_image_does_not_fit() {
    let data = [10, 10, 10, 255, 10, 10, 10, 255];
    let encoder = Encoder::new(&data, 2, 1).unwrap();
    let r = encoder.encode_to_stream(BytesMut::new(22));
    assert_eq!(r.err(), Some(Error::OutputBufferTooSmall { size: 22, required: 23 }));
}

#[test]
fn the_three_ways_to_encode_agree() {
    let data = generated(100);
    let mut encoder = Encoder::new(&data, 10, 10).unwrap();
    let out = encoder.encode_to_vec().unwrap();
    let mut buf = vec![0u8; encoder.required_buf_len()];
    let n = encoder.encode_to_buf(&mut buf).unwrap();
    assert_eq!(&buf[..n], &out[..]);
    let (sink, m) = encoder.encode_to_stream(BytesMut::new(out.len())).unwrap();
    assert_eq!(m, n);
    assert_eq!(sink.into_vec(), out);
    assert_eq!(encode_to_vec(&data, 10, 10).unwrap(), out);
}
