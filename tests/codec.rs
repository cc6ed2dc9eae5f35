use qoir::codec::{decode, encode, CodecError, Header, MAGIC};
use qoir::operation::Operation;
use qoir::pixel::{pixel_index, Pixel};

const MARKER: [u8; 9] = [0, 0, 0, 0, 0, 0, 0, 0, 1];

fn header(width: u32, height: u32, channels: u8) -> Header {
    Header { magic: MAGIC, width, height, channels, colorspace: 0 }
}

fn header_bytes(h: &Header) -> Vec<u8> {
    let mut v = Vec::new();
    v.extend_from_slice(&h.magic.to_be_bytes());
    v.extend_from_slice(&h.width.to_be_bytes());
    v.extend_from_slice(&h.height.to_be_bytes());
    v.push(h.channels);
    v.push(h.colorspace);
    v
}

fn stream(h: &Header, ops: &[u8]) -> Vec<u8> {
    let mut v = header_bytes(h);
    v.extend_from_slice(ops);
    v.extend_from_slice(&MARKER);
    v
}

fn round_trip(data: &[u8], h: Header) {
    let bytes = encode(data, h).unwrap();
    let (h2, out) = decode(&bytes).unwrap();
    assert_eq!(h2, h);
    assert_eq!(out, data.to_vec());
}

#[test]
fn two_equal_rgba_pixels() {
    let h = header(2, 1, 4);
    let data = [10u8, 10, 10, 255, 10, 10, 10, 255];
    let bytes = encode(&data, h).unwrap();
    // The first pixel is a green-based delta from opaque black; the second
    // finds itself in the cache at slot 11.
    assert_eq!(bytes, stream(&h, &[0xaa, 0x88, 0x0b]));
    let (_, out) = decode(&bytes).unwrap();
    assert_eq!(out, data.to_vec());
}

#[test]
fn black_pixel_hits_fresh_cache() {
    let h = header(1, 1, 3);
    let slot = pixel_index(Pixel { r: 0, g: 0, b: 0, a: 255 });
    assert_eq!(slot, 53);
    let bytes = encode(&[0, 0, 0], h).unwrap();
    assert_eq!(bytes, stream(&h, &[slot as u8]));
    assert_eq!(decode(&bytes).unwrap().1, vec![0, 0, 0]);
}

#[test]
fn run_of_62_is_one_instruction() {
    let h = header(63, 1, 3);
    let data = vec![0u8; 63 * 3];
    let bytes = encode(&data, h).unwrap();
    assert_eq!(bytes, stream(&h, &[0x35, 0xfd]));
    assert_eq!(decode(&bytes).unwrap().1, data);
}

#[test]
fn run_of_63_is_two_instructions() {
    let h = header(64, 1, 3);
    let data = vec![0u8; 64 * 3];
    let bytes = encode(&data, h).unwrap();
    assert_eq!(bytes, stream(&h, &[0x35, 0xfd, 0xc0]));
    assert_eq!(decode(&bytes).unwrap().1, data);
}

#[test]
fn short_run_is_flushed_by_a_new_instruction() {
    let h = header(4, 1, 3);
    let data = [0u8, 0, 0, 0, 0, 0, 0, 0, 0, 1, 1, 1];
    let bytes = encode(&data, h).unwrap();
    assert_eq!(bytes, stream(&h, &[0x35, 0xc1, 0x7f]));
    assert_eq!(decode(&bytes).unwrap().1, data.to_vec());
}

#[test]
fn small_delta_is_diff() {
    let h = header(1, 1, 3);
    assert_eq!(encode(&[1, 1, 1], h).unwrap(), stream(&h, &[0x7f]));
    assert_eq!(encode(&[254, 254, 255], h).unwrap(), stream(&h, &[0x40 | 0x01]));
}

#[test]
fn delta_of_two_is_not_diff() {
    let h = header(1, 1, 3);
    let bytes = encode(&[2, 0, 0], h).unwrap();
    assert_eq!(bytes, stream(&h, &[0xa0, 0xa8]));
    assert_eq!(decode(&bytes).unwrap().1, vec![2, 0, 0]);
}

#[test]
fn delta_of_minus_three_is_not_diff() {
    let h = header(1, 1, 3);
    let bytes = encode(&[0, 253, 0], h).unwrap();
    // green -3, red and blue +3 against it: a green-based delta.
    assert_eq!(bytes, stream(&h, &[0x80 | 29, (11 << 4) | 11]));
    assert_eq!(decode(&bytes).unwrap().1, vec![0, 253, 0]);
}

#[test]
fn green_delta_of_32_is_literal() {
    let h = header(1, 1, 3);
    let bytes = encode(&[32, 32, 32], h).unwrap();
    assert_eq!(bytes, stream(&h, &[0xfe, 32, 32, 32]));
    assert_eq!(decode(&bytes).unwrap().1, vec![32, 32, 32]);
}

#[test]
fn green_delta_of_minus_33_is_literal() {
    let h = header(1, 1, 3);
    let bytes = encode(&[223, 223, 223], h).unwrap();
    assert_eq!(bytes, stream(&h, &[0xfe, 223, 223, 223]));
}

#[test]
fn alpha_change_is_rgba() {
    let h = header(2, 1, 4);
    let data = [0u8, 0, 0, 0, 0, 0, 0, 7];
    let bytes = encode(&data, h).unwrap();
    assert_eq!(bytes, stream(&h, &[0xff, 0, 0, 0, 0, 0xff, 0, 0, 0, 7]));
    assert_eq!(decode(&bytes).unwrap().1, data.to_vec());
}

#[test]
fn cache_returns_earlier_pixel() {
    let h = header(3, 1, 3);
    let data = [40u8, 80, 120, 200, 100, 0, 40, 80, 120];
    let first = Pixel { r: 40, g: 80, b: 120, a: 255 };
    let second = Pixel { r: 200, g: 100, b: 0, a: 255 };
    assert_ne!(pixel_index(first), pixel_index(second));
    let bytes = encode(&data, h).unwrap();
    assert_eq!(
        bytes,
        stream(&h, &[0xfe, 40, 80, 120, 0xfe, 200, 100, 0, pixel_index(first) as u8])
    );
    assert_eq!(decode(&bytes).unwrap().1, data.to_vec());
}

#[test]
fn gradient_round_trips() {
    let (w, hgt) = (17u32, 9u32);
    let mut data = Vec::new();
    for y in 0..hgt {
        for x in 0..w {
            data.push((x * 15) as u8);
            data.push((y * 28) as u8);
            data.push(((x * y) % 256) as u8);
        }
    }
    round_trip(&data, header(w, hgt, 3));
}

#[test]
fn rgba_round_trips() {
    let mut data = Vec::new();
    for k in 0..200u32 {
        let a = if k % 50 < 25 { 255 } else { (k / 50) as u8 * 60 };
        let v = ((k * 37) % 256) as u8;
        data.extend_from_slice(&[v, v / 2, (k % 3) as u8, a]);
        if a != 255 {
            // keep literals away from translucent pixels
            let last = data.len() - 4;
            data[last] = data[last - 4];
            data[last + 1] = data[last - 3];
            data[last + 2] = data[last - 2];
        }
    }
    round_trip(&data, header(20, 10, 4));
}

#[test]
fn rgb_literal_reads_alpha_as_opaque() {
    let h = header(2, 1, 4);
    let data = [0u8, 0, 0, 128, 100, 50, 20, 128];
    let bytes = encode(&data, h).unwrap();
    assert_eq!(bytes, stream(&h, &[0xff, 0, 0, 0, 128, 0xfe, 100, 50, 20]));
    assert_eq!(decode(&bytes).unwrap().1, vec![0, 0, 0, 128, 100, 50, 20, 255]);
}

#[test]
fn encode_rejects_bad_headers() {
    let data = [1u8, 2, 3];
    let bad = [
        Header { width: 0, ..header(1, 1, 3) },
        Header { height: 0, ..header(1, 1, 3) },
        header(1, 1, 0),
        header(1, 1, 1),
        header(1, 1, 2),
        header(1, 1, 5),
        Header { colorspace: 2, ..header(1, 1, 3) },
        Header { colorspace: 255, ..header(1, 1, 3) },
    ];
    for h in bad {
        assert_eq!(encode(&data, h), Err(CodecError::Validation));
    }
    assert_eq!(encode(&[], header(1, 1, 3)), Err(CodecError::Validation));
    assert_eq!(encode(&[1, 2], header(1, 1, 3)), Err(CodecError::Validation));
}

#[test]
fn decode_rejects_bad_headers() {
    let bad = [
        Header { width: 0, ..header(1, 1, 3) },
        Header { height: 0, ..header(1, 1, 3) },
        header(1, 1, 0),
        header(1, 1, 1),
        header(1, 1, 2),
        header(1, 1, 5),
        Header { colorspace: 2, ..header(1, 1, 3) },
        Header { colorspace: 255, ..header(1, 1, 3) },
    ];
    for h in bad {
        assert_eq!(decode(&stream(&h, &[0x35])), Err(CodecError::Validation));
    }
    assert_eq!(decode(&[]), Err(CodecError::Validation));
}

#[test]
fn decode_rejects_wrong_magic() {
    let h = Header { magic: 0x71_6f_69_66, ..header(1, 1, 3) };
    assert_eq!(
        decode(&stream(&h, &[0x35])),
        Err(CodecError::MagicMismatch { expected: MAGIC, found: 0x71_6f_69_66 })
    );
}

#[test]
fn decode_reports_truncated_stream() {
    let h = header(100, 1, 3);
    let mut bytes = header_bytes(&h);
    bytes.extend_from_slice(&[0x35; 8]);
    assert_eq!(decode(&bytes), Err(CodecError::Truncated));
}

#[test]
fn decode_reports_cut_instruction() {
    let h = header(100, 1, 3);
    let mut bytes = header_bytes(&h);
    bytes.extend_from_slice(&[0x35; 7]);
    bytes.push(0xff);
    assert_eq!(decode(&bytes), Err(CodecError::Parse { byte: 0xff }));
}

#[test]
fn operations_write_their_bytes() {
    assert_eq!(Operation::RGB(0x0102_03ff).encode(), vec![0xfe, 1, 2, 3]);
    assert_eq!(Operation::RGBA(0x0102_0304).encode(), vec![0xff, 1, 2, 3, 4]);
    assert_eq!(Operation::INDEX(17).encode(), vec![17]);
    assert_eq!(Operation::DIFF(0x55).encode(), vec![0x55]);
    assert_eq!(Operation::LUMA(0xa0a8).encode(), vec![0xa0, 0xa8]);
    assert_eq!(Operation::RUN(0xc3).encode(), vec![0xc3]);
    assert_eq!(Operation::NONE.encode(), Vec::<u8>::new());
}

#[test]
fn operations_read_their_bytes() {
    let d = [0xfe, 1, 2, 3, 0xff, 1, 2, 3, 4, 17, 0x55, 0xa0, 0xa8, 0xc3];
    assert_eq!(Operation::decode(&d, 0), (Operation::RGB(0x0102_03ff), 4));
    assert_eq!(Operation::decode(&d, 4), (Operation::RGBA(0x0102_0304), 5));
    assert_eq!(Operation::decode(&d, 9), (Operation::INDEX(17), 1));
    assert_eq!(Operation::decode(&d, 10), (Operation::DIFF(0x55), 1));
    assert_eq!(Operation::decode(&d, 11), (Operation::LUMA(0xa0a8), 2));
    assert_eq!(Operation::decode(&d, 13), (Operation::RUN(0xc3), 1));
    assert_eq!(Operation::decode(&[0xa0], 0), (Operation::NONE, 1));
}

#[test]
fn pixel_packs_big_endian() {
    let p = Pixel { r: 1, g: 2, b: 3, a: 4 };
    assert_eq!(p.rgba(), 0x0102_0304);
    assert_eq!(Pixel::from(0x0102_0304), p);
    assert_eq!(Pixel::new(), Pixel { r: 0, g: 0, b: 0, a: 255 });
    assert_eq!(pixel_index(p), (3 + 10 + 21 + 44) % 64);
}

#[test]
fn pixel_index_wraps() {
    let p = Pixel { r: 255, g: 255, b: 255, a: 255 };
    assert_eq!(pixel_index(p), (26 * 255) % 256 % 64);
}

#[test]
fn decode_reports_overrunning_run() {
    let h = header(2, 1, 3);
    assert_eq!(decode(&stream(&h, &[0x35, 0xc5])), Err(CodecError::Overrun));
}

#[test]
fn decode_accepts_run_that_fills_image() {
    let h = header(2, 1, 3);
    assert_eq!(decode(&stream(&h, &[0x35, 0xc0])), Ok((h, vec![0; 6])));
}

#[test]
fn colliding_pixel_evicts_slot() {
    let h = header(3, 1, 3);
    let black = Pixel { r: 0, g: 0, b: 0, a: 255 };
    let other = Pixel { r: 64, g: 0, b: 0, a: 255 };
    assert_eq!(pixel_index(black), pixel_index(other));
    let data = [0u8, 0, 0, 64, 0, 0, 0, 0, 0];
    let bytes = encode(&data, h).unwrap();
    assert_eq!(bytes, stream(&h, &[0x35, 0xfe, 64, 0, 0, 0xfe, 0, 0, 0]));
    assert_eq!(decode(&bytes).unwrap().1, data.to_vec());
}
