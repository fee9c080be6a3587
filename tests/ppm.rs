use pixel_patterns::ppm::{encode_ppm, read_ppm_header, PpmHeader};

#[test]
fn encode_small_image() {
    let bytes = encode_ppm(&[0x112233, 0xAABBCC], 2, 1);
    let mut expected = b"P6\n2 1 255\n".to_vec();
    expected.extend_from_slice(&[0x11, 0x22, 0x33, 0xAA, 0xBB, 0xCC]);
    assert_eq!(bytes, expected);
}

#[test]
fn encode_drops_high_byte() {
    let bytes = encode_ppm(&[0xFF123456], 1, 1);
    assert_eq!(&bytes[bytes.len() - 3..], &[0x12, 0x34, 0x56]);
}

#[test]
fn header_round_trip() {
    for (w, h) in [(0usize, 0usize), (1, 1), (12, 34), (100, 7), (1280, 3)] {
        let pixels = vec![0x010203u32; w * h];
        let bytes = encode_ppm(&pixels, w, h);
        let header = read_ppm_header(&bytes).expect("header");
        assert_eq!(header.width, w);
        assert_eq!(header.height, h);
        assert_eq!(bytes.len() - header.data_offset, w * h * 3);
    }
}

#[test]
fn header_fields() {
    assert_eq!(
        read_ppm_header(b"P6\n640 480 255\nrest"),
        Some(PpmHeader { width: 640, height: 480, data_offset: 15 })
    );
}

#[test]
fn header_rejects_malformed() {
    assert_eq!(read_ppm_header(b""), None);
    assert_eq!(read_ppm_header(b"Q6\n1 1 255\n"), None);
    assert_eq!(read_ppm_header(b"P6\n 1 255\n"), None);
    assert_eq!(read_ppm_header(b"P6\n1  1 255\n"), None);
    assert_eq!(read_ppm_header(b"P6\n1 1 256\n"), None);
    assert_eq!(read_ppm_header(b"P6\n1 1 255"), None);
    assert_eq!(read_ppm_header(b"P6\n99999999999999999999999 1 255\n"), None);
}
