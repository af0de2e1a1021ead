use raytracer::framebuffer::Framebuffer;
use raytracer::ppm::decode;
use raytracer::ppm::encode;
use raytracer::ppm::quantize;
use raytracer::vec3::Vec3;

#[test]
fn quantize_boundaries() {
    // exactly 1.0 encodes to 255, 0.0 to 0, and 1.5 clamps to 1.0
    assert_eq!(quantize(65536), 255);
    assert_eq!(quantize(0), 0);
    assert_eq!(quantize(98304), quantize(65536));
    assert_eq!(quantize(-5), 0);
}

#[test]
fn quantize_truncates() {
    // 0.5 * 255 = 127.5, truncated to 127 (never rounded up)
    assert_eq!(quantize(32768), 127);
    assert_eq!(quantize(65535), 254);
    assert_eq!(quantize(1), 0);
}

#[test]
fn encode_all_zero_framebuffer() {
    // header, then width*height*3 zero bytes and nothing else
    let fb = Framebuffer::new(3, 2);
    let bytes = encode(&fb);
    let mut expected: Vec<u8> = b"P6\n3 2\n255\n".to_vec();
    expected.extend(std::iter::repeat(0u8).take(3 * 2 * 3));
    assert_eq!(bytes, expected);
}

#[test]
fn encode_multi_digit_header() {
    let fb = Framebuffer::new(10, 16);
    let bytes = encode(&fb);
    assert_eq!(bytes.len(), 13 + 10 * 16 * 3);
    assert_eq!(&bytes[..13], b"P6\n10 16\n255\n".as_ref());
}

#[test]
fn encode_clamp_idempotent() {
    // channels already inside [0, 1]: clamping them again changes no byte
    let samples = [
        Vec3 { x: 0, y: 65536, z: 32768 },
        Vec3 { x: 12345, y: 54321, z: 1 },
    ];
    let mut plain = Framebuffer::new(2, 1);
    let mut clamped = Framebuffer::new(2, 1);
    for (i, v) in samples.iter().enumerate() {
        plain.set(i, 0, *v);
        clamped.set(i, 0, v.clamped());
    }
    assert_eq!(encode(&plain), encode(&clamped));
}

#[test]
fn encode_clamps_out_of_range_channels() {
    // a channel beyond the unit interval encodes as its clamped value
    let mut wild = Framebuffer::new(1, 1);
    let mut tame = Framebuffer::new(1, 1);
    wild.set(0, 0, Vec3 { x: 98304, y: -7, z: 65536 });
    tame.set(0, 0, Vec3 { x: 98304, y: -7, z: 65536 }.clamped());
    let bytes = encode(&wild);
    assert_eq!(bytes, encode(&tame));
    assert_eq!(&bytes[11..], &[255u8, 0u8, 255u8]);
}

#[test]
fn round_trip_zero_framebuffer() {
    // encoding all-zero pixels gives the header and zero bytes, and
    // decoding recovers the dimensions and that zero payload
    let fb = Framebuffer::new(4, 2);
    let bytes = encode(&fb);
    assert_eq!(&bytes[..11], b"P6\n4 2\n255\n".as_ref());
    let (w, h, p) = decode(&bytes).unwrap();
    assert_eq!((w, h), (4, 2));
    assert_eq!(p, vec![0u8; 24]);
}

#[test]
fn round_trip_colored_framebuffer() {
    let mut fb = Framebuffer::new(2, 1);
    fb.set(0, 0, Vec3 { x: 65536, y: 32768, z: 0 });
    fb.set(1, 0, Vec3 { x: -9, y: 98304, z: 1 });
    let bytes = encode(&fb);
    let (w, h, p) = decode(&bytes).unwrap();
    assert_eq!((w, h), (2, 1));
    assert_eq!(p, vec![255, 127, 0, 0, 255, 0]);
}

#[test]
fn decode_rejects_malformed_streams() {
    // wrong magic
    assert_eq!(decode(&b"P5\n1 1\n255\n\0\0\0".to_vec()), None);
    // missing space between the dimensions
    assert_eq!(decode(&b"P6\n11\n255\n\0\0\0".to_vec()), None);
    // zero width
    assert_eq!(decode(&b"P6\n0 1\n255\n".to_vec()), None);
    // payload too short for the declared size
    assert_eq!(decode(&b"P6\n1 1\n255\n\0\0".to_vec()), None);
    // trailing data after the payload
    assert_eq!(decode(&b"P6\n1 1\n255\n\0\0\0\0".to_vec()), None);
}

#[test]
fn encode_pixels_row_major() {
    let mut fb = Framebuffer::new(2, 2);
    fb.set(0, 0, Vec3 { x: 65536, y: 0, z: 0 });
    fb.set(1, 0, Vec3 { x: 0, y: 65536, z: 0 });
    fb.set(0, 1, Vec3 { x: 0, y: 0, z: 65536 });
    fb.set(1, 1, Vec3 { x: 65536, y: 65536, z: 65536 });
    let bytes = encode(&fb);
    let header = b"P6\n2 2\n255\n".len();
    assert_eq!(
        &bytes[header..],
        &[255, 0, 0, 0, 255, 0, 0, 0, 255, 255, 255, 255]
    );
}
