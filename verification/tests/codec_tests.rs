use mandelbrot::codec::{decode_png, encode_png, png_round_trip};

#[test]
fn test_png_round_trip() {
    // Lossless round trip: encoding a buffer and decoding the bytes gives
    // back the identical byte sequence and the original dimensions.
    let pixels: Vec<u8> = vec![0, 1, 2, 3, 255, 128];
    let encoded = encode_png(&pixels, 3, 2).unwrap();
    // The encoder produced a real PNG stream, not the raw buffer.
    assert_ne!(encoded, pixels);
    let (w, h, decoded) = decode_png(&encoded).unwrap();
    assert_eq!((w, h), (3, 2));
    assert_eq!(decoded, pixels);
}

#[test]
fn test_png_round_trip_helper() {
    let pixels: Vec<u8> = (0..100u8).collect();
    let (w, h, decoded) = png_round_trip(&pixels, 10, 10).unwrap();
    assert_eq!((w, h), (10, 10));
    assert_eq!(decoded, pixels);
}

#[test]
fn test_decode_rejects_garbage() {
    assert!(decode_png(&vec![1, 2, 3, 4]).is_none());
    assert!(decode_png(&Vec::new()).is_none());
}
