//! Framing the finished pixel buffer as a PNG image, through the `image`
//! crate's encoder and decoder. The encoding itself is trusted; the
//! library states it abstractly and proves the round trip on top of it.

use vstd::prelude::*;

verus! {

/// Largest width or height a PNG image can carry.
pub const PNG_DIM_MAX: u32 = 0x7FFF_FFFF;

/// The PNG encoding of a grayscale 8-bit pixel buffer with the given
/// dimensions. The encoder is deterministic, so the bytes are a function
/// of the buffer and the dimensions alone; their exact shape is left
/// abstract.
pub uninterp spec fn png_l8(pixels: Seq<u8>, width: int, height: int) -> Seq<u8>;

/// Errors of the `image` crate, carried through opaquely.
#[verifier::external_type_specification]
#[verifier::external_body]
pub struct ExImageError(image::ImageError);

/// Relies on `image::codecs::png::PngEncoder::write_image`: encoding a
/// grayscale 8-bit buffer writes the PNG bytes of exactly that buffer to
/// the sink. The sink is a fresh in-memory vector, the buffer length is
/// exactly `width * height` (anything else panics), and the dimensions
/// are positive and within the PNG format's cap, so the encoder has no
/// failure path left: it always returns the encoding.
#[verifier::external_body]
fn png_encode_l8(pixels: &Vec<u8>, width: u32, height: u32) -> (r: Result<
    Vec<u8>,
    image::ImageError,
>)
    requires
        pixels@.len() == width as int * height as int,
        1 <= width <= PNG_DIM_MAX,
        1 <= height <= PNG_DIM_MAX,
    ensures
        r is Ok,
        r matches Ok(b) ==> b@ == png_l8(pixels@, width as int, height as int),
{
    let mut out: Vec<u8> = Vec::new();
    let encoder = image::codecs::png::PngEncoder::new(&mut out);
    match image::ImageEncoder::write_image(
        encoder,
        pixels.as_slice(),
        width,
        height,
        image::ExtendedColorType::L8,
    ) {
        Ok(()) => Ok(out),
        Err(e) => Err(e),
    }
}

/// Relies on `image::ImageReader` (with its default decode limits lifted)
/// and `image::DynamicImage::into_luma8`: PNG is a lossless format and
/// stores its dimensions, so decoding the PNG encoding of any grayscale
/// 8-bit buffer with dimensions the format can carry succeeds and gives
/// back those dimensions and that buffer, byte for byte; an `Err`
/// therefore means the bytes are no such encoding.
#[verifier::external_body]
fn png_decode_l8(bytes: &Vec<u8>) -> (r: Result<(u32, u32, Vec<u8>), image::ImageError>)
    ensures
        r is Err ==> forall|p: Seq<u8>, w: u32, h: u32|
            !(p.len() == w as int * h as int && 1 <= w <= PNG_DIM_MAX && 1 <= h <= PNG_DIM_MAX
                && bytes@ == png_l8(p, w as int, h as int)),
        r matches Ok(t) ==> forall|p: Seq<u8>, w: u32, h: u32|
            p.len() == w as int * h as int && 1 <= w <= PNG_DIM_MAX && 1 <= h <= PNG_DIM_MAX
                && bytes@ == png_l8(p, w as int, h as int) ==> t.0 == w && t.1 == h && t.2@ == p,
{
    let cursor = std::io::Cursor::new(bytes.as_slice());
    let reader = match image::ImageReader::new(cursor).with_guessed_format() {
        Ok(mut r) => {
            r.no_limits();
            r
        },
        Err(e) => return Err(image::ImageError::IoError(e)),
    };
    match reader.decode() {
        Ok(img) => {
            let gray = img.into_luma8();
            Ok((gray.width(), gray.height(), gray.into_raw()))
        },
        Err(e) => Err(e),
    }
}

/// Encode a grayscale 8-bit pixel buffer as the PNG bytes of exactly that
/// buffer. Within the PNG dimension cap the encoder cannot fail, so the
/// result is always present.
pub fn encode_png(pixels: &Vec<u8>, width: u32, height: u32) -> (r: Option<Vec<u8>>)
    requires
        pixels@.len() == width as int * height as int,
        1 <= width <= PNG_DIM_MAX,
        1 <= height <= PNG_DIM_MAX,
    ensures
        r is Some,
        r matches Some(b) ==> b@ == png_l8(pixels@, width as int, height as int),
{
    match png_encode_l8(pixels, width, height) {
        Ok(b) => Some(b),
        Err(_) => None,
    }
}

/// Decode PNG bytes into dimensions and a grayscale 8-bit pixel buffer.
/// On the encoding of any buffer whose dimensions the format can carry,
/// the decode succeeds and gives back that buffer and its dimensions
/// unchanged.
pub fn decode_png(bytes: &Vec<u8>) -> (r: Option<(u32, u32, Vec<u8>)>)
    ensures
        forall|p: Seq<u8>, w: u32, h: u32|
            p.len() == w as int * h as int && 1 <= w <= PNG_DIM_MAX && 1 <= h <= PNG_DIM_MAX
                && bytes@ == png_l8(p, w as int, h as int) ==> (r matches Some(t) && t.0 == w
                && t.1 == h && t.2@ == p),
{
    match png_decode_l8(bytes) {
        Ok(t) => Some(t),
        Err(_) => None,
    }
}

/// Round trip: encode a buffer and decode the result. The decode always
/// succeeds and yields the original buffer, byte-identical, with the
/// original dimensions.
pub fn png_round_trip(pixels: &Vec<u8>, width: u32, height: u32) -> (r: Option<(u32, u32, Vec<u8>)>)
    requires
        pixels@.len() == width as int * height as int,
        1 <= width <= PNG_DIM_MAX,
        1 <= height <= PNG_DIM_MAX,
    ensures
        r matches Some(t) && t.0 == width && t.1 == height && t.2@ == pixels@,
{
    match encode_png(pixels, width, height) {
        None => {
            proof {
                assert(false);
            }
            None
        },
        Some(encoded) => {
            let decoded = decode_png(&encoded);
            proof {
                assert(decoded matches Some(t) && t.0 == width && t.1 == height && t.2@
                    == pixels@);
            }
            decoded
        },
    }
}

} // verus!
