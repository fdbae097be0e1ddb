use base64::Engine as _;
use vstd::prelude::*;

use crate::pixels::{buffer_fits, RgbaPixels};

verus! {

/// How an image held by the image crate came to be. Together with the crate's
/// code, it fixes the image: its colour type, its size and its samples.
pub enum ImageSource {
    /// Read by `image::load_from_memory` from these file bytes, in the colour
    /// type the file has.
    File(Seq<u8>),
    /// Made from 8-bit RGBA pixels `(width, height, bytes)`.
    Rgba(u32, u32, Seq<u8>),
    /// Scaled by `DynamicImage::thumbnail` to fit the given width and height.
    Thumbnail(Box<ImageSource>, u32, u32),
}

#[verifier::external_type_specification]
#[verifier::external_body]
pub struct ExDynamicImage(image::DynamicImage);

/// An image held by the image crate in its own colour type, with its size.
pub struct Picture {
    image: image::DynamicImage,
    width: u32,
    height: u32,
    source: Ghost<ImageSource>,
}

impl Picture {
    /// How the image came to be.
    pub closed spec fn source(&self) -> ImageSource {
        self.source@
    }

    /// The image's width and height.
    pub closed spec fn size(&self) -> (u32, u32) {
        (self.width, self.height)
    }

    pub fn width(&self) -> (r: u32)
        ensures
            r == self.size().0,
    {
        self.width
    }

    pub fn height(&self) -> (r: u32)
        ensures
            r == self.size().1,
    {
        self.height
    }
}

/// The size of the image that the image crate's `load_from_memory` reads from
/// `data`, or the text of its error.
pub uninterp spec fn loaded_size(data: Seq<u8>) -> Result<(u32, u32), Seq<char>>;

/// The 8-bit RGBA pixels that the image crate's `to_rgba8` gives of the image
/// that `source` describes.
pub uninterp spec fn rgba_of(source: ImageSource) -> Seq<u8>;

/// The PNG file that the image crate's `write_to` writes for the image that
/// `source` describes, or the text of its error.
pub uninterp spec fn png_written(source: ImageSource) -> Result<Seq<u8>, Seq<char>>;

/// The 8-bit RGB bytes of an 8-bit RGBA image: the alpha byte of each of its
/// `width * height` pixels is dropped.
pub open spec fn rgb_of_rgba(width: u32, height: u32, rgba: Seq<u8>) -> Seq<u8> {
    Seq::new((3 * width * height) as nat, |i: int| rgba[4 * (i / 3) + i % 3])
}

/// The JPEG file that the image crate's `JpegEncoder` writes for an 8-bit RGB
/// image at the given quality, or the text of its error.
pub uninterp spec fn jpeg_encoding(width: u32, height: u32, rgb: Seq<u8>, quality: u8) -> Result<
    Seq<u8>,
    Seq<char>,
>;

/// The character of the standard base64 alphabet for the six-bit value `v`.
pub open spec fn base64_char(v: int) -> char {
    if v < 26 {
        (65 + v) as char
    } else if v < 52 {
        (97 + v - 26) as char
    } else if v < 62 {
        (48 + v - 52) as char
    } else if v == 62 {
        '+'
    } else {
        '/'
    }
}

/// The standard, padded base64 text of `bytes`: each group of three bytes,
/// read as a 24-bit number, becomes four characters of six bits each; a last
/// group of one or two bytes is filled out with zero bits, and its missing
/// characters are `=`.
pub open spec fn base64_text(bytes: Seq<u8>) -> Seq<char>
    decreases bytes.len(),
{
    if bytes.len() == 0 {
        Seq::empty()
    } else {
        let b1: int = if bytes.len() > 1 { bytes[1] as int } else { 0 };
        let b2: int = if bytes.len() > 2 { bytes[2] as int } else { 0 };
        let n: int = bytes[0] * 65536 + b1 * 256 + b2;
        let c2 = if bytes.len() > 1 { base64_char((n / 64) % 64) } else { '=' };
        let c3 = if bytes.len() > 2 { base64_char(n % 64) } else { '=' };
        let group = seq![base64_char(n / 262144), base64_char((n / 4096) % 64), c2, c3];
        if bytes.len() <= 3 {
            group
        } else {
            group + base64_text(bytes.subrange(3, bytes.len() as int))
        }
    }
}

/// The bytes that the base64 crate's standard engine reads from `text`, or the
/// text of its error.
pub uninterp spec fn base64_bytes(text: Seq<char>) -> Result<Seq<u8>, Seq<char>>;

/// `text` is read by the base64 crate's standard engine into `bytes`.
pub open spec fn reads_back(text: Seq<char>, bytes: Seq<u8>) -> bool {
    base64_bytes(text) == Ok::<Seq<u8>, Seq<char>>(bytes)
}

/// Reads an image file of any format the image crate reads (PNG and JPEG here)
/// with `image::load_from_memory`, keeping the file's own colour type.
/// Claimed: on success the image is the one `data` describes and its size is
/// `loaded_size(data)`; on failure the error text is `loaded_size(data)`'s.
/// That this depends on `data` alone rests on no format-detection hook being
/// registered with the image crate, and none is.
#[verifier::external_body]
pub(crate) fn load_image(data: &[u8]) -> (r: Result<Picture, String>)
    ensures
        match r {
            Ok(p) => loaded_size(data@) == Ok::<(u32, u32), Seq<char>>(p.size()) && p.source() == ImageSource::File(
                data@,
            ),
            Err(e) => loaded_size(data@) == Err::<(u32, u32), Seq<char>>(e@),
        },
{
    match image::load_from_memory(data) {
        Ok(img) => Ok(Picture { width: img.width(), height: img.height(), image: img, source: Ghost(ImageSource::File(data@)) }),
        Err(e) => Err(e.to_string()),
    }
}

/// Makes an image of the image crate from 8-bit RGBA pixels, with
/// `RgbaImage::from_raw`. The buffer holds exactly the image's pixels, which is
/// what `from_raw` needs and what the crate's encoders expect.
#[verifier::external_body]
pub(crate) fn rgba_picture(px: RgbaPixels) -> (r: Picture)
    requires
        px.data@.len() == 4 * px.width * px.height,
    ensures
        r.size() == (px.width, px.height),
        r.source() == ImageSource::Rgba(px.width, px.height, px.data@),
{
    let (w, h) = (px.width, px.height);
    let source = Ghost(ImageSource::Rgba(w, h, px.data@));
    let buf = image::RgbaImage::from_raw(w, h, px.data).unwrap();
    Picture { image: image::DynamicImage::ImageRgba8(buf), width: w, height: h, source }
}

/// Converts an image to 8-bit RGBA with the image crate's `to_rgba8`.
/// Claimed: the pixels are `rgba_of` the image, of its size, and the buffer
/// holds exactly four bytes for each pixel.
#[verifier::external_body]
pub(crate) fn to_rgba(p: &Picture) -> (r: RgbaPixels)
    ensures
        (r.width, r.height) == p.size(),
        r.data@ == rgba_of(p.source()),
        r.data@.len() == 4 * r.width * r.height,
{
    let rgba = p.image.to_rgba8();
    RgbaPixels { width: rgba.width(), height: rgba.height(), data: rgba.into_raw() }
}

/// Converts an 8-bit RGBA image to 8-bit RGB with the image crate's `to_rgb8`.
/// Claimed: the alpha byte of each pixel is dropped (the crate converts between
/// layouts of one colour space channel by channel).
#[verifier::external_body]
pub(crate) fn rgba_to_rgb(px: &RgbaPixels) -> (r: Vec<u8>)
    requires
        px.wf(),
    ensures
        r@ == rgb_of_rgba(px.width, px.height, px.data@),
        buffer_fits(px.width, px.height, 3, r@.len() as int),
{
    let buf = image::RgbaImage::from_raw(px.width, px.height, px.data.clone()).unwrap();
    image::DynamicImage::ImageRgba8(buf).to_rgb8().into_raw()
}

/// Encodes an 8-bit RGB image as JPEG with the image crate's `JpegEncoder` at
/// the given quality. Claimed: the result is `jpeg_encoding` of the image, and a
/// `Vec` is never longer than `isize::MAX` bytes.
#[verifier::external_body]
pub(crate) fn encode_jpeg(width: u32, height: u32, rgb: &[u8], quality: u8) -> (r: Result<Vec<u8>, String>)
    requires
        buffer_fits(width, height, 3, rgb@.len() as int),
    ensures
        match r {
            Ok(b) => jpeg_encoding(width, height, rgb@, quality) == Ok::<Seq<u8>, Seq<char>>(b@) && b@.len()
                <= isize::MAX,
            Err(e) => jpeg_encoding(width, height, rgb@, quality) == Err::<Seq<u8>, Seq<char>>(e@),
        },
{
    let img = image::RgbImage::from_raw(width, height, rgb.to_vec()).unwrap();
    let mut buf = std::io::Cursor::new(Vec::new());
    match image::codecs::jpeg::JpegEncoder::new_with_quality(&mut buf, quality).encode_image(
        &image::DynamicImage::ImageRgb8(img),
    ) {
        Ok(()) => Ok(buf.into_inner()),
        Err(e) => Err(e.to_string()),
    }
}

/// Writes an image as PNG, in its own colour type, with the image crate's
/// `write_to`. Claimed: the result is `png_written` of the image, and a `Vec` is
/// never longer than `isize::MAX` bytes.
#[verifier::external_body]
pub(crate) fn encode_png(p: &Picture) -> (r: Result<Vec<u8>, String>)
    ensures
        match r {
            Ok(b) => png_written(p.source()) == Ok::<Seq<u8>, Seq<char>>(b@) && b@.len() <= isize::MAX,
            Err(e) => png_written(p.source()) == Err::<Seq<u8>, Seq<char>>(e@),
        },
{
    let mut buf = std::io::Cursor::new(Vec::new());
    match p.image.write_to(&mut buf, image::ImageFormat::Png) {
        Ok(()) => Ok(buf.into_inner()),
        Err(e) => Err(e.to_string()),
    }
}

/// Scales an image to fit `max_width` by `max_height`, keeping its aspect ratio
/// and its colour type, with the image crate's `thumbnail`. Claimed: the result
/// is that thumbnail of the image and, as the crate documents, it fits within
/// the bounds (when they are not zero).
#[verifier::external_body]
pub(crate) fn thumbnail(p: &Picture, max_width: u32, max_height: u32) -> (r: Picture)
    ensures
        r.source() == ImageSource::Thumbnail(Box::new(p.source()), max_width, max_height),
        max_width >= 1 && max_height >= 1 ==> r.size().0 <= max_width && r.size().1 <= max_height,
{
    let thumb = p.image.thumbnail(max_width, max_height);
    let source = Ghost(ImageSource::Thumbnail(Box::new(p.source@), max_width, max_height));
    Picture { width: thumb.width(), height: thumb.height(), image: thumb, source }
}

/// Writes `bytes` as standard, padded base64 with the base64 crate's
/// `STANDARD.encode`. Claimed: the result is `base64_text(bytes)`, and the same
/// engine's `decode` reads it back into `bytes` (the crate's round trip).
#[verifier::external_body]
pub(crate) fn base64_encode(bytes: &[u8]) -> (r: String)
    requires
        bytes@.len() <= isize::MAX,
    ensures
        r@ == base64_text(bytes@),
        reads_back(r@, bytes@),
{
    base64::engine::general_purpose::STANDARD.encode(bytes)
}

/// Reads standard, padded base64 with the base64 crate's `STANDARD.decode`.
/// Claimed: the result is `base64_bytes(text)`.
#[verifier::external_body]
pub(crate) fn base64_decode(text: &str) -> (r: Result<Vec<u8>, String>)
    ensures
        match r {
            Ok(b) => base64_bytes(text@) == Ok::<Seq<u8>, Seq<char>>(b@),
            Err(e) => base64_bytes(text@) == Err::<Seq<u8>, Seq<char>>(e@),
        },
{
    base64::engine::general_purpose::STANDARD.decode(text).map_err(|e| e.to_string())
}

} // verus!
