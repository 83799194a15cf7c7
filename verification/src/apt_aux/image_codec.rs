//! Image files as bytes.
use vstd::prelude::*;

verus! {

/// A decoded image: width, height, and four bytes per pixel.
pub struct Pixels {
    pub width: u32,
    pub height: u32,
    pub rgba: Vec<u8>,
}

/// The counterpart of [`Pixels`] that contracts speak of.
#[verifier::ext_equal]
pub struct Bitmap {
    pub width: u32,
    pub height: u32,
    pub rgba: Seq<u8>,
}

impl View for Pixels {
    type V = Bitmap;

    open spec fn view(&self) -> Bitmap {
        Bitmap { width: self.width, height: self.height, rgba: self.rgba@ }
    }
}

/// The file extension of the format that `image::guess_format` sees in bytes.
pub uninterp spec fn guessed(data: Seq<u8>) -> Option<Seq<char>>;

/// The usual file extension of the format that `image::ImageFormat::from_extension`
/// takes an extension for.
pub uninterp spec fn format_for(extension: Seq<char>) -> Option<Seq<char>>;

/// What `image::load_from_memory_with_format` decodes, as RGBA. The format is
/// given by a file extension.
pub uninterp spec fn decoded(data: Seq<u8>, format: Seq<char>) -> Option<Bitmap>;

/// What `image::load_from_memory` decodes, as RGBA.
pub uninterp spec fn decoded_any(data: Seq<u8>) -> Option<Bitmap>;

/// The file that `image::ImageBuffer::write_to` makes of RGBA pixels. The format
/// is given by a file extension.
pub uninterp spec fn encoded(
    width: u32,
    height: u32,
    rgba: Seq<u8>,
    extension: Seq<char>,
) -> Option<Seq<u8>>;

/// Calls `image::guess_format`, which compares the first bytes with the magic
/// numbers of the formats it knows.
#[verifier::external_body]
pub(crate) fn guess_format(data: &[u8]) -> (r: Option<String>)
    ensures
        match r {
            Some(s) => guessed(data@) == Some(s@),
            None => guessed(data@) is None,
        },
{
    image::guess_format(data).ok().map(|f| f.extensions_str()[0].to_owned())
}

/// Calls `image::ImageFormat::from_extension`, which looks the extension up in a
/// table.
#[verifier::external_body]
pub(crate) fn from_extension(extension: &str) -> (r: Option<String>)
    ensures
        match r {
            Some(s) => format_for(extension@) == Some(s@),
            None => format_for(extension@) is None,
        },
{
    image::ImageFormat::from_extension(extension).map(|f| f.extensions_str()[0].to_owned())
}

/// Calls `image::load_from_memory_with_format` and converts the image to RGBA. That the
/// decoders refuse damaged data with an error, and never panic on it, is assumed.
#[verifier::external_body]
pub(crate) fn load_with_format(data: &[u8], format: &str) -> (r: Option<Pixels>)
    ensures
        match r {
            Some(p) => decoded(data@, format@) == Some(p@),
            None => decoded(data@, format@) is None,
        },
{
    let f = image::ImageFormat::from_extension(format)?;
    let rgba = image::load_from_memory_with_format(data, f).ok()?.to_rgba8();
    Some(Pixels { width: rgba.width(), height: rgba.height(), rgba: rgba.into_raw() })
}

/// Calls `image::load_from_memory` and converts the image to RGBA. That the decoders
/// refuse damaged data with an error, and never panic on it, is assumed.
#[verifier::external_body]
pub(crate) fn load(data: &[u8]) -> (r: Option<Pixels>)
    ensures
        match r {
            Some(p) => decoded_any(data@) == Some(p@),
            None => decoded_any(data@) is None,
        },
{
    let rgba = image::load_from_memory(data).ok()?.to_rgba8();
    Some(Pixels { width: rgba.width(), height: rgba.height(), rgba: rgba.into_raw() })
}

/// RGBA bytes with red and blue exchanged.
pub open spec fn swapped(rgba: Seq<u8>) -> Seq<u8> {
    Seq::new(
        rgba.len(),
        |i: int|
            if i % 4 == 0 {
                rgba[i + 2]
            } else if i % 4 == 2 {
                rgba[i - 2]
            } else {
                rgba[i]
            },
    )
}

/// An uncompressed truecolor TGA file: an 18-byte header that says the size, 32
/// bits per pixel, 8 of them alpha, and the upper left origin, then the pixels as
/// BGRA.
pub open spec fn tga(width: u32, height: u32, rgba: Seq<u8>) -> Seq<u8> {
    seq![
        0u8,
        0,
        2,
        0,
        0,
        0,
        0,
        0,
        0,
        0,
        0,
        0,
        (width % 0x100) as u8,
        (width / 0x100) as u8,
        (height % 0x100) as u8,
        (height / 0x100) as u8,
        32,
        0x28,
    ] + swapped(rgba)
}

/// Calls `TgaEncoder::write_image` with run-length encoding switched off. It
/// refuses empty images and sides that do not fit in 16 bits.
#[verifier::external_body]
pub(crate) fn encode_tga(width: u32, height: u32, rgba: &Vec<u8>) -> (r: Option<Vec<u8>>)
    requires
        rgba@.len() == 4 * (width * height),
    ensures
        match r {
            Some(b) => {
                &&& 0 < width <= 0xFFFF
                &&& 0 < height <= 0xFFFF
                &&& b@ == tga(width, height, rgba@)
            },
            None => !(0 < width <= 0xFFFF && 0 < height <= 0xFFFF),
        },
{
    let mut out: Vec<u8> = Vec::new();
    let encoder = image::codecs::tga::TgaEncoder::new(&mut out).disable_rle();
    let kind = image::ExtendedColorType::Rgba8;
    image::ImageEncoder::write_image(encoder, rgba, width, height, kind).ok()?;
    Some(out)
}

/// Calls `image::ImageBuffer::write_to` with the format that a file extension
/// stands for.
#[verifier::external_body]
pub(crate) fn encode_as(width: u32, height: u32, rgba: &Vec<u8>, extension: &str) -> (r: Option<
    Vec<u8>,
>)
    requires
        rgba@.len() >= 4 * (width * height),
    ensures
        match r {
            Some(b) => encoded(width, height, rgba@, extension@) == Some(b@),
            None => encoded(width, height, rgba@, extension@) is None,
        },
{
    let format = image::ImageFormat::from_extension(extension)?;
    let mut out = std::io::Cursor::new(Vec::new());
    image::RgbaImage::from_raw(width, height, rgba.clone())?.write_to(&mut out, format).ok()?;
    Some(out.into_inner())
}

} // verus!
