//! The two points where image bytes cross into and out of the library:
//! decoding source bytes to RGBA pixels and encoding RGBA pixels as PNG.
//! Both are calls into the image crate; each result is named, as a
//! function of the inputs alone, and every contract downstream speaks of
//! those names.

use vstd::prelude::*;

use crate::pixels::Pixels;

verus! {

/// What decoding given bytes to RGBA yields: `None` when the bytes are not
/// a readable image, else width, height and the row-major RGBA samples.
pub uninterp spec fn decoded_image(bytes: Seq<u8>) -> Option<(nat, nat, Seq<u8>)>;

/// What PNG-encoding an RGBA buffer of the given dimensions yields: `None`
/// when encoding fails.
pub uninterp spec fn png_encoding(width: nat, height: nat, rgba: Seq<u8>) -> Option<Seq<u8>>;

/// Relies on image::load_from_memory and DynamicImage::to_rgba8: decoding
/// succeeds or fails as a function of the bytes alone, and the RGBA buffer
/// holds exactly width × height pixels of four bytes.
#[verifier::external_body]
pub(crate) fn decode_image(bytes: &Vec<u8>) -> (r: Option<Pixels>)
    ensures
        r is Some <==> decoded_image(bytes@) is Some,
        r is Some ==> ({
            let dec = decoded_image(bytes@)->0;
            &&& r->0.wf()
            &&& r->0.width as nat == dec.0
            &&& r->0.height as nat == dec.1
            &&& r->0.data@ == dec.2
        }),
{
    let img = match image::load_from_memory(bytes) {
        Ok(img) => img,
        Err(_) => return None,
    };
    let rgba = img.to_rgba8();
    let width = rgba.width();
    let height = rgba.height();
    Some(Pixels { width, height, data: rgba.into_raw() })
}

/// Relies on image::ImageBuffer::from_raw and DynamicImage::write_to with
/// the PNG format: encoding succeeds or fails, and yields its bytes, as a
/// function of the dimensions and samples alone.
#[verifier::external_body]
pub(crate) fn encode_png(p: &Pixels) -> (r: Option<Vec<u8>>)
    requires
        p.wf(),
    ensures
        r is Some <==> png_encoding(p.width as nat, p.height as nat, p.data@) is Some,
        r is Some ==> r->0@ == png_encoding(p.width as nat, p.height as nat, p.data@)->0,
{
    let buf: image::RgbaImage = match image::ImageBuffer::from_raw(
        p.width,
        p.height,
        p.data.clone(),
    ) {
        Some(buf) => buf,
        None => return None,
    };
    let mut out = std::io::Cursor::new(Vec::new());
    match image::DynamicImage::ImageRgba8(buf).write_to(&mut out, image::ImageFormat::Png) {
        Ok(_) => Some(out.into_inner()),
        Err(_) => None,
    }
}

} // verus!
