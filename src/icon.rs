use vstd::prelude::*;

verus! {

/// What `image::load_from_memory(png)?.to_rgba8()` gives for some bytes: the RGBA pixel
/// bytes with the width and height, or `None` where the bytes are no image it can decode.
pub uninterp spec fn decoded_rgba(png: Seq<u8>) -> Option<(Seq<u8>, u32, u32)>;

/// Relies on `image::load_from_memory`, `DynamicImage::to_rgba8`, `ImageBuffer::dimensions`
/// and `ImageBuffer::into_raw`: decodes an image into RGBA bytes and its size.
#[verifier::external_body]
fn decode_rgba(png: &[u8]) -> (r: Option<(Vec<u8>, u32, u32)>)
    ensures
        match r {
            Some((px, w, h)) => decoded_rgba(png@) == Some((px@, w, h)),
            None => decoded_rgba(png@) is None,
        },
{
    match image::load_from_memory(png) {
        Ok(img) => {
            let rgba = img.to_rgba8();
            let (w, h) = rgba.dimensions();
            Some((rgba.into_raw(), w, h))
        },
        Err(_) => None,
    }
}

/// Whether RGBA bytes fill a `w` by `h` picture exactly.
pub open spec fn fills(px: Seq<u8>, w: u32, h: u32) -> bool {
    px.len() == 4 * (w as int) * (h as int)
}

/// Decodes the window icon into RGBA bytes, width and height. `None` where the
/// bytes are no image, or the pixels do not fill the picture.
pub fn load_icon(png: &[u8]) -> (r: Option<(Vec<u8>, u32, u32)>)
    ensures
        match decoded_rgba(png@) {
            Some((px, w, h)) => if fills(px, w, h) {
                r matches Some((rp, rw, rh)) && rp@ == px && rw == w && rh == h
            } else {
                r is None
            },
            None => r is None,
        },
{
    match decode_rgba(png) {
        Some((px, w, h)) => {
            let wide: u128 = 4 * (w as u128);
            assert(wide * (h as u128) <= 4 * 0xffff_ffffu128 * 0xffff_ffffu128) by (nonlinear_arith)
                requires wide <= 4 * 0xffff_ffffu128, h <= 0xffff_ffffu32;
            let want: u128 = wide * (h as u128);
            if px.len() as u128 == want {
                Some((px, w, h))
            } else {
                None
            }
        },
        None => None,
    }
}

} // verus!
