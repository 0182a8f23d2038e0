use vstd::prelude::*;

verus! {

/// An image as plain bytes: `width` × `height` pixels, four bytes each.
#[derive(Debug)]
pub struct RawImage {
    pub pixels: Vec<u8>,
    pub width: usize,
    pub height: usize,
}

/// The bytes with red and blue exchanged in every whole four-byte pixel (the
/// order B, G, R, A becomes R, G, B, A and back); trailing bytes that do not
/// make a whole pixel are kept.
pub open spec fn swap_red_blue(s: Seq<u8>) -> Seq<u8> {
    let whole = s.len() - s.len() % 4;
    Seq::new(
        s.len(),
        |i: int|
            if i < whole && i % 4 == 0 {
                s[i + 2]
            } else if i < whole && i % 4 == 2 {
                s[i - 2]
            } else {
                s[i]
            },
    )
}

/// Turns pixels in blue-green-red-alpha order into red-green-blue-alpha order,
/// in place.
pub fn bgra_to_rgba(pixels: &mut Vec<u8>)
    ensures
        final(pixels)@ == swap_red_blue(old(pixels)@),
        final(pixels)@.len() == old(pixels)@.len(),
        forall|i: int|
            #![trigger old(pixels)@[i]]
            0 <= i && i % 4 == 0 && i + 4 <= old(pixels)@.len() ==> {
                &&& final(pixels)@[i] == old(pixels)@[i + 2]
                &&& final(pixels)@[i + 1] == old(pixels)@[i + 1]
                &&& final(pixels)@[i + 2] == old(pixels)@[i]
                &&& final(pixels)@[i + 3] == old(pixels)@[i + 3]
            },
{
    proof {
        law_swap_red_blue_per_pixel(old(pixels)@);
    }
    let ghost orig = pixels@;
    let n = pixels.len();
    let mut i: usize = 0;
    while n - i >= 4
        invariant
            n == pixels@.len(),
            n == orig.len(),
            i % 4 == 0,
            i <= n,
            forall|j: int| 0 <= j < i ==> #[trigger] pixels@[j] == swap_red_blue(orig)[j],
            forall|j: int| i <= j < n ==> #[trigger] pixels@[j] == orig[j],
        decreases n - i,
    {
        let b = pixels[i];
        let r = pixels[i + 2];
        pixels.set(i, r);
        pixels.set(i + 2, b);
        proof {
            assert(i + 4 <= n - n % 4);
            assert forall|j: int| 0 <= j < i + 4 implies #[trigger] pixels@[j] == swap_red_blue(orig)[j] by {
                if j >= i {
                    assert(j % 4 == j - i);
                }
            }
        }
        i = i + 4;
    }
    assert(i == n - n % 4);
    assert(pixels@ =~= swap_red_blue(orig));
}

/// Every whole four-byte pixel has its first and third bytes exchanged and the
/// others kept, and bytes after the last whole pixel are kept.
pub proof fn law_swap_red_blue_per_pixel(s: Seq<u8>)
    ensures
        swap_red_blue(s).len() == s.len(),
        forall|i: int|
            #![trigger s[i]]
            0 <= i && i % 4 == 0 && i + 4 <= s.len() ==> {
                &&& swap_red_blue(s)[i] == s[i + 2]
                &&& swap_red_blue(s)[i + 1] == s[i + 1]
                &&& swap_red_blue(s)[i + 2] == s[i]
                &&& swap_red_blue(s)[i + 3] == s[i + 3]
            },
        forall|i: int|
            0 <= i < s.len() && i - i % 4 + 4 > s.len() ==> #[trigger] swap_red_blue(s)[i] == s[i],
{
    let whole = s.len() - s.len() % 4;
    assert forall|i: int| 0 <= i < s.len() && i - i % 4 + 4 > s.len() implies #[trigger] swap_red_blue(s)[i]
        == s[i] by {
        assert(whole % 4 == 0);
        assert(i >= whole);
    }
    assert forall|i: int|
        #![trigger s[i]]
        0 <= i && i % 4 == 0 && i + 4 <= s.len() implies {
            &&& swap_red_blue(s)[i] == s[i + 2]
            &&& swap_red_blue(s)[i + 1] == s[i + 1]
            &&& swap_red_blue(s)[i + 2] == s[i]
            &&& swap_red_blue(s)[i + 3] == s[i + 3]
        } by {
        assert(whole % 4 == 0);
        assert(i + 4 <= whole);
        assert((i + 1) % 4 == 1);
        assert((i + 2) % 4 == 2);
        assert((i + 3) % 4 == 3);
    }
}

/// Exchanging red and blue twice gives the bytes back.
pub proof fn law_swap_red_blue_involution(s: Seq<u8>)
    ensures
        swap_red_blue(swap_red_blue(s)) == s,
{
    let t = swap_red_blue(s);
    let whole = s.len() - s.len() % 4;
    assert forall|i: int| 0 <= i < s.len() implies #[trigger] swap_red_blue(t)[i] == s[i] by {
        if i < whole && i % 4 == 0 {
            assert((i + 2) % 4 == 2);
            assert(i + 2 < whole);
        } else if i < whole && i % 4 == 2 {
            assert((i - 2) % 4 == 0);
        }
    }
    assert(swap_red_blue(t) =~= s);
}

impl RawImage {
    /// An image from pixels in blue-green-red-alpha order, as the Windows icon
    /// bitmaps hold them.
    pub fn from_bgra(pixels: Vec<u8>, width: usize, height: usize) -> (res: RawImage)
        ensures
            res.pixels@ == swap_red_blue(pixels@),
            res.width == width,
            res.height == height,
    {
        let mut pixels = pixels;
        bgra_to_rgba(&mut pixels);
        RawImage { pixels, width, height }
    }
}

/// The number of bytes of a `width` × `height` image of four-byte pixels, or
/// `None` when it does not fit in a `usize`.
pub fn pixel_buffer_len(width: usize, height: usize) -> (res: Option<usize>)
    ensures
        match res {
            Some(n) => n == width * height * 4,
            None => width * height * 4 > usize::MAX,
        },
{
    match width.checked_mul(height) {
        Some(area) => area.checked_mul(4),
        None => {
            assert(width * height * 4 > usize::MAX) by (nonlinear_arith)
                requires
                    width * height > usize::MAX,
            ;
            None
        },
    }
}

/// What `image::load_from_memory_with_format` with the PNG format, followed by
/// `into_rgba8`, gives for the bytes of an encoded image: its pixels in
/// red-green-blue-alpha order, its width and its height; `None` when the bytes
/// are not a PNG image that decodes.
pub uninterp spec fn decoded_png_rgba8(bytes: Seq<u8>) -> Option<(Seq<u8>, u32, u32)>;

/// Calls `image::load_from_memory_with_format` on the bytes with the built-in
/// PNG format (no format guessing and no registered hooks are involved) and, on
/// success, turns the image into eight-bit RGBA (`into_rgba8`) and hands out its
/// raw buffer and dimensions. The result is claimed to be `decoded_png_rgba8` of
/// the bytes, and the buffer to hold four bytes per pixel, as the decoder's
/// `total_bytes` and the RGBA conversion give it.
#[verifier::external_body]
fn load_png_rgba8(bytes: &[u8]) -> (res: Option<(Vec<u8>, u32, u32)>)
    ensures
        match res {
            Some((p, w, h)) => decoded_png_rgba8(bytes@) == Some((p@, w, h)) && p@.len() == w * h * 4,
            None => decoded_png_rgba8(bytes@) is None,
        },
{
    match image::load_from_memory_with_format(bytes, image::ImageFormat::Png) {
        Ok(img) => {
            let rgba = img.into_rgba8();
            let (w, h) = rgba.dimensions();
            Some((rgba.into_raw(), w, h))
        },
        Err(_) => None,
    }
}

/// Decodes a PNG image into RGBA pixels, or `None` when the bytes are not one.
pub fn decode_rgba_image(bytes: &[u8]) -> (res: Option<RawImage>)
    ensures
        res is Some <==> decoded_png_rgba8(bytes@) is Some,
        res matches Some(img) ==> decoded_png_rgba8(bytes@) == Some(
            (img.pixels@, img.width as u32, img.height as u32),
        ) && img.width < 0x1_0000_0000 && img.height < 0x1_0000_0000
            && img.pixels@.len() == img.width * img.height * 4,
{
    match load_png_rgba8(bytes) {
        Some((pixels, w, h)) => Some(RawImage { pixels, width: w as usize, height: h as usize }),
        None => None,
    }
}

} // verus!
