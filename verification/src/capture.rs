//! One tick of the capture loop.
//!
//! A tick takes whatever the capture source yielded — a raw pixel buffer,
//! or nothing on a transient failure — normalizes it to an RGB buffer (an
//! all-zero placeholder stands in for a failed capture, so the cadence of
//! parts never breaks), encodes it as JPEG, and publishes the result.  An
//! encoder failure drops the tick's frame and leaves the broadcaster
//! untouched; it never ends the loop.

use vstd::prelude::*;
use crate::broadcaster::{publish_spec, Broadcaster};

verus! {

/// The JPEG bytes the image crate's encoder produces for an RGB8 buffer of
/// the given dimensions; they depend on the buffer and dimensions alone.
pub uninterp spec fn jpeg_encoding(pixels: Seq<u8>, width: u32, height: u32) -> Seq<u8>;

#[verifier::external_type_specification]
#[verifier::external_body]
pub struct ExImageError(image::ImageError);

/// Relies on image's `JpegEncoder::encode` with `ExtendedColorType::Rgb8`:
/// writing into a `Vec` sink, it returns the JPEG encoding of the buffer, a
/// function of the buffer and dimensions alone; it panics unless the buffer
/// length is exactly `width * height * 3`; it rejects zero or over-16-bit
/// dimensions with an error, and that dimension check is its only failure
/// path, since every write into the `Vec` sink succeeds.
#[verifier::external_body]
fn encode_rgb_jpeg(pixels: &Vec<u8>, width: u32, height: u32) -> (r: Result<
    Vec<u8>,
    image::ImageError,
>)
    requires
        pixels@.len() == width * height * 3,
    ensures
        r matches Ok(b) ==> b@ == jpeg_encoding(pixels@, width, height),
        r is Ok <==> (0 < width <= 0xFFFF && 0 < height <= 0xFFFF),
{
    let mut out: Vec<u8> = Vec::new();
    let mut encoder = image::codecs::jpeg::JpegEncoder::new(&mut out);
    match encoder.encode(pixels.as_slice(), width, height, image::ExtendedColorType::Rgb8) {
        Ok(()) => Ok(out),
        Err(e) => Err(e),
    }
}

/// Pixel layout a capture backend yields; the encoder wants RGB, so each
/// layout has its own normalization.
#[derive(Clone, Copy, Debug, PartialEq, Eq, Structural)]
pub enum PixelFormat {
    /// Four bytes per pixel: blue, green, red, alpha.
    Bgra,
    /// Three bytes per pixel: blue, green, red.
    Bgr,
}

/// Bytes one captured pixel occupies in the given layout.
pub open spec fn bytes_per_pixel(f: PixelFormat) -> nat {
    match f {
        PixelFormat::Bgra => 4,
        PixelFormat::Bgr => 3,
    }
}

/// The RGB bytes for a BGRA buffer: per pixel, the B and R samples swap and
/// the alpha sample is dropped.
pub open spec fn rgb_of_bgra(pixels: Seq<u8>) -> Seq<u8> {
    Seq::new(pixels.len() / 4 * 3, |i: int| pixels[i / 3 * 4 + (2 - i % 3)])
}

/// The RGB bytes for a BGR buffer: per pixel, the B and R samples swap.
pub open spec fn rgb_of_bgr(pixels: Seq<u8>) -> Seq<u8> {
    Seq::new(pixels.len() / 3 * 3, |i: int| pixels[i / 3 * 3 + (2 - i % 3)])
}

/// The RGB bytes for a capture buffer in the given layout.
pub open spec fn normalized_rgb(f: PixelFormat, pixels: Seq<u8>) -> Seq<u8> {
    match f {
        PixelFormat::Bgra => rgb_of_bgra(pixels),
        PixelFormat::Bgr => rgb_of_bgr(pixels),
    }
}

/// The all-zero RGB buffer that stands in for a failed capture.
pub open spec fn placeholder_rgb(width: u32, height: u32) -> Seq<u8> {
    Seq::new((width * height * 3) as nat, |i: int| 0u8)
}

/// The RGB buffer one tick encodes: the capture result normalized when it
/// has the expected size, the placeholder otherwise.
pub open spec fn tick_rgb(f: PixelFormat, capture: Option<Seq<u8>>, width: u32, height: u32) -> Seq<
    u8,
> {
    match capture {
        Some(p) => if p.len() == width * height * bytes_per_pixel(f) {
            normalized_rgb(f, p)
        } else {
            placeholder_rgb(width, height)
        },
        None => placeholder_rgb(width, height),
    }
}

/// Converts a BGRA capture buffer to the RGB layout the encoder expects.
pub fn bgra_to_rgb(pixels: &[u8], width: u32, height: u32) -> (r: Vec<u8>)
    requires
        pixels@.len() == width * height * 4,
        width * height * 4 <= usize::MAX,
    ensures
        r@ == rgb_of_bgra(pixels@),
{
    let n: usize = (width as usize) * (height as usize);
    let mut r: Vec<u8> = Vec::new();
    let mut p: usize = 0;
    while p < n
        invariant
            n == width * height,
            n * 4 <= usize::MAX,
            pixels@.len() == n * 4,
            p <= n,
            r@.len() == p * 3,
            forall|q: int| 0 <= q < p ==> #[trigger] r@[3 * q] == pixels@[4 * q + 2]
                && r@[3 * q + 1] == pixels@[4 * q + 1] && r@[3 * q + 2] == pixels@[4 * q],
        decreases n - p,
    {
        let ghost r0 = r@;
        let ghost p0 = p as int;
        r.push(pixels[4 * p + 2]);
        r.push(pixels[4 * p + 1]);
        r.push(pixels[4 * p]);
        p = p + 1;
        proof {
            assert forall|q: int| 0 <= q < p implies #[trigger] r@[3 * q] == pixels@[4 * q + 2]
                && r@[3 * q + 1] == pixels@[4 * q + 1] && r@[3 * q + 2] == pixels@[4 * q] by {
                if q < p0 {
                    assert(r@[3 * q] == r0[3 * q]);
                    assert(r@[3 * q + 1] == r0[3 * q + 1]);
                    assert(r@[3 * q + 2] == r0[3 * q + 2]);
                } else {
                    assert(r@[3 * p0] == pixels@[4 * p0 + 2]);
                    assert(r@[3 * p0 + 1] == pixels@[4 * p0 + 1]);
                    assert(r@[3 * p0 + 2] == pixels@[4 * p0]);
                }
            }
        }
    }
    proof {
        assert forall|i: int| 0 <= i < r@.len() implies r@[i] == rgb_of_bgra(pixels@)[i] by {
            let q = i / 3;
            let c = i % 3;
            assert(i == 3 * q + c);
            assert(r@[3 * q] == pixels@[4 * q + 2]);
            assert(r@[3 * q + 1] == pixels@[4 * q + 1]);
            assert(r@[3 * q + 2] == pixels@[4 * q]);
        }
        assert(r@ =~= rgb_of_bgra(pixels@));
    }
    r
}

/// Converts a BGR capture buffer to the RGB layout the encoder expects.
pub fn bgr_to_rgb(pixels: &[u8], width: u32, height: u32) -> (r: Vec<u8>)
    requires
        pixels@.len() == width * height * 3,
        width * height * 3 <= usize::MAX,
    ensures
        r@ == rgb_of_bgr(pixels@),
{
    let n: usize = (width as usize) * (height as usize);
    let mut r: Vec<u8> = Vec::new();
    let mut p: usize = 0;
    while p < n
        invariant
            n == width * height,
            n * 3 <= usize::MAX,
            pixels@.len() == n * 3,
            p <= n,
            r@.len() == p * 3,
            forall|q: int| 0 <= q < p ==> #[trigger] r@[3 * q] == pixels@[3 * q + 2]
                && r@[3 * q + 1] == pixels@[3 * q + 1] && r@[3 * q + 2] == pixels@[3 * q],
        decreases n - p,
    {
        let ghost r0 = r@;
        let ghost p0 = p as int;
        r.push(pixels[3 * p + 2]);
        r.push(pixels[3 * p + 1]);
        r.push(pixels[3 * p]);
        p = p + 1;
        proof {
            assert forall|q: int| 0 <= q < p implies #[trigger] r@[3 * q] == pixels@[3 * q + 2]
                && r@[3 * q + 1] == pixels@[3 * q + 1] && r@[3 * q + 2] == pixels@[3 * q] by {
                if q < p0 {
                    assert(r@[3 * q] == r0[3 * q]);
                    assert(r@[3 * q + 1] == r0[3 * q + 1]);
                    assert(r@[3 * q + 2] == r0[3 * q + 2]);
                } else {
                    assert(r@[3 * p0] == pixels@[3 * p0 + 2]);
                    assert(r@[3 * p0 + 1] == pixels@[3 * p0 + 1]);
                    assert(r@[3 * p0 + 2] == pixels@[3 * p0]);
                }
            }
        }
    }
    proof {
        assert forall|i: int| 0 <= i < r@.len() implies r@[i] == rgb_of_bgr(pixels@)[i] by {
            let q = i / 3;
            let c = i % 3;
            assert(i == 3 * q + c);
            assert(r@[3 * q] == pixels@[3 * q + 2]);
            assert(r@[3 * q + 1] == pixels@[3 * q + 1]);
            assert(r@[3 * q + 2] == pixels@[3 * q]);
        }
        assert(r@ =~= rgb_of_bgr(pixels@));
    }
    r
}

/// The all-zero placeholder buffer for one frame of the given dimensions.
pub fn placeholder(width: u32, height: u32) -> (r: Vec<u8>)
    requires
        width * height * 3 <= usize::MAX,
    ensures
        r@ == placeholder_rgb(width, height),
{
    let n: usize = (width as usize) * (height as usize) * 3;
    let mut r: Vec<u8> = Vec::new();
    let mut i: usize = 0;
    while i < n
        invariant
            i <= n,
            r@.len() == i,
            forall|q: int| 0 <= q < i ==> #[trigger] r@[q] == 0u8,
        decreases n - i,
    {
        r.push(0u8);
        i = i + 1;
    }
    proof {
        assert(r@ =~= placeholder_rgb(width, height));
    }
    r
}

/// The RGB buffer for one tick: the normalized capture on success, the
/// placeholder on a failed or malformed capture.
pub fn tick_buffer(f: PixelFormat, capture: Option<Vec<u8>>, width: u32, height: u32) -> (r: Vec<
    u8,
>)
    requires
        width * height * 4 <= usize::MAX,
    ensures
        r@ == tick_rgb(f, capture.deep_view(), width, height),
{
    let bpp: usize = match f {
        PixelFormat::Bgra => 4,
        PixelFormat::Bgr => 3,
    };
    let expected: usize = (width as usize) * (height as usize) * bpp;
    match capture {
        Some(p) => {
            if p.len() == expected {
                match f {
                    PixelFormat::Bgra => bgra_to_rgb(p.as_slice(), width, height),
                    PixelFormat::Bgr => bgr_to_rgb(p.as_slice(), width, height),
                }
            } else {
                placeholder(width, height)
            }
        },
        None => placeholder(width, height),
    }
}

/// Runs one tick of the capture loop against the broadcaster: builds the
/// tick's RGB buffer from the capture result — the placeholder when the
/// capture failed, so cadence never breaks — encodes it, and publishes the
/// JPEG bytes to every subscriber.  A frame is published exactly when the
/// dimensions are encodable (nonzero, at most 16 bits each); otherwise the
/// tick's frame is dropped and the broadcaster is left unchanged.
pub fn capture_tick(
    b: &mut Broadcaster,
    f: PixelFormat,
    capture: Option<Vec<u8>>,
    width: u32,
    height: u32,
) -> (published: bool)
    requires
        old(b).wf(),
        width * height * 4 <= usize::MAX,
    ensures
        final(b).wf(),
        final(b).cap() == old(b).cap(),
        final(b).fresh() == old(b).fresh(),
        published == (0 < width <= 0xFFFF && 0 < height <= 0xFFFF),
        published ==> ({
            let jpeg = jpeg_encoding(
                tick_rgb(f, capture.deep_view(), width, height),
                width,
                height,
            );
            final(b).subs() == publish_spec(old(b).subs(), jpeg, old(b).cap())
                && final(b).last() == Some(jpeg)
        }),
        !published ==> *final(b) == *old(b),
{
    let buf = tick_buffer(f, capture, width, height);
    match encode_rgb_jpeg(&buf, width, height) {
        Ok(jpeg) => {
            b.publish(jpeg.as_slice());
            true
        },
        Err(_) => false,
    }
}

} // verus!
