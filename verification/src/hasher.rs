//! Perceptual hashing, scene-duplicate detection, thumbnail sizing and the
//! on-disk layout of screenshot files.
//!
//! The hash itself comes from the image_hasher crate (8x8 gradient hash, 64
//! bits) behind trusted wrappers; Hamming distance and the duplicate test
//! are verified here.

use vstd::prelude::*;
use crate::error::CoreError;
use crate::text;
use crate::time;

verus! {

// ---------------------------------------------------------------------------
// Outside types
// ---------------------------------------------------------------------------

#[verifier::external_type_specification]
#[verifier::external_body]
pub struct ExDynamicImage(image::DynamicImage);

#[verifier::external_type_specification]
#[verifier::external_body]
#[verifier::reject_recursive_types(B)]
pub struct ExHasher<B>(image_hasher::Hasher<B>);

/// The pixel contents of an image, as the raw RGBA bytes it was built from.
pub uninterp spec fn image_pixels(img: image::DynamicImage) -> Seq<u8>;

/// The width and height of an image.
pub uninterp spec fn image_dims(img: image::DynamicImage) -> (u32, u32);

/// The 8-byte gradient hash of an image with the given pixels and size.
pub uninterp spec fn phash_of(pixels: Seq<u8>, width: u32, height: u32) -> Seq<u8>;

/// Relies on `RgbaImage::from_raw`: with a buffer of exactly `4 * w * h`
/// bytes the image exists and holds those pixels at that size.
#[verifier::external_body]
fn rgba_from_raw(width: u32, height: u32, pixels: Vec<u8>) -> (img: image::DynamicImage)
    requires
        pixels@.len() == 4 * width * height,
    ensures
        image_pixels(img) == pixels@,
        image_dims(img) == (width, height),
{
    image::DynamicImage::ImageRgba8(
        image::RgbaImage::from_raw(width, height, pixels).expect("buffer length checked"),
    )
}

/// Relies on `DynamicImage::clone`: the copy has the same pixels and size.
#[verifier::external_body]
pub fn clone_image(img: &image::DynamicImage) -> (r: image::DynamicImage)
    ensures
        image_pixels(r) == image_pixels(*img),
        image_dims(r) == image_dims(*img),
{
    img.clone()
}

/// Relies on `DynamicImage::resize_exact` with the Lanczos3 filter: the
/// result has exactly the requested dimensions.
#[verifier::external_body]
fn resize_exact_lanczos(img: &image::DynamicImage, nwidth: u32, nheight: u32) -> (r:
    image::DynamicImage)
    requires
        1 <= nwidth,
        1 <= nheight,
    ensures
        image_dims(r) == (nwidth, nheight),
{
    img.resize_exact(nwidth, nheight, image::imageops::FilterType::Lanczos3)
}

// ---------------------------------------------------------------------------
// Perceptual hashing
// ---------------------------------------------------------------------------

/// Perceptual image hasher using an 8x8 gradient hash, producing 64-bit
/// hashes compared by Hamming distance.
pub struct PerceptualHasher {
    hasher: image_hasher::Hasher<std::boxed::Box<[u8]>>,
}

impl PerceptualHasher {
    /// Relies on `HasherConfig` defaults with an 8x8 gradient configuration;
    /// every `PerceptualHasher` is built here, so `hash_image` always uses
    /// this configuration.
    #[verifier::external_body]
    pub fn new() -> PerceptualHasher {
        let hasher = image_hasher::HasherConfig::new()
            .hash_size(8, 8)
            .hash_alg(image_hasher::HashAlg::Gradient)
            .to_hasher();
        PerceptualHasher { hasher }
    }

    /// Relies on `Hasher::hash_image`: the hash is a function of the image's
    /// pixels and size alone, and an 8x8 gradient hash is eight bytes.
    #[verifier::external_body]
    pub fn hash_image(&self, image: &image::DynamicImage) -> (r: Vec<u8>)
        ensures
            r@ == phash_of(image_pixels(*image), image_dims(*image).0, image_dims(*image).1),
            r@.len() == 8,
    {
        self.hasher.hash_image(image).as_bytes().to_vec()
    }

    /// Number of differing bits between two 8-byte hashes; `u32::MAX` when
    /// either hash has the wrong length.
    pub fn hamming_distance(hash_a: &[u8], hash_b: &[u8]) -> (r: u32)
        ensures
            r == spec_hamming(hash_a@, hash_b@),
            hash_a@.len() == 8 && hash_b@.len() == 8 ==> r <= 64,
    {
        if hash_a.len() != 8 || hash_b.len() != 8 {
            return u32::MAX;
        }
        let mut total: u32 = 0;
        let mut i: usize = 0;
        while i < 8
            invariant
                hash_a@.len() == 8,
                hash_b@.len() == 8,
                i <= 8,
                total == ham_prefix(hash_a@, hash_b@, i as int),
                total <= 8 * i,
            decreases 8 - i,
        {
            let x: u8 = hash_a[i] ^ hash_b[i];
            let c: u32 = ((x & 1) as u32) + (((x >> 1) & 1) as u32) + (((x >> 2) & 1) as u32) + (((x
                >> 3) & 1) as u32) + (((x >> 4) & 1) as u32) + (((x >> 5) & 1) as u32) + (((x >> 6)
                & 1) as u32) + (((x >> 7) & 1) as u32);
            proof {
                lemma_popcount8_bound(x);
            }
            total = total + c;
            i = i + 1;
        }
        proof {
            assert(spec_hamming(hash_a@, hash_b@) == ham_prefix(hash_a@, hash_b@, 8));
        }
        total
    }

    /// A frame is a duplicate when its hash is within `threshold` of any
    /// recent hash.
    pub fn is_duplicate(hash: &[u8], recent_hashes: &Vec<(i64, Vec<u8>)>, threshold: u32) -> (r:
        bool)
        ensures
            r == exists|i: int|
                0 <= i < recent_hashes@.len() && spec_hamming(
                    hash@,
                    (#[trigger] recent_hashes@[i]).1@,
                ) <= threshold,
    {
        let n = recent_hashes.len();
        let mut i: usize = 0;
        while i < n
            invariant
                n == recent_hashes@.len(),
                i <= n,
                forall|j: int|
                    0 <= j < i ==> spec_hamming(hash@, (#[trigger] recent_hashes@[j]).1@)
                        > threshold,
            decreases n - i,
        {
            if Self::hamming_distance(hash, recent_hashes[i].1.as_slice()) <= threshold {
                return true;
            }
            i = i + 1;
        }
        false
    }
}

/// Bits set in one byte.
pub open spec fn popcount8(x: u8) -> int {
    (x & 1) + ((x >> 1) & 1) + ((x >> 2) & 1) + ((x >> 3) & 1) + ((x >> 4) & 1) + ((x >> 5) & 1) + (
    (x >> 6) & 1) + ((x >> 7) & 1)
}

/// Differing bits over the first `k` bytes of two 8-byte hashes.
pub open spec fn ham_prefix(a: Seq<u8>, b: Seq<u8>, k: int) -> int
    decreases k,
{
    if k <= 0 {
        0
    } else {
        ham_prefix(a, b, k - 1) + popcount8(a[k - 1] ^ b[k - 1])
    }
}

/// Hamming distance between two hashes: differing bits for two 8-byte
/// hashes, `u32::MAX` otherwise.
pub open spec fn spec_hamming(a: Seq<u8>, b: Seq<u8>) -> int {
    if a.len() == 8 && b.len() == 8 {
        ham_prefix(a, b, 8)
    } else {
        u32::MAX as int
    }
}

proof fn lemma_popcount8_bound(x: u8)
    ensures
        0 <= popcount8(x) <= 8,
{
    assert((x & 1) <= 1 && ((x >> 1) & 1) <= 1 && ((x >> 2) & 1) <= 1 && ((x >> 3) & 1) <= 1 && ((x
        >> 4) & 1) <= 1 && ((x >> 5) & 1) <= 1 && ((x >> 6) & 1) <= 1 && ((x >> 7) & 1) <= 1)
        by (bit_vector);
}

/// A hash is at distance zero from itself.
pub proof fn lemma_hamming_self(a: Seq<u8>)
    requires
        a.len() == 8,
    ensures
        spec_hamming(a, a) == 0,
{
    assert forall|k: int| 0 <= k < 8 implies popcount8(a[k] ^ a[k]) == 0 by {
        let x = a[k];
        assert(x ^ x == 0) by (bit_vector);
        assert(popcount8(0) == 0) by (bit_vector);
    }
    assert forall|k: int| 0 <= k <= 8 implies ham_prefix(a, a, k) == 0 by {
        lemma_ham_prefix_zero(a, k);
    }
}

proof fn lemma_ham_prefix_zero(a: Seq<u8>, k: int)
    requires
        0 <= k <= 8,
        a.len() == 8,
    ensures
        ham_prefix(a, a, k) == 0,
    decreases k,
{
    if k > 0 {
        lemma_ham_prefix_zero(a, k - 1);
        let x = a[k - 1];
        assert(x ^ x == 0) by (bit_vector);
        assert(popcount8(0) == 0) by (bit_vector);
    }
}

// ---------------------------------------------------------------------------
// Thumbnails
// ---------------------------------------------------------------------------

/// The height of a thumbnail scaled from `w` x `h` down to width `mw`:
/// integer-truncated proportional scaling, and never below one pixel.
pub open spec fn thumb_height(w: int, h: int, mw: int) -> int {
    let s = h * mw / w;
    if s == 0 {
        1
    } else {
        s
    }
}

/// Scale an image down to exactly `max_width` pixels wide, with the height
/// scaled in proportion (truncated, at least one pixel); an image already
/// narrow enough comes back unchanged. Never upscales.
pub fn create_thumbnail(image: &image::DynamicImage, max_width: u32) -> (r: image::DynamicImage)
    requires
        1 <= max_width,
        1 <= image_dims(*image).0,
        1 <= image_dims(*image).1,
    ensures
        image_dims(*image).0 <= max_width ==> image_dims(r) == image_dims(*image)
            && image_pixels(r) == image_pixels(*image),
        image_dims(*image).0 > max_width ==> image_dims(r).0 == max_width && image_dims(r).1
            == thumb_height(
            image_dims(*image).0 as int,
            image_dims(*image).1 as int,
            max_width as int,
        ),
        image_dims(r).0 <= image_dims(*image).0,
        1 <= image_dims(r).1 <= image_dims(*image).1,
{
    let w = image_width(image);
    let h = image_height(image);
    if w <= max_width {
        return clone_image(image);
    }
    // target height by integer scaling, at least one pixel
    proof {
        assert((h as int) * (max_width as int) <= 0xFFFF_FFFF * 0xFFFF_FFFF) by (nonlinear_arith)
            requires
                h <= 0xFFFF_FFFF,
                max_width <= 0xFFFF_FFFF,
        ;
        assert((h as int) * (max_width as int) / (w as int) <= h as int) by (nonlinear_arith)
            requires
                1 <= w as int,
                1 <= h as int,
                max_width < w,
        ;
    }
    let scaled: u64 = (h as u64) * (max_width as u64) / (w as u64);
    let new_height: u32 = if scaled == 0 {
        1
    } else {
        scaled as u32
    };
    resize_exact_lanczos(image, max_width, new_height)
}

/// Relies on `DynamicImage::width`.
#[verifier::external_body]
pub fn image_width(img: &image::DynamicImage) -> (r: u32)
    ensures
        r == image_dims(*img).0,
{
    img.width()
}

/// Relies on `DynamicImage::height`.
#[verifier::external_body]
pub fn image_height(img: &image::DynamicImage) -> (r: u32)
    ensures
        r == image_dims(*img).1,
{
    img.height()
}

/// Build a `DynamicImage` from raw RGBA pixel data; rejects a buffer too
/// short for the dimensions, and reads the first `4 * width * height` bytes
/// of a longer one.
pub fn image_from_rgba(pixels: &Vec<u8>, width: u32, height: u32) -> (r: Result<
    image::DynamicImage,
    CoreError,
>)
    ensures
        r is Ok <==> pixels@.len() >= 4 * width * height,
        r is Ok ==> image_pixels(r.unwrap()) == pixels@.subrange(
            0,
            4 * width as int * height as int,
        ) && image_dims(r.unwrap()) == (width, height),
{
    proof {
        assert(4 * (width as int) * (height as int) <= 4 * 0xFFFF_FFFF * 0xFFFF_FFFF)
            by (nonlinear_arith)
            requires
                width <= 0xFFFF_FFFF,
                height <= 0xFFFF_FFFF,
        ;
    }
    let expected: u128 = 4u128 * (width as u128) * (height as u128);
    if (pixels.len() as u128) < expected {
        return Err(CoreError::Hash(String::from_str("invalid pixel buffer dimensions")));
    }
    let mut copy = crate::schema::copy_bytes(pixels);
    copy.truncate(expected as usize);
    Ok(rgba_from_raw(width, height, copy))
}

// ---------------------------------------------------------------------------
// File layout
// ---------------------------------------------------------------------------

/// The path of a full-resolution screenshot:
/// `{dir}/YYYY-MM-DD/{timestamp_ms}.webp`, with the date taken in UTC.
pub fn screenshot_path(screenshots_dir: &str, timestamp_ms: i64) -> (r: String)
    requires
        0 <= timestamp_ms <= 1000 * time::MAX_TIMESTAMP as int + 999,
    ensures
        r@ == screenshots_dir@ + "/"@ + time::utc_date_of(((timestamp_ms as int) / 1000) as i64) + "/"@
            + text::dec_string(timestamp_ms as int) + ".webp"@,
{
    let secs = timestamp_ms / 1000;
    let date = time::format_utc_date(secs);
    let ms = text::i64_to_string(timestamp_ms);
    let mut out = String::from_str(screenshots_dir);
    out.append("/");
    out.append(date.as_str());
    out.append("/");
    out.append(ms.as_str());
    out.append(".webp");
    out
}

/// The path of a thumbnail:
/// `{dir}/YYYY-MM-DD/thumbs/{timestamp_ms}.webp`, with the date in UTC.
pub fn thumbnail_path(screenshots_dir: &str, timestamp_ms: i64) -> (r: String)
    requires
        0 <= timestamp_ms <= 1000 * time::MAX_TIMESTAMP as int + 999,
    ensures
        r@ == screenshots_dir@ + "/"@ + time::utc_date_of(((timestamp_ms as int) / 1000) as i64) + "/thumbs/"@
            + text::dec_string(timestamp_ms as int) + ".webp"@,
{
    let secs = timestamp_ms / 1000;
    let date = time::format_utc_date(secs);
    let ms = text::i64_to_string(timestamp_ms);
    let mut out = String::from_str(screenshots_dir);
    out.append("/");
    out.append(date.as_str());
    out.append("/thumbs/");
    out.append(ms.as_str());
    out.append(".webp");
    out
}

} // verus!
