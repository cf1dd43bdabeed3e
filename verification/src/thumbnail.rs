//! Thumbnail generation for image clipboard items.
//!
//! The decoding, scaling and encoding of images stand behind the wrappers at
//! the head of the file. What decides (whether to scale, which format of an
//! item to take, where the thumbnail goes) is verified.

use crate::error::{Error, Result};
use crate::ids::{hyphenated_text, ItemId};
use crate::model::Format;
use crate::paths::{thumb_path, thumb_path_of};
use crate::store::db::{format_views, lists_formats, DbState};
use crate::store::Store;
use crate::text::{join2, same_text};
use vstd::prelude::*;

verus! {

/// Default longest edge (pixels) for generated thumbnails.
pub const DEFAULT_MAX_EDGE: u32 = 256;

// ---------------------------------------------------------------------------
// Images
// ---------------------------------------------------------------------------

/// A decoded image of the `image` crate.
#[verifier::external_type_specification]
#[verifier::external_body]
pub struct ExDynamicImage(image::DynamicImage);

/// What a decoded image holds: its size, how large a pixel is and how many
/// samples it has, its colour layout and its samples.
pub struct Picture {
    pub width: u32,
    pub height: u32,
    pub pixel_bytes: u8,
    pub channels: u8,
    pub colour: Seq<nat>,
    pub samples: Seq<u8>,
}

/// What an image holds.
pub uninterp spec fn picture_of(img: image::DynamicImage) -> Picture;

/// The picture that encoded bytes stand for, or the text of the error.
pub uninterp spec fn decoded_picture(bytes: Seq<u8>) -> std::result::Result<Picture, Seq<char>>;

/// The picture scaled to fit into `width` by `height`, its aspect ratio kept.
pub uninterp spec fn scaled_picture(p: Picture, width: u32, height: u32) -> Picture;

/// The picture as a PNG file, or the text of the error.
pub uninterp spec fn png_of(p: Picture) -> std::result::Result<Seq<u8>, Seq<char>>;

/// `image::load_from_memory`: the picture in a PNG, JPEG, WebP or BMP file, by
/// its content; a function of the bytes alone.
#[verifier::external_body]
fn decode_image(bytes: &[u8]) -> (r: std::result::Result<image::DynamicImage, String>)
    ensures
        match r {
            Ok(img) => decoded_picture(bytes@) == Ok::<Picture, Seq<char>>(picture_of(img)),
            Err(e) => decoded_picture(bytes@) == Err::<Picture, Seq<char>>(e@),
        },
{
    image::load_from_memory(bytes).map_err(|e| e.to_string())
}

/// `DynamicImage::width`: the number of columns.
#[verifier::external_body]
fn image_width(img: &image::DynamicImage) -> (r: u32)
    ensures
        r == picture_of(*img).width,
{
    img.width()
}

/// `DynamicImage::height`: the number of rows.
#[verifier::external_body]
fn image_height(img: &image::DynamicImage) -> (r: u32)
    ensures
        r == picture_of(*img).height,
{
    img.height()
}

/// `DynamicImage::color` and `ColorType::bytes_per_pixel`: the bytes of a pixel.
#[verifier::external_body]
fn image_pixel_bytes(img: &image::DynamicImage) -> (r: u8)
    ensures
        r == picture_of(*img).pixel_bytes,
{
    img.color().bytes_per_pixel()
}

/// `DynamicImage::color` and `ColorType::channel_count`: the samples of a pixel.
#[verifier::external_body]
fn image_channels(img: &image::DynamicImage) -> (r: u8)
    ensures
        r == picture_of(*img).channels,
{
    img.color().channel_count()
}

/// `DynamicImage::thumbnail` with a square bound, for an image that exceeds
/// it: the longer edge becomes the bound and the shorter one follows the aspect
/// ratio to the pixel, both at least one pixel and never larger than before.
/// The samples of the pixels that are averaged into one are summed up in 32
/// bits, which they must not overflow.
#[verifier::external_body]
fn scale_image(img: &image::DynamicImage, max_edge: u32) -> (r: image::DynamicImage)
    requires
        exceeds(picture_of(*img).width, picture_of(*img).height, max_edge),
        can_be_averaged(picture_of(*img), max_edge),
    ensures
        picture_of(r) == scaled_picture(picture_of(*img), max_edge, max_edge),
        max_edge >= 1 && picture_of(*img).width >= 1 && picture_of(*img).height >= 1
            ==> is_scaled_down(picture_of(*img), picture_of(r), max_edge),
{
    img.thumbnail(max_edge, max_edge)
}

/// `DynamicImage::write_to` with `ImageFormat::Png`, into memory: a function of
/// the picture alone.
#[verifier::external_body]
fn encode_png(img: &image::DynamicImage) -> (r: std::result::Result<Vec<u8>, String>)
    ensures
        match r {
            Ok(bytes) => png_of(picture_of(*img)) == Ok::<Seq<u8>, Seq<char>>(bytes@),
            Err(e) => png_of(picture_of(*img)) == Err::<Seq<u8>, Seq<char>>(e@),
        },
{
    let mut buf = std::io::Cursor::new(Vec::new());
    img.write_to(&mut buf, image::ImageFormat::Png).map_err(|e| e.to_string())?;
    Ok(buf.into_inner())
}

/// The longer edge is the bound, and neither is empty or grew.
pub open spec fn is_reduced(p: Picture, q: Picture, max_edge: u32) -> bool {
    &&& 1 <= q.width <= max_edge
    &&& 1 <= q.height <= max_edge
    &&& q.width <= p.width
    &&& q.height <= p.height
    &&& p.width >= p.height ==> q.width == max_edge
    &&& p.height >= p.width ==> q.height == max_edge
}

/// The longer edge is the bound, the other is what the aspect ratio gives, and
/// neither is empty or grew.
pub open spec fn is_scaled_down(p: Picture, q: Picture, max_edge: u32) -> bool {
    &&& is_reduced(p, q, max_edge)
    &&& p.width >= p.height ==> is_proportional(
        q.height,
        p.height,
        p.width,
        max_edge,
    )
    &&& p.height >= p.width ==> is_proportional(
        q.width,
        p.width,
        p.height,
        max_edge,
    )
}

/// The edge is `shorter` scaled as `longer` is to `max_edge`, rounded to the
/// nearest pixel, and at least one. An edge of more than 131,072 pixels can be
/// rounded the other way.
pub open spec fn is_proportional(edge: u32, shorter: u32, longer: u32, max_edge: u32) -> bool {
    let exact = 2 * shorter * max_edge;
    let slack = if edge > 131_072 {
        2 * longer
    } else {
        longer as int
    };
    &&& exact - slack <= 2 * edge * longer
    &&& 2 * edge * longer <= exact + slack || edge == 1
}

/// The least length of the shorter edge of a thumbnail: what the aspect ratio
/// gives, to the nearest pixel and the lower of two, or one less where it is so
/// long that it can be rounded the other way.
pub open spec fn least_edge(shorter: u32, longer: u32, max_edge: u32) -> int {
    let edge = (2 * shorter * max_edge + longer - 1) / (2 * longer);
    if edge < 1 {
        1
    } else if edge > 131_072 {
        edge - 1
    } else {
        edge
    }
}

/// The most pixels in a row that become one where an edge of `length` is scaled
/// to at least `target`. Places beyond 24 bits are rounded, which can add some.
pub open spec fn most_merged(length: u32, target: int) -> int {
    let merged = (length + target - 1) / target + if length > 0x100_0000 {
        length / 0x40_0000 + 2
    } else {
        0
    };
    if merged > length {
        length as int
    } else {
        merged
    }
}

/// The most pixels that become one pixel of the thumbnail.
pub open spec fn most_averaged(width: u32, height: u32, max_edge: u32) -> int {
    let longer = if width >= height {
        width
    } else {
        height
    };
    let shorter = if width >= height {
        height
    } else {
        width
    };
    let bound = if max_edge < 1 {
        1
    } else {
        max_edge as int
    };
    most_merged(longer, bound) * most_merged(shorter, least_edge(shorter, longer, max_edge))
}

/// The most pixels whose samples can be summed up and rounded in 32 bits.
pub open spec fn summable(pixel_bytes: u8, channels: u8) -> int {
    if pixel_bytes <= channels {
        16_810_048
    } else {
        65_536
    }
}

/// No pixel of the thumbnail averages more pixels than can be summed up.
pub open spec fn can_be_averaged(p: Picture, max_edge: u32) -> bool {
    most_averaged(p.width, p.height, max_edge) <= summable(p.pixel_bytes, p.channels)
}

fn least_edge_of(shorter: u32, longer: u32, max_edge: u32) -> (r: u128)
    requires
        shorter <= longer,
        longer >= 1,
    ensures
        r == least_edge(shorter, longer, max_edge),
        1 <= r <= 0x1_0000_0000_0000_0000_0000,
{
    assert(0 <= 2 * shorter * max_edge <= 0x2_0000_0000_0000_0000) by (nonlinear_arith)
        requires
            0 <= shorter <= u32::MAX,
            0 <= max_edge <= u32::MAX,
    ;
    assert((shorter as u128 * max_edge as u128) <= 0x1_0000_0000_0000_0000) by (nonlinear_arith)
        requires
            0 <= shorter <= u32::MAX,
            0 <= max_edge <= u32::MAX,
    ;
    assert(2 * shorter * max_edge == 2 * (shorter * max_edge)) by (nonlinear_arith);
    let product: u128 = shorter as u128 * max_edge as u128;
    let edge: u128 = (2 * product + longer as u128 - 1) / (2 * longer as u128);
    assert(edge <= 2 * product + longer) by (nonlinear_arith)
        requires
            edge == (2 * product + longer - 1) / (2 * longer as int),
            longer >= 1,
    ;
    if edge < 1 {
        1
    } else if edge > 131_072 {
        edge - 1
    } else {
        edge
    }
}

fn merged_at_most(length: u32, target: u128) -> (r: u32)
    requires
        1 <= target <= 0x1_0000_0000_0000_0000_0000,
    ensures
        r == most_merged(length, target as int),
{
    let mut merged: u128 = (length as u128 + target - 1) / target;
    if length > 0x100_0000 {
        assert(merged <= length + target) by (nonlinear_arith)
            requires
                merged == (length + target - 1) / (target as int),
                target >= 1,
                length >= 0,
        ;
        merged = merged + (length / 0x40_0000 + 2) as u128;
    }
    if merged > length as u128 {
        length
    } else {
        merged as u32
    }
}

/// Whether an image of this kind can be scaled: whether no pixel of its
/// thumbnail averages more pixels than can be summed up.
pub fn averages_few(width: u32, height: u32, pixel_bytes: u8, channels: u8, max_edge: u32) -> (r:
    bool)
    ensures
        r == (most_averaged(width, height, max_edge) <= summable(pixel_bytes, channels)),
{
    let longer = if width >= height {
        width
    } else {
        height
    };
    let shorter = if width >= height {
        height
    } else {
        width
    };
    if longer == 0 {
        return true;
    }
    let bound: u128 = if max_edge < 1 {
        1
    } else {
        max_edge as u128
    };
    let a = merged_at_most(longer, bound);
    let b = merged_at_most(shorter, least_edge_of(shorter, longer, max_edge));
    assert(0 <= a * b <= u64::MAX) by (nonlinear_arith)
        requires
            0 <= a <= u32::MAX,
            0 <= b <= u32::MAX,
    ;
    let most: u64 = a as u64 * b as u64;
    if pixel_bytes <= channels {
        most <= 16_810_048
    } else {
        most <= 65_536
    }
}

/// An edge exceeds the bound.
pub open spec fn exceeds(width: u32, height: u32, max_edge: u32) -> bool {
    width > max_edge || height > max_edge
}

/// Whether an image of this size is scaled: only when at least one dimension
/// exceeds `max_edge`, so that no image is ever scaled up.
pub fn needs_scaling(width: u32, height: u32, max_edge: u32) -> (r: bool)
    ensures
        r == exceeds(width, height, max_edge),
{
    width > max_edge || height > max_edge
}

/// Half of the longer edge of a picture, rounded up.
pub open spec fn half_edge(width: u32, height: u32) -> u32 {
    let longer = if width >= height {
        width
    } else {
        height
    };
    (longer / 2 + longer % 2) as u32
}

/// The picture that a thumbnail shows: the picture itself where it does not
/// exceed the bound, else the picture scaled. Where that would average too many
/// pixels into one, it is scaled to half its size first, at most `steps` times.
pub open spec fn thumbnail_picture(p: Picture, max_edge: u32, steps: nat) -> Option<Picture>
    decreases steps,
{
    let half = half_edge(p.width, p.height);
    if !exceeds(p.width, p.height, max_edge) {
        Some(p)
    } else if can_be_averaged(p, max_edge) {
        Some(scaled_picture(p, max_edge, max_edge))
    } else if steps > 0 && half > max_edge && exceeds(p.width, p.height, half)
        && can_be_averaged(p, half) {
        thumbnail_picture(scaled_picture(p, half, half), max_edge, (steps - 1) as nat)
    } else {
        None
    }
}

/// How often an edge can be halved.
pub const HALVINGS: u32 = 32;

/// Scale an image down to the bound; none where it cannot be.
fn shrink(img: image::DynamicImage, max_edge: u32, steps: u32) -> (r: Option<image::DynamicImage>)
    ensures
        match r {
            Some(out) => thumbnail_picture(picture_of(img), max_edge, steps as nat) == Some(
                picture_of(out),
            ),
            None => thumbnail_picture(picture_of(img), max_edge, steps as nat) is None,
        },
        r matches Some(out) ==> is_thumbnail(picture_of(img), picture_of(out), max_edge),
    decreases steps,
{
    let width = image_width(&img);
    let height = image_height(&img);
    if !needs_scaling(width, height, max_edge) {
        return Some(img);
    }
    let pixel_bytes = image_pixel_bytes(&img);
    let channels = image_channels(&img);
    if averages_few(width, height, pixel_bytes, channels, max_edge) {
        return Some(scale_image(&img, max_edge));
    }
    let longer = if width >= height {
        width
    } else {
        height
    };
    let half = longer / 2 + longer % 2;
    if steps > 0 && half > max_edge && needs_scaling(width, height, half) && averages_few(
        width,
        height,
        pixel_bytes,
        channels,
        half,
    ) {
        let smaller = scale_image(&img, half);
        shrink(smaller, max_edge, steps - 1)
    } else {
        None
    }
}

/// What holds of a thumbnail: a picture within the bound is not changed, and
/// one that exceeds it is scaled down to it, in one step where that can be.
pub open spec fn is_thumbnail(p: Picture, q: Picture, max_edge: u32) -> bool {
    &&& !exceeds(p.width, p.height, max_edge) ==> q == p
    &&& max_edge >= 1 && p.width >= 1 && p.height >= 1 && exceeds(p.width, p.height, max_edge)
        ==> is_reduced(p, q, max_edge) && (can_be_averaged(p, max_edge) ==> is_scaled_down(
        p,
        q,
        max_edge,
    ))
}

/// The thumbnail of encoded bytes, or the text of the error.
pub open spec fn thumbnail_of(bytes: Seq<u8>, max_edge: u32) -> std::result::Result<
    Seq<u8>,
    Seq<char>,
> {
    match decoded_picture(bytes) {
        Err(e) => Err("thumbnail decode: "@ + e),
        Ok(p) => match thumbnail_picture(p, max_edge, HALVINGS as nat) {
            None => Err("thumbnail scale: too many pixels to average"@),
            Some(q) => match png_of(q) {
                Err(e) => Err("thumbnail encode: "@ + e),
                Ok(png) => Ok(png),
            },
        },
    }
}

/// The file is the PNG form of a thumbnail of the picture that the bytes stand
/// for.
pub open spec fn holds_thumbnail(bytes: Seq<u8>, png: Seq<u8>, max_edge: u32) -> bool {
    exists|p: Picture, q: Picture|
        decoded_picture(bytes) == Ok::<Picture, Seq<char>>(p) && #[trigger] is_thumbnail(
            p,
            q,
            max_edge,
        ) && png_of(q) == Ok::<Seq<u8>, Seq<char>>(png)
}

/// Decode `image_bytes` (PNG / JPEG / WebP / BMP), downscale so the longest
/// edge is `<= max_edge` while preserving the aspect ratio, and re-encode the
/// result as PNG bytes.
///
/// Images that are already small enough (both dimensions `<= max_edge`) are
/// re-encoded to PNG without any resize step, so this function **never
/// upscales**.
///
/// Errors (undecodable input, an image too large to be scaled even by half,
/// encode failure) are returned as [`Error::Other`].
pub fn make_thumbnail(image_bytes: &[u8], max_edge: u32) -> (r: Result<Vec<u8>>)
    ensures
        match r {
            Ok(png) => thumbnail_of(image_bytes@, max_edge) == Ok::<Seq<u8>, Seq<char>>(png@),
            Err(e) => e matches Error::Other(text) && thumbnail_of(image_bytes@, max_edge) == Err::<
                Seq<u8>,
                Seq<char>,
            >(text@),
        },
        decoded_picture(image_bytes@) matches Ok(p) ==> (thumbnail_picture(
            p,
            max_edge,
            HALVINGS as nat,
        ) matches Some(q) ==> is_thumbnail(p, q, max_edge)),
        r matches Ok(png) ==> holds_thumbnail(image_bytes@, png@, max_edge),
{
    let img = match decode_image(image_bytes) {
        Ok(img) => img,
        Err(e) => {
            return Err(Error::Other(join2("thumbnail decode: ", e.as_str())));
        },
    };
    let ghost p = picture_of(img);
    let resized = match shrink(img, max_edge, HALVINGS) {
        Some(img) => img,
        None => {
            return Err(Error::Other("thumbnail scale: too many pixels to average".to_owned()));
        },
    };
    match encode_png(&resized) {
        Ok(png) => {
            assert(is_thumbnail(p, picture_of(resized), max_edge));
            Ok(png)
        },
        Err(e) => Err(Error::Other(join2("thumbnail encode: ", e.as_str()))),
    }
}

// ---------------------------------------------------------------------------
// What holds of every thumbnail
// ---------------------------------------------------------------------------

/// A thumbnail file shows the decoded picture: as it is where neither edge
/// exceeds the bound, else with the longer edge as long as the bound and the
/// other no longer, whichever of the two is longer, and where it is scaled in
/// one step with the aspect ratio kept, to the pixel or at one pixel. The result
/// is the picture that the file holds.
pub proof fn law_thumbnail_file_is_bounded(bytes: Seq<u8>, png: Seq<u8>, max_edge: u32) -> (q:
    Picture)
    requires
        holds_thumbnail(bytes, png, max_edge),
    ensures
        png_of(q) == Ok::<Seq<u8>, Seq<char>>(png),
        decoded_picture(bytes) matches Ok(p) && {
            &&& p.width <= max_edge && p.height <= max_edge ==> q == p
            &&& max_edge >= 1 && p.width >= 1 && p.height >= 1 ==> {
                &&& 1 <= q.width <= max_edge
                &&& 1 <= q.height <= max_edge
                &&& q.width <= p.width
                &&& q.height <= p.height
                &&& p.width > max_edge && p.width >= p.height ==> q.width == max_edge
                &&& p.height > max_edge && p.height >= p.width ==> q.height == max_edge
                &&& p.width > max_edge && p.width >= p.height && can_be_averaged(p, max_edge)
                    ==> q.height == 1 || -p.width <= q.height * p.width - p.height * max_edge
                    <= p.width
                &&& p.height > max_edge && p.height >= p.width && can_be_averaged(p, max_edge)
                    ==> q.width == 1 || -p.height <= q.width * p.height - p.width * max_edge
                    <= p.height
            }
        },
{
    let (p, q) = choose|p: Picture, q: Picture|
        decoded_picture(bytes) == Ok::<Picture, Seq<char>>(p) && #[trigger] is_thumbnail(
            p,
            q,
            max_edge,
        ) && png_of(q) == Ok::<Seq<u8>, Seq<char>>(png);
    assert(2 * q.height * p.width == 2 * (q.height * p.width)) by (nonlinear_arith);
    assert(2 * q.width * p.height == 2 * (q.width * p.height)) by (nonlinear_arith);
    assert(2 * p.height * max_edge == 2 * (p.height * max_edge)) by (nonlinear_arith);
    assert(2 * p.width * max_edge == 2 * (p.width * max_edge)) by (nonlinear_arith);
    q
}

/// A picture of ordinary size is never too large to be scaled: one with samples
/// of eight bits up to 65,535 pixels in both directions, any other up to 4,096,
/// for a bound of 256 pixels or more.
pub proof fn law_ordinary_pictures_are_scaled(p: Picture, max_edge: u32)
    requires
        max_edge >= 256,
        p.width >= 1,
        p.height >= 1,
        if p.pixel_bytes <= p.channels {
            p.width <= 65_535 && p.height <= 65_535
        } else {
            p.width <= 4_096 && p.height <= 4_096
        },
    ensures
        can_be_averaged(p, max_edge),
        thumbnail_picture(p, max_edge, HALVINGS as nat) is Some,
{
    let longer = if p.width >= p.height {
        p.width
    } else {
        p.height
    };
    let shorter = if p.width >= p.height {
        p.height
    } else {
        p.width
    };
    let limit = if p.pixel_bytes <= p.channels {
        256int
    } else {
        16
    };
    let a = most_merged(longer, max_edge as int);
    let target = least_edge(shorter, longer, max_edge);
    let b = most_merged(shorter, target);
    let merged = (longer + max_edge - 1) / (max_edge as int);
    assert(merged <= limit) by (nonlinear_arith)
        requires
            merged == (longer + max_edge - 1) / (max_edge as int),
            max_edge >= 256,
            0 <= longer <= 256 * limit,
            limit >= 1,
    ;
    assert(merged >= 0) by (nonlinear_arith)
        requires
            merged == (longer + max_edge - 1) / (max_edge as int),
            max_edge >= 256,
            longer >= 0,
    ;
    assert(0 <= a <= limit);
    assert(b <= shorter);
    assert((shorter + target - 1) / target >= 0) by (nonlinear_arith)
        requires
            target >= 1,
            shorter >= 0,
    ;
    assert(0 <= b);
    assert(a * b <= limit * shorter) by (nonlinear_arith)
        requires
            0 <= a <= limit,
            0 <= b <= shorter,
    ;
    if p.pixel_bytes <= p.channels {
        assert(limit * shorter <= 256 * 65_535);
    } else {
        assert(limit * shorter <= 16 * 4_096);
    }
}

/// What is encoded is the picture scaled for the bound, whatever its aspect
/// ratio, and bytes that stand for the same picture have the same thumbnail.
pub proof fn law_thumbnail_is_of_the_picture(bytes: Seq<u8>, other: Seq<u8>, max_edge: u32)
    ensures
        decoded_picture(bytes) == decoded_picture(other) ==> thumbnail_of(bytes, max_edge)
            == thumbnail_of(other, max_edge),
        decoded_picture(bytes) is Err ==> thumbnail_of(bytes, max_edge) is Err,
        decoded_picture(bytes) matches Ok(p) ==> {
            &&& p.width <= max_edge && p.height <= max_edge ==> (thumbnail_of(bytes, max_edge) is Ok
                <==> png_of(p) is Ok) && (png_of(p) is Ok ==> thumbnail_of(bytes, max_edge)
                == png_of(p))
            &&& (p.width > max_edge || p.height > max_edge) && can_be_averaged(p, max_edge) ==> (
            thumbnail_of(bytes, max_edge) is Ok <==> png_of(scaled_picture(p, max_edge, max_edge))
                is Ok) && (png_of(scaled_picture(p, max_edge, max_edge)) is Ok ==> thumbnail_of(
                bytes,
                max_edge,
            ) == png_of(scaled_picture(p, max_edge, max_edge)))
        },
{
}

// ---------------------------------------------------------------------------
// Image MIME priority for picking the best format to thumbnail
// ---------------------------------------------------------------------------

/// The image formats in the order in which they are tried.
pub open spec fn image_mimes() -> Seq<Seq<char>> {
    seq!["image/png"@, "image/webp"@, "image/jpeg"@, "image/bmp"@]
}

/// Best image format priority order for thumbnail generation.
/// Formats tried in order; first one present on the item wins.
pub fn image_mime_priority() -> (r: [&'static str; 4])
    ensures
        r@.map_values(|s: &'static str| s@) == image_mimes(),
{
    let r = ["image/png", "image/webp", "image/jpeg", "image/bmp"];
    assert(r@.map_values(|s: &'static str| s@) =~= image_mimes());
    r
}

/// The first image format, by priority, that `present` holds of.
pub open spec fn first_image_mime(present: spec_fn(Seq<char>) -> bool) -> Option<Seq<char>> {
    if present("image/png"@) {
        Some("image/png"@)
    } else if present("image/webp"@) {
        Some("image/webp"@)
    } else if present("image/jpeg"@) {
        Some("image/jpeg"@)
    } else if present("image/bmp"@) {
        Some("image/bmp"@)
    } else {
        None
    }
}

/// Some format of the list has the MIME type.
pub open spec fn has_mime(formats: Seq<Format>, mime: Seq<char>) -> bool {
    exists|i: int| 0 <= i < formats.len() && (#[trigger] formats[i]).mime@ == mime
}

fn lists_mime(formats: &Vec<Format>, mime: &str) -> (r: bool)
    ensures
        r == has_mime(formats@, mime@),
{
    let mut i: usize = 0;
    while i < formats.len()
        invariant
            i <= formats@.len(),
            forall|j: int| 0 <= j < i ==> (#[trigger] formats@[j]).mime@ != mime@,
        decreases formats@.len() - i,
    {
        if same_text(formats[i].mime.as_str(), mime) {
            return true;
        }
        i += 1;
    }
    false
}

/// The best image format among `formats`, if there is one.
pub fn best_image_mime(formats: &Vec<Format>) -> (r: Option<&'static str>)
    ensures
        match r {
            Some(mime) => first_image_mime(|m: Seq<char>| has_mime(formats@, m)) == Some(mime@),
            None => first_image_mime(|m: Seq<char>| has_mime(formats@, m)) is None,
        },
{
    let mimes = image_mime_priority();
    let ghost present = |m: Seq<char>| has_mime(formats@, m);
    assert(forall|i: int| 0 <= i < 4 ==> (#[trigger] mimes@[i])@ == image_mimes()[i]) by {
        assert forall|i: int| 0 <= i < 4 implies (#[trigger] mimes@[i])@ == image_mimes()[i] by {
            assert(mimes@.map_values(|s: &'static str| s@)[i] == image_mimes()[i]);
        }
    }
    let mut i: usize = 0;
    while i < mimes.len()
        invariant
            i <= 4,
            mimes@.len() == 4,
            present == (|m: Seq<char>| has_mime(formats@, m)),
            forall|j: int| 0 <= j < 4 ==> (#[trigger] mimes@[j])@ == image_mimes()[j],
            forall|j: int| 0 <= j < i ==> !present(#[trigger] image_mimes()[j]),
        decreases 4 - i,
    {
        assert(mimes@[i as int]@ == image_mimes()[i as int]);
        if lists_mime(formats, mimes[i]) {
            proof {
                assert(i > 0 ==> !present(image_mimes()[0]));
                assert(i > 1 ==> !present(image_mimes()[1]));
                assert(i > 2 ==> !present(image_mimes()[2]));
            }
            return Some(mimes[i]);
        }
        i += 1;
    }
    proof {
        assert(!present(image_mimes()[0]));
        assert(!present(image_mimes()[1]));
        assert(!present(image_mimes()[2]));
        assert(!present(image_mimes()[3]));
    }
    None
}

/// The best image format is one that is present, and PNG comes before WebP, WebP
/// before JPEG and JPEG before BMP; there is none only where none of the four is
/// present.
pub proof fn law_best_image_format(present: spec_fn(Seq<char>) -> bool)
    ensures
        first_image_mime(present) matches Some(m) ==> present(m),
        present("image/png"@) ==> first_image_mime(present) == Some("image/png"@),
        first_image_mime(present) == Some("image/jpeg"@) ==> !present("image/webp"@) && !present(
            "image/png"@,
        ),
        first_image_mime(present) == Some("image/bmp"@) ==> !present("image/jpeg"@) && !present(
            "image/webp"@,
        ) && !present("image/png"@),
        first_image_mime(present) is None <==> !present("image/png"@) && !present("image/webp"@)
            && !present("image/jpeg"@) && !present("image/bmp"@),
        first_image_mime(present) matches Some(m) ==> m == "image/png"@ || m == "image/webp"@ || m
            == "image/jpeg"@ || m == "image/bmp"@,
{
    reveal_strlit("image/png");
    reveal_strlit("image/webp");
    reveal_strlit("image/jpeg");
    reveal_strlit("image/bmp");
    assert("image/png"@[6] == 'p' && "image/bmp"@[6] == 'b');
    assert("image/webp"@[6] == 'w' && "image/jpeg"@[6] == 'j');
}

// ---------------------------------------------------------------------------
// Store-aware helper
// ---------------------------------------------------------------------------

/// The best image format of an item in the tables.
pub open spec fn item_image_mime(db: DbState, id: ItemId) -> Option<Seq<char>> {
    first_image_mime(|m: Seq<char>| db.formats.contains_key((hyphenated_text(id.bits), m)))
}

/// Pick the best image format for `id` and generate a thumbnail with
/// [`make_thumbnail`]. Returns the path that the thumbnail belongs at, below
/// `cache_dir`, and its bytes.
///
/// Returns `Ok(None)` if the item has no image format.
pub fn generate_item_thumbnail(store: &Store, cache_dir: &str, id: ItemId) -> (r: Result<
    Option<(String, Vec<u8>)>,
>)
    requires
        store.wf(),
    ensures
        if !store@.db.items.contains_key(hyphenated_text(id.bits)) {
            r is Err && r->Err_0 is NotFound
        } else {
            match item_image_mime(store@.db, id) {
                None => r == Ok::<Option<(String, Vec<u8>)>, Error>(None),
                Some(mime) => match store@.content(id, mime) {
                    None => r is Err && r->Err_0 is NotFound,
                    Some(bytes) => match thumbnail_of(bytes, DEFAULT_MAX_EDGE) {
                        Err(text) => r matches Err(Error::Other(t)) && t@ == text,
                        Ok(png) => r matches Ok(Some(out)) && out.0@ == thumb_path_of(
                            cache_dir@,
                            id,
                        ) && out.1@ == png && holds_thumbnail(bytes, png, 256),
                    },
                },
            }
        },
{
    // 1. Fetch the item's formats and pick the best image mime.
    let formats = match store.formats(id) {
        Ok(formats) => formats,
        Err(e) => {
            return Err(e);
        },
    };
    proof {
        lemma_listed_mimes(store@.db, id, formats@);
        let listed = |m: Seq<char>| has_mime(formats@, m);
        let stored = |m: Seq<char>| store@.db.formats.contains_key((hyphenated_text(id.bits), m));
        assert(listed =~= stored);
    }
    let mime = match best_image_mime(&formats) {
        Some(m) => m,
        None => {
            return Ok(None);
        },
    };

    // 2. Decode and thumbnail.
    let bytes = match store.decode(id, mime) {
        Ok(bytes) => bytes,
        Err(e) => {
            return Err(e);
        },
    };
    match make_thumbnail(bytes.as_slice(), DEFAULT_MAX_EDGE) {
        Ok(png) => Ok(Some((thumb_path(cache_dir, id), png))),
        Err(e) => Err(e),
    }
}

/// A list of an item's formats names exactly the MIME types stored for it.
pub proof fn lemma_listed_mimes(db: DbState, id: ItemId, formats: Seq<Format>)
    requires
        lists_formats(db, hyphenated_text(id.bits), id, format_views(formats)),
    ensures
        forall|m: Seq<char>| #[trigger]
            has_mime(formats, m) <==> db.formats.contains_key((hyphenated_text(id.bits), m)),
{
    let views = format_views(formats);
    assert forall|m: Seq<char>| #[trigger]
        has_mime(formats, m) <==> db.formats.contains_key((hyphenated_text(id.bits), m)) by {
        if has_mime(formats, m) {
            let i = choose|i: int| 0 <= i < formats.len() && (#[trigger] formats[i]).mime@ == m;
            assert(views[i] == formats[i]@);
        }
        if db.formats.contains_key((hyphenated_text(id.bits), m)) {
            let i = choose|i: int| 0 <= i < views.len() && (#[trigger] views[i]).mime == m;
            assert(views[i] == formats[i]@);
            assert(formats[i].mime@ == m);
        }
    }
}

} // verus!
