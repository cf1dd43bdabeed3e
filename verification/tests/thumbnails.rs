use image::{DynamicImage, ImageBuffer, ImageFormat, Luma, Rgba};
use richclip::ids::ItemId;
use richclip::thumbnail::{
    averages_few, best_image_mime, generate_item_thumbnail, image_mime_priority, make_thumbnail,
    needs_scaling, DEFAULT_MAX_EDGE,
};
use richclip::{Error, Store};
use std::io::Cursor;

/// Encode a `DynamicImage` to an in-memory buffer using the given format.
fn encode_image(img: &DynamicImage, fmt: ImageFormat) -> Vec<u8> {
    let mut buf = Cursor::new(Vec::new());
    img.write_to(&mut buf, fmt).expect("encode should succeed");
    buf.into_inner()
}

/// Decode PNG bytes and return the resulting `DynamicImage`.
fn decode_png(bytes: &[u8]) -> DynamicImage {
    image::load_from_memory_with_format(bytes, ImageFormat::Png)
        .expect("result should be a valid PNG")
}

/// Build an RGBA image filled with a solid colour.
fn solid_rgba(width: u32, height: u32, r: u8, g: u8, b: u8) -> DynamicImage {
    let buf: ImageBuffer<Rgba<u8>, _> =
        ImageBuffer::from_fn(width, height, |_, _| Rgba([r, g, b, 255]));
    DynamicImage::ImageRgba8(buf)
}

// Large image: 800x600 -> should be downscaled, longest edge == 256.
#[test]
fn large_image_is_downscaled() {
    let src = solid_rgba(800, 600, 200, 100, 50);
    let src_png = encode_image(&src, ImageFormat::Png);

    let thumb_bytes = make_thumbnail(&src_png, 256).expect("should succeed");
    let thumb = decode_png(&thumb_bytes);

    let (tw, th) = (thumb.width(), thumb.height());
    // Longest edge must be <= 256.
    assert!(
        tw <= 256 && th <= 256,
        "dimensions {tw}x{th} exceed max_edge"
    );
    // At least one edge should be exactly 256 (it's the longest edge of the
    // result when we hit the bound).
    assert!(
        tw == 256 || th == 256,
        "expected longest edge == 256, got {tw}x{th}"
    );
    // Dimensions must be strictly smaller than the original.
    assert!(
        tw < 800 && th < 600,
        "thumbnail was not smaller than original"
    );
    // Aspect ratio preserved within rounding: original is 4:3.
    let orig_ratio = 800.0_f64 / 600.0;
    let thumb_ratio = tw as f64 / th as f64;
    assert!(
        (orig_ratio - thumb_ratio).abs() < 0.02,
        "aspect ratio drifted: orig={orig_ratio:.4} thumb={thumb_ratio:.4}"
    );
}

// Small image: 100x80 -> must NOT be upscaled.
#[test]
fn small_image_is_not_upscaled() {
    let src = solid_rgba(100, 80, 0, 128, 255);
    let src_png = encode_image(&src, ImageFormat::Png);

    let thumb_bytes = make_thumbnail(&src_png, 256).expect("should succeed");
    let thumb = decode_png(&thumb_bytes);

    assert_eq!(
        (thumb.width(), thumb.height()),
        (100, 80),
        "small image should not be upscaled"
    );
}

// Non-square wide image: 400x100 -> longest edge becomes 256, shorter
// edge scales proportionally (~64).
#[test]
fn wide_image_scales_proportionally() {
    let src = solid_rgba(400, 100, 50, 200, 10);
    let src_png = encode_image(&src, ImageFormat::Png);

    let thumb_bytes = make_thumbnail(&src_png, 256).expect("should succeed");
    let thumb = decode_png(&thumb_bytes);

    let (tw, th) = (thumb.width(), thumb.height());
    // Longest edge is width — must now be 256.
    assert_eq!(tw, 256, "longest edge should be 256, got {tw}");
    // Shorter edge: 100 * (256/400) = 64.
    assert!((th as i64 - 64).abs() <= 1, "expected height ~64, got {th}");
}

// Garbage bytes -> must return Err and not panic.
#[test]
fn garbage_bytes_return_err() {
    let result = make_thumbnail(b"not an image", 256);
    assert!(result.is_err(), "expected Err for non-image bytes");
    // Verify the error message mentions "thumbnail decode".
    if let Err(Error::Other(msg)) = result {
        assert!(
            msg.contains("thumbnail decode"),
            "unexpected error message: {msg}"
        );
    }
}

// JPEG input: confirm multi-format decode works.
#[test]
fn jpeg_input_is_accepted() {
    let src = solid_rgba(320, 240, 100, 150, 200);
    // DynamicImage::write_to with Jpeg requires an Rgb8 image (no alpha).
    let src_rgb = DynamicImage::ImageRgb8(src.to_rgb8());
    let src_jpeg = encode_image(&src_rgb, ImageFormat::Jpeg);

    let thumb_bytes = make_thumbnail(&src_jpeg, 256).expect("should succeed for JPEG input");
    let thumb = decode_png(&thumb_bytes);

    // 320 > 256, so longest edge must be <= 256.
    assert!(
        thumb.width() <= 256 && thumb.height() <= 256,
        "JPEG thumbnail dimensions {}x{} exceed max_edge",
        thumb.width(),
        thumb.height()
    );
}

// Items of a store

fn store_with(formats: &[(&str, Vec<u8>)]) -> (Store, ItemId) {
    let mut store = Store::open(vec![], vec![], vec![]).unwrap();
    let formats: Vec<(String, Vec<u8>)> =
        formats.iter().map(|(m, b)| (m.to_string(), b.clone())).collect();
    let id = store.add_item(&formats).unwrap();
    (store, id)
}

fn make_real_png() -> Vec<u8> {
    encode_image(&solid_rgba(200, 150, 100, 149, 237), ImageFormat::Png)
}

#[test]
fn test_add_image_generates_thumbnail() {
    let (store, id) = store_with(&[("image/png", make_real_png())]);
    let (path, thumb_bytes) =
        generate_item_thumbnail(&store, "/cache", id).unwrap().expect("thumbnail must exist");
    assert_eq!(path, format!("/cache/thumbs/{}.png", id.to_text()));

    let img = decode_png(&thumb_bytes);
    assert!(
        img.width() <= 256 && img.height() <= 256,
        "thumbnail dimensions {}x{} exceed max_edge 256",
        img.width(),
        img.height()
    );
    assert_eq!(
        (img.width(), img.height()),
        (200, 150),
        "small source must not be upscaled"
    );
}

#[test]
fn test_list_json_thumbnail_field_image() {
    let (store, id) = store_with(&[("image/png", make_real_png())]);
    let expected_thumb = generate_item_thumbnail(&store, "/cache", id).unwrap().unwrap().0;
    let items = store.list_items(None, None).unwrap();
    assert_eq!(items.len(), 1);
    let thumb = richclip::cli::thumbnail_field(Some("/cache"), id, true);
    let entry = richclip::cli::list_entry(&store, &items[0], thumb);
    let thumb_val = entry.thumbnail.expect("thumbnail must be a string for image items");
    assert_eq!(
        thumb_val, expected_thumb,
        "thumbnail path in JSON must match the expected path"
    );
}

#[test]
fn test_text_item_no_thumbnail() {
    let (store, id) = store_with(&[("text/plain", b"just some text".to_vec())]);
    assert!(
        generate_item_thumbnail(&store, "/cache", id).unwrap().is_none(),
        "no thumbnail must be created for text-only items"
    );
    let items = store.list_items(None, None).unwrap();
    assert_eq!(items.len(), 1);
    let thumb = richclip::cli::thumbnail_field(Some("/cache"), id, false);
    let entry = richclip::cli::list_entry(&store, &items[0], thumb);
    assert!(entry.thumbnail.is_none(), "thumbnail must be null for text-only items");
    assert!(richclip::cli::thumbnail_field(None, id, true).is_none());
}

#[test]
fn test_thumbnail_subcommand_image() {
    let (store, id) = store_with(&[("image/png", make_real_png())]);
    let (printed, bytes) = generate_item_thumbnail(&store, "/cache/", id).unwrap().unwrap();
    assert!(
        !printed.is_empty(),
        "thumbnail subcommand must print a path for an image item"
    );
    assert_eq!(printed, richclip::paths::thumb_path("/cache/", id));
    image::load_from_memory_with_format(&bytes, ImageFormat::Png)
        .expect("regenerated thumbnail must be a valid PNG");
}

#[test]
fn test_thumbnail_subcommand_text_item() {
    let (store, id) = store_with(&[("text/plain", b"text content".to_vec())]);
    assert!(
        generate_item_thumbnail(&store, "/cache", id).unwrap().is_none(),
        "thumbnail subcommand must produce no output for text-only items"
    );
}

#[test]
fn test_delete_removes_thumbnail() {
    let (mut store, id) = store_with(&[("image/png", make_real_png())]);
    assert!(generate_item_thumbnail(&store, "/cache", id).unwrap().is_some());
    store.delete_item(id).unwrap();
    // There is nothing left to make a thumbnail of.
    assert!(matches!(generate_item_thumbnail(&store, "/cache", id), Err(Error::NotFound)));
}

#[test]
fn test_large_image_thumbnail_is_downscaled() {
    let png = encode_image(&solid_rgba(512, 400, 200, 50, 100), ImageFormat::Png);
    let (store, id) = store_with(&[("image/png", png)]);
    let (_, bytes) = generate_item_thumbnail(&store, "/cache", id).unwrap().unwrap();
    let decoded = decode_png(&bytes);
    assert!(
        decoded.width() <= 256 && decoded.height() <= 256,
        "thumbnail dimensions {}x{} must not exceed 256",
        decoded.width(),
        decoded.height()
    );
    assert!(
        decoded.width() == 256 || decoded.height() == 256,
        "at least one edge must equal 256 for a downscaled image, got {}x{}",
        decoded.width(),
        decoded.height()
    );
}

#[test]
fn webp_and_bmp_inputs_are_accepted() {
    for format in [ImageFormat::WebP, ImageFormat::Bmp] {
        let bytes = encode_image(&solid_rgba(300, 30, 1, 2, 3), format);
        let thumb = decode_png(&make_thumbnail(&bytes, 256).unwrap());
        assert_eq!((thumb.width(), thumb.height()), (256, 26));
    }
}

#[test]
fn a_thumbnail_never_vanishes() {
    let bytes = encode_image(&solid_rgba(1000, 1, 1, 2, 3), ImageFormat::Png);
    let thumb = decode_png(&make_thumbnail(&bytes, 10).unwrap());
    assert_eq!((thumb.width(), thumb.height()), (10, 1));
}

#[test]
fn scaling_is_needed_beyond_the_edge_only() {
    assert!(!needs_scaling(256, 256, 256));
    assert!(needs_scaling(257, 1, 256));
    assert!(needs_scaling(1, 257, 256));
    assert_eq!(DEFAULT_MAX_EDGE, 256);
}

#[test]
fn pixels_that_cannot_be_summed_up_are_not_averaged() {
    // 16 bits a sample: one block of 235 by 349 pixels is too large.
    assert!(!averages_few(60_000, 349, 2, 1, 256));
    assert!(averages_few(60_000, 278, 2, 1, 256));
    assert!(!averages_few(60_000, 349, 8, 4, 256));
    // 8 bits a sample.
    assert!(averages_few(60_000, 349, 1, 1, 256));
    assert!(averages_few(60_000, 349, 4, 4, 256));
    assert!(!averages_few(4_200, 4_200, 3, 3, 1));
    assert!(averages_few(4_100, 4_100, 3, 3, 1));
    assert!(averages_few(4_100, 4_100, 3, 3, 0));
    assert!(averages_few(16_384, 16_384, 6, 3, 256));
    assert!(averages_few(20_000_000, 100, 1, 1, 256));
    assert!(!averages_few(20_000_000, 1_000, 1, 1, 256));
    assert!(averages_few(0, 0, 1, 1, 256));
}

#[test]
fn white_stays_white() {
    let white = |edge: u32| {
        let buf = ImageBuffer::from_pixel(edge, edge, Luma([u16::MAX]));
        encode_image(&DynamicImage::ImageLuma16(buf), ImageFormat::Png)
    };
    let thumb = decode_png(&make_thumbnail(&white(256), 1).unwrap());
    assert_eq!(thumb.to_luma16().get_pixel(0, 0).0, [u16::MAX]);
    // Larger images are scaled in more than one step.
    for edge in [257, 700] {
        assert!(!averages_few(edge, edge, 2, 1, 1));
        let thumb = decode_png(&make_thumbnail(&white(edge), 1).unwrap());
        assert_eq!((thumb.width(), thumb.height()), (1, 1));
        assert_eq!(thumb.to_luma16().get_pixel(0, 0).0, [u16::MAX]);
    }
    let grey = ImageBuffer::from_pixel(257, 257, Luma([u8::MAX]));
    let grey = encode_image(&DynamicImage::ImageLuma8(grey), ImageFormat::Png);
    let thumb = decode_png(&make_thumbnail(&grey, 1).unwrap());
    assert_eq!(thumb.to_luma8().get_pixel(0, 0).0, [u8::MAX]);
}

#[test]
fn the_shorter_edge_keeps_the_aspect_ratio() {
    for (width, height, edge) in [(1_000, 3, 1), (1_000, 5, 1), (1_000, 6, 2), (513, 300, 150)] {
        let png = encode_image(&solid_rgba(width, height, 1, 2, 3), ImageFormat::Png);
        let thumb = decode_png(&make_thumbnail(&png, 256).unwrap());
        assert_eq!((thumb.width(), thumb.height()), (256, edge));
    }
}

#[test]
fn the_best_format_is_taken_by_priority() {
    assert_eq!(image_mime_priority(), ["image/png", "image/webp", "image/jpeg", "image/bmp"]);
    let png = make_real_png();
    let (store, id) =
        store_with(&[("image/bmp", b"x".to_vec()), ("image/jpeg", b"x".to_vec()), ("image/png", png)]);
    assert_eq!(best_image_mime(&store.formats(id).unwrap()), Some("image/png"));
    assert!(generate_item_thumbnail(&store, "", id).is_ok());
    let (store, id) = store_with(&[("image/bmp", b"x".to_vec()), ("image/webp", b"x".to_vec())]);
    assert_eq!(best_image_mime(&store.formats(id).unwrap()), Some("image/webp"));
    match generate_item_thumbnail(&store, "", id) {
        Err(Error::Other(text)) => assert!(text.starts_with("thumbnail decode: ")),
        other => panic!("unexpected result {:?}", other),
    }
    let (store, id) = store_with(&[("image/gif", b"x".to_vec())]);
    assert_eq!(best_image_mime(&store.formats(id).unwrap()), None);
}
