use base64::Engine;
use popo::infer::{NoImages, PageImageProvider};
use popo::pages::{
    page_images_payload, stitch_pages_with_border, to_jpeg_base64, PageImage, PageRenderer, PdfPageImages,
};

#[test]
fn stitch_dimensions_account_for_borders() {
    let a = PageImage::from_pixel(100, 50, [10, 10, 10]);
    let b = PageImage::from_pixel(80, 40, [20, 20, 20]);
    let out = stitch_pages_with_border(&[a, b], 5, [0, 0, 0]).unwrap();
    assert_eq!(out.width(), 100);
    assert_eq!(out.height(), 50 + 40 + 5);
    assert_eq!(out.get_pixel(0, 50), [0, 0, 0]);
    assert_eq!(out.get_pixel(0, 0), [10, 10, 10]);
    assert_eq!(out.get_pixel(50, 55), [20, 20, 20]);
}

#[test]
fn stitching_nothing_gives_nothing() {
    assert!(stitch_pages_with_border(&[], 5, [0, 0, 0]).is_none());
}

#[test]
fn jpeg_base64_is_non_empty() {
    let img = PageImage::from_pixel(16, 16, [128, 64, 32]);
    let b64 = to_jpeg_base64(&img).unwrap();
    assert!(!b64.is_empty());
    assert!(b64.starts_with("/9j/"));
}

#[test]
fn payload_is_the_stitched_pages_as_jpeg() {
    let a = PageImage::from_pixel(20, 10, [10, 10, 10]);
    let b = PageImage::from_pixel(20, 10, [200, 200, 200]);
    let (media, data) = page_images_payload(&[a, b], 5).unwrap();
    assert_eq!(media, "image/jpeg");
    assert!(data.starts_with("/9j/"));
    assert!(page_images_payload(&[], 5).is_none());
}

struct Solid;

impl PageRenderer for Solid {
    fn render_page(&self, page: i64) -> Option<PageImage> {
        if page > 0 {
            Some(PageImage::from_pixel(8, 8, [1, 2, 3]))
        } else {
            None
        }
    }
}

#[test]
fn providers_render_what_they_can() {
    assert!(NoImages.image_for_pages(&[1, 2]).is_none());
    let p = PdfPageImages::new(Solid);
    let (media, data) = p.image_for_pages(&[0, 1, 2]).unwrap();
    assert_eq!(media, "image/jpeg");
    assert!(!data.is_empty());
    assert!(p.image_for_pages(&[0, -1]).is_none());
    assert!(p.image_for_pages(&[]).is_none());
}

#[test]
fn jpeg_base64_round_trips_to_valid_image() {
    let img = PageImage::from_pixel(16, 16, [128, 64, 32]);
    let b64 = to_jpeg_base64(&img).unwrap();
    let bytes = base64::engine::general_purpose::STANDARD.decode(b64).unwrap();
    let decoded = image::load_from_memory(&bytes).unwrap();
    assert_eq!(decoded.width(), 16);
    assert_eq!(decoded.height(), 16);
}
