use subtile_ocr::glyph::Error;
use subtile_ocr::glyph_image::GlyphImage;
use subtile_ocr::raster::GrayBitmap;

fn image(width: u32, height: u32, data: Vec<u8>) -> GlyphImage {
    GlyphImage(GrayBitmap::from_vec(width, height, data).unwrap())
}

fn rows(texts: &[&str]) -> Vec<String> {
    texts.iter().map(|t| t.to_string()).collect()
}

#[test]
fn luma_to_char_maps_ink_and_background() {
    assert_eq!(GlyphImage::luma_to_char(0), Ok('8'));
    assert_eq!(GlyphImage::luma_to_char(255), Ok(' '));
}

#[test]
fn luma_to_char_rejects_gray() {
    assert_eq!(GlyphImage::luma_to_char(128), Err(Error::PixelSerializeInvalidValue(128)));
    assert_eq!(GlyphImage::luma_to_char(1), Err(Error::PixelSerializeInvalidValue(1)));
    assert_eq!(GlyphImage::luma_to_char(254), Err(Error::PixelSerializeInvalidValue(254)));
}

#[test]
fn char_to_pix_maps_both_symbols() {
    assert_eq!(GlyphImage::char_to_pix('8'), Ok(0));
    assert_eq!(GlyphImage::char_to_pix(' '), Ok(255));
}

#[test]
fn char_to_pix_rejects_other_characters() {
    assert_eq!(GlyphImage::char_to_pix('x'), Err(Error::PixelsDeserializeInvalidValue('x')));
    assert_eq!(GlyphImage::char_to_pix('0'), Err(Error::PixelsDeserializeInvalidValue('0')));
}

#[test]
fn to_rows_writes_one_string_per_row() {
    let img = image(3, 2, vec![0, 255, 0, 255, 255, 0]);
    assert_eq!(img.to_rows(), Ok(rows(&["8 8", "  8"])));
}

#[test]
fn to_rows_of_an_image_without_columns_is_empty() {
    let img = image(0, 4, Vec::new());
    assert_eq!(img.to_rows(), Ok(Vec::new()));
}

#[test]
fn to_rows_leaves_out_samples_beyond_the_pixels() {
    let img = image(2, 1, vec![0, 255, 0, 0]);
    assert_eq!(img.to_rows(), Ok(rows(&["8 "])));
}

#[test]
fn to_rows_reports_the_first_gray_pixel() {
    let img = image(2, 2, vec![0, 7, 255, 9]);
    assert_eq!(img.to_rows(), Err(Error::PixelSerializeInvalidValue(7)));
}

#[test]
fn to_compact_writes_size_and_one_string() {
    let img = image(3, 2, vec![0, 255, 0, 255, 255, 0]);
    assert_eq!(img.to_compact(), Ok(((3, 2), "8 8  8".to_string())));
}

#[test]
fn to_compact_reports_the_first_gray_pixel() {
    let img = image(2, 2, vec![0, 255, 200, 9]);
    assert_eq!(img.to_compact(), Err(Error::PixelSerializeInvalidValue(200)));
}

#[test]
fn from_rows_reads_size_and_pixels() {
    let img = GlyphImage::from_rows(&rows(&["8 8", "  8"])).unwrap();
    assert_eq!(img.0.dimensions(), (3, 2));
    assert_eq!(img.0.as_raw(), &vec![0, 255, 0, 255, 255, 0]);
}

#[test]
fn from_rows_rejects_an_unknown_character() {
    let r = GlyphImage::from_rows(&rows(&["8 8", " x8"]));
    assert_eq!(r.err(), Some(Error::PixelsDeserializeInvalidValue('x')));
}

#[test]
fn from_rows_reports_the_first_unknown_character() {
    let r = GlyphImage::from_rows(&rows(&["8a", "b8"]));
    assert_eq!(r.err(), Some(Error::PixelsDeserializeInvalidValue('a')));
}

#[test]
fn from_rows_rejects_a_character_of_several_bytes() {
    let r = GlyphImage::from_rows(&rows(&["8\u{e9}"]));
    assert_eq!(r.err(), Some(Error::PixelsDeserializeInvalidValue('\u{e9}')));
}

#[test]
fn from_rows_rejects_no_rows() {
    let r = GlyphImage::from_rows(&Vec::new());
    assert_eq!(r.err(), Some(Error::EmptyGlyphImage));
}

#[test]
fn from_rows_rejects_rows_that_do_not_fill_the_image() {
    let r = GlyphImage::from_rows(&rows(&["88", "8"]));
    assert_eq!(r.err(), Some(Error::GlyphImageSize));
    let r = GlyphImage::from_rows(&rows(&["8", "88"]));
    assert_eq!(r.err(), Some(Error::GlyphImageSize));
}

#[test]
fn from_rows_reports_an_unknown_character_before_the_size() {
    let r = GlyphImage::from_rows(&rows(&["88", "x"]));
    assert_eq!(r.err(), Some(Error::PixelsDeserializeInvalidValue('x')));
}

#[test]
fn from_rows_accepts_empty_rows() {
    let img = GlyphImage::from_rows(&rows(&["", ""])).unwrap();
    assert_eq!(img.0.dimensions(), (0, 2));
    assert!(img.0.as_raw().is_empty());
}

#[test]
fn from_compact_reads_size_and_pixels() {
    let img = GlyphImage::from_compact(3, 2, "8 8  8").unwrap();
    assert_eq!(img.0.dimensions(), (3, 2));
    assert_eq!(img.0.as_raw(), &vec![0, 255, 0, 255, 255, 0]);
}

#[test]
fn from_compact_rejects_an_unknown_character() {
    let r = GlyphImage::from_compact(2, 2, "8 y8");
    assert_eq!(r.err(), Some(Error::PixelsDeserializeInvalidValue('y')));
}

#[test]
fn from_compact_rejects_a_size_that_the_pixels_do_not_fill() {
    assert_eq!(GlyphImage::from_compact(2, 3, "8  8").err(), Some(Error::GlyphImageSize));
    assert_eq!(GlyphImage::from_compact(1, 3, "8  8").err(), Some(Error::GlyphImageSize));
}

#[test]
fn rows_come_back_as_the_image_they_were_written_from() {
    let img = image(4, 3, vec![0, 0, 255, 255, 255, 0, 0, 255, 0, 255, 255, 0]);
    let back = GlyphImage::from_rows(&img.to_rows().unwrap()).unwrap();
    assert_eq!(back.0.dimensions(), img.0.dimensions());
    assert_eq!(back.0.as_raw(), img.0.as_raw());
}

#[test]
fn compact_form_comes_back_as_the_image_it_was_written_from() {
    let img = image(4, 3, vec![0, 0, 255, 255, 255, 0, 0, 255, 0, 255, 255, 0]);
    let ((width, height), text) = img.to_compact().unwrap();
    let back = GlyphImage::from_compact(width, height, &text).unwrap();
    assert_eq!(back.0.dimensions(), img.0.dimensions());
    assert_eq!(back.0.as_raw(), img.0.as_raw());
}
