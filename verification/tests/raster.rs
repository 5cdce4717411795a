use subtile_ocr::raster::GrayBitmap;
use subtile_ocr::raster::BACKGROUND;
use subtile_ocr::raster::INK;

#[test]
fn bitmap_from_vec_keeps_size_and_samples() {
    let img = GrayBitmap::from_vec(3, 2, vec![0, 255, 0, 255, 0, 255]).unwrap();
    assert_eq!(img.dimensions(), (3, 2));
    assert_eq!(img.width(), 3);
    assert_eq!(img.height(), 2);
    assert_eq!(img.as_raw(), &vec![0, 255, 0, 255, 0, 255]);
}

#[test]
fn bitmap_from_vec_rejects_too_few_samples() {
    assert!(GrayBitmap::from_vec(3, 2, vec![0, 255, 0, 255, 0]).is_none());
}

#[test]
fn bitmap_from_vec_keeps_samples_beyond_the_pixels() {
    let img = GrayBitmap::from_vec(1, 2, vec![0, 255, 7]).unwrap();
    assert_eq!(img.dimensions(), (1, 2));
    assert_eq!(img.as_raw(), &vec![0, 255, 7]);
}

#[test]
fn bitmap_from_vec_accepts_an_empty_image() {
    let img = GrayBitmap::from_vec(0, 0, Vec::new()).unwrap();
    assert_eq!(img.dimensions(), (0, 0));
    assert!(img.as_raw().is_empty());
}

#[test]
fn bitmap_get_pixel_reads_row_after_row() {
    let img = GrayBitmap::from_vec(3, 2, vec![1, 2, 3, 4, 5, 6]).unwrap();
    assert_eq!(img.get_pixel(0, 0), 1);
    assert_eq!(img.get_pixel(2, 0), 3);
    assert_eq!(img.get_pixel(0, 1), 4);
    assert_eq!(img.get_pixel(2, 1), 6);
}

#[test]
fn bitmap_put_pixel_changes_one_sample() {
    let mut img = GrayBitmap::from_vec(3, 2, vec![1, 2, 3, 4, 5, 6]).unwrap();
    img.put_pixel(1, 1, 9);
    assert_eq!(img.as_raw(), &vec![1, 2, 3, 4, 9, 6]);
    assert_eq!(img.dimensions(), (3, 2));
}

#[test]
fn bitmap_duplicate_is_an_independent_copy() {
    let mut img = GrayBitmap::from_vec(2, 1, vec![INK, BACKGROUND]).unwrap();
    let copy = img.duplicate();
    img.put_pixel(0, 0, BACKGROUND);
    assert_eq!(copy.dimensions(), (2, 1));
    assert_eq!(copy.as_raw(), &vec![INK, BACKGROUND]);
    assert_eq!(img.as_raw(), &vec![BACKGROUND, BACKGROUND]);
}

#[test]
fn ink_is_black_and_background_is_white() {
    assert_eq!(INK, 0);
    assert_eq!(BACKGROUND, 255);
}
