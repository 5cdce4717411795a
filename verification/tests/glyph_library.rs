use subtile_ocr::glyph::Error;
use subtile_ocr::glyph::Glyph;
use subtile_ocr::glyph::GlyphLibrary;
use subtile_ocr::glyph::GlyphRecord;
use subtile_ocr::raster::GrayBitmap;

fn bitmap(width: u32, height: u32, data: Vec<u8>) -> GrayBitmap {
    GrayBitmap::from_vec(width, height, data).unwrap()
}

/// A bitmap of 5 by 4 pixels, all ink but the first `background` pixels.
fn mostly_ink(background: usize) -> GrayBitmap {
    let mut data = vec![0u8; 20];
    for sample in data.iter_mut().take(background) {
        *sample = 255;
    }
    bitmap(5, 4, data)
}

fn glyph(img: GrayBitmap, text: &str) -> Glyph {
    Glyph::new(img, (0, 0), Some(text.to_string()))
}

#[test]
fn glyph_new_keeps_image_offsets_and_text() {
    let made = Glyph::new(bitmap(2, 1, vec![0, 255]), (-3, 1), Some("\u{e9}".to_string()));
    assert_eq!(made.img().0.dimensions(), (2, 1));
    assert_eq!(made.img().0.as_raw(), &vec![0, 255]);
    assert_eq!(made.orig_y(), (-3, 1));
    assert_eq!(made.chars(), Some(&"\u{e9}".to_string()));
}

#[test]
fn glyph_without_text_has_no_chars() {
    let made = Glyph::new(bitmap(1, 1, vec![0]), (0, 0), None);
    assert_eq!(made.chars(), None);
}

#[test]
fn new_library_is_empty() {
    let library = GlyphLibrary::new();
    assert_eq!(library.len(), 0);
    assert!(library.glyphs().is_empty());
    assert_eq!(library.find(&bitmap(1, 1, vec![0])), None);
    assert!(library.find_closest(&bitmap(1, 1, vec![0])).is_empty());
}

#[test]
fn add_glyph_appends_in_order() {
    let mut library = GlyphLibrary::new();
    library.add_glyph(glyph(bitmap(1, 1, vec![0]), "a"));
    library.add_glyph(glyph(bitmap(1, 2, vec![0, 0]), "b"));
    assert_eq!(library.len(), 2);
    assert_eq!(library.glyphs()[0].chars(), Some(&"a".to_string()));
    assert_eq!(library.glyphs()[1].chars(), Some(&"b".to_string()));
}

#[test]
fn find_returns_the_text_of_the_identical_bitmap() {
    let mut library = GlyphLibrary::new();
    library.add_glyph(glyph(bitmap(2, 2, vec![0, 255, 255, 0]), "a"));
    assert_eq!(library.find(&bitmap(2, 2, vec![0, 255, 255, 0])), Some("a"));
}

#[test]
fn find_ignores_a_bitmap_of_other_dimensions() {
    let mut library = GlyphLibrary::new();
    library.add_glyph(glyph(bitmap(2, 2, vec![0, 255, 255, 0]), "a"));
    assert_eq!(library.find(&bitmap(4, 1, vec![0, 255, 255, 0])), None);
    assert_eq!(library.find(&bitmap(1, 4, vec![0, 255, 255, 0])), None);
}

#[test]
fn find_ignores_a_bitmap_with_one_other_pixel() {
    let mut library = GlyphLibrary::new();
    library.add_glyph(glyph(bitmap(2, 2, vec![0, 255, 255, 0]), "a"));
    assert_eq!(library.find(&bitmap(2, 2, vec![0, 255, 255, 255])), None);
}

#[test]
fn find_takes_the_first_of_two_identical_bitmaps() {
    let mut library = GlyphLibrary::new();
    library.add_glyph(glyph(bitmap(1, 1, vec![0]), "first"));
    library.add_glyph(glyph(bitmap(1, 1, vec![0]), "second"));
    assert_eq!(library.len(), 2);
    assert_eq!(library.find(&bitmap(1, 1, vec![0])), Some("first"));
}

#[test]
fn find_gives_nothing_when_the_first_match_has_no_text() {
    let mut library = GlyphLibrary::new();
    library.add_glyph(Glyph::new(bitmap(1, 1, vec![0]), (0, 0), None));
    library.add_glyph(glyph(bitmap(1, 1, vec![0]), "second"));
    assert_eq!(library.find(&bitmap(1, 1, vec![0])), None);
}

#[test]
fn find_closest_ranks_the_closer_glyph_first() {
    let mut library = GlyphLibrary::new();
    library.add_glyph(glyph(mostly_ink(10), "far"));
    library.add_glyph(glyph(mostly_ink(1), "near"));
    let found = library.find_closest(&mostly_ink(0));
    assert_eq!(found.len(), 2);
    assert_eq!(found[0].0, 19);
    assert_eq!(found[0].1.chars(), Some(&"near".to_string()));
    assert_eq!(found[1].0, 10);
    assert_eq!(found[1].1.chars(), Some(&"far".to_string()));
}

#[test]
fn find_closest_counts_agreeing_pixels() {
    let mut library = GlyphLibrary::new();
    library.add_glyph(glyph(bitmap(2, 2, vec![0, 255, 255, 0]), "a"));
    let found = library.find_closest(&bitmap(2, 2, vec![255, 0, 255, 0]));
    assert_eq!(found.len(), 1);
    assert_eq!(found[0].0, 2);
    let found = library.find_closest(&bitmap(2, 2, vec![255, 0, 0, 255]));
    assert_eq!(found[0].0, 0);
    let found = library.find_closest(&bitmap(2, 2, vec![0, 255, 255, 0]));
    assert_eq!(found[0].0, 4);
}

#[test]
fn find_closest_leaves_out_other_dimensions() {
    let mut library = GlyphLibrary::new();
    library.add_glyph(glyph(bitmap(2, 2, vec![0, 0, 0, 0]), "square"));
    library.add_glyph(glyph(bitmap(4, 1, vec![0, 0, 0, 0]), "wide"));
    library.add_glyph(glyph(bitmap(1, 4, vec![0, 0, 0, 0]), "tall"));
    let found = library.find_closest(&bitmap(4, 1, vec![0, 0, 0, 0]));
    assert_eq!(found.len(), 1);
    assert_eq!(found[0].1.chars(), Some(&"wide".to_string()));
}

#[test]
fn find_closest_keeps_the_earlier_of_two_equally_close_glyphs_first() {
    let mut library = GlyphLibrary::new();
    library.add_glyph(glyph(bitmap(3, 1, vec![255, 0, 0]), "first"));
    library.add_glyph(glyph(bitmap(3, 1, vec![0, 0, 0]), "best"));
    library.add_glyph(glyph(bitmap(3, 1, vec![0, 255, 0]), "second"));
    library.add_glyph(glyph(bitmap(3, 1, vec![0, 0, 255]), "third"));
    let found = library.find_closest(&bitmap(3, 1, vec![0, 0, 0]));
    let texts: Vec<&str> = found.iter().map(|(_, g)| g.chars().unwrap().as_str()).collect();
    assert_eq!(texts, vec!["best", "first", "second", "third"]);
    let sums: Vec<usize> = found.iter().map(|(sum, _)| *sum).collect();
    assert_eq!(sums, vec![3, 2, 2, 2]);
}

#[test]
fn to_record_writes_rows_offsets_and_text() {
    let made = Glyph::new(bitmap(2, 2, vec![0, 255, 255, 0]), (-3, 1), Some("a".to_string()));
    let record = made.to_record().unwrap();
    assert_eq!(record.img, vec!["8 ".to_string(), " 8".to_string()]);
    assert_eq!(record.orig_y, (-3, 1));
    assert_eq!(record.characters, Some("a".to_string()));
}

#[test]
fn to_record_rejects_a_gray_pixel() {
    let made = Glyph::new(bitmap(2, 1, vec![0, 100]), (0, 0), None);
    assert_eq!(made.to_record().err(), Some(Error::PixelSerializeInvalidValue(100)));
}

#[test]
fn from_record_reads_rows_offsets_and_text() {
    let record = GlyphRecord {
        img: vec!["8 ".to_string(), " 8".to_string()],
        orig_y: (2, -1),
        characters: None,
    };
    let made = Glyph::from_record(&record).unwrap();
    assert_eq!(made.img().0.dimensions(), (2, 2));
    assert_eq!(made.img().0.as_raw(), &vec![0, 255, 255, 0]);
    assert_eq!(made.orig_y(), (2, -1));
    assert_eq!(made.chars(), None);
}

#[test]
fn from_record_rejects_an_unknown_character() {
    let record = GlyphRecord { img: vec!["8x".to_string()], orig_y: (0, 0), characters: None };
    assert_eq!(
        Glyph::from_record(&record).err(),
        Some(Error::PixelsDeserializeInvalidValue('x'))
    );
}

#[test]
fn save_reports_the_first_glyph_that_cannot_be_stored() {
    let mut library = GlyphLibrary::new();
    library.add_glyph(glyph(bitmap(1, 1, vec![0]), "a"));
    library.add_glyph(glyph(bitmap(1, 1, vec![3]), "b"));
    library.add_glyph(glyph(bitmap(1, 1, vec![4]), "c"));
    assert_eq!(library.save().err(), Some(Error::PixelSerializeInvalidValue(3)));
}

#[test]
fn load_fills_an_empty_library() {
    let records = vec![
        GlyphRecord { img: vec!["8".to_string()], orig_y: (0, 0), characters: Some("i".to_string()) },
        GlyphRecord { img: vec![" 8".to_string()], orig_y: (1, 2), characters: None },
    ];
    let mut library = GlyphLibrary::new();
    assert_eq!(library.load(&records), Ok(()));
    assert_eq!(library.len(), 2);
    assert_eq!(library.find(&bitmap(1, 1, vec![0])), Some("i"));
    assert_eq!(library.glyphs()[1].orig_y(), (1, 2));
}

#[test]
fn load_of_a_bad_record_leaves_the_library_empty() {
    let records = vec![
        GlyphRecord { img: vec!["8".to_string()], orig_y: (0, 0), characters: Some("i".to_string()) },
        GlyphRecord { img: Vec::new(), orig_y: (0, 0), characters: None },
    ];
    let mut library = GlyphLibrary::new();
    assert_eq!(library.load(&records), Err(Error::EmptyGlyphImage));
    assert_eq!(library.len(), 0);
}

#[test]
fn saved_library_comes_back_through_ron() {
    let mut library = GlyphLibrary::new();
    library.add_glyph(Glyph::new(
        bitmap(3, 2, vec![0, 255, 0, 255, 0, 255]),
        (-3, 1),
        Some("\u{e9}".to_string()),
    ));
    library.add_glyph(Glyph::new(bitmap(1, 2, vec![0, 0]), (0, 0), None));

    let records = library.save().unwrap();
    let plain: Vec<(Vec<String>, (i16, i16), Option<String>)> = records
        .into_iter()
        .map(|record| (record.img, record.orig_y, record.characters))
        .collect();
    let text = ron::ser::to_string(&plain).unwrap();
    let read: Vec<(Vec<String>, (i16, i16), Option<String>)> = ron::de::from_str(&text).unwrap();
    let records: Vec<GlyphRecord> = read
        .into_iter()
        .map(|(img, orig_y, characters)| GlyphRecord { img, orig_y, characters })
        .collect();

    let mut fresh = GlyphLibrary::new();
    assert_eq!(fresh.load(&records), Ok(()));
    assert_eq!(fresh.len(), library.len());
    for (loaded, saved) in fresh.glyphs().iter().zip(library.glyphs().iter()) {
        assert_eq!(loaded, saved);
        assert_eq!(loaded.img().0.dimensions(), saved.img().0.dimensions());
        assert_eq!(loaded.img().0.as_raw(), saved.img().0.as_raw());
        assert_eq!(loaded.orig_y(), saved.orig_y());
        assert_eq!(loaded.chars(), saved.chars());
    }
    assert_eq!(fresh.glyphs()[0].orig_y(), (-3, 1));
    assert_eq!(fresh.glyphs()[0].chars(), Some(&"\u{e9}".to_string()));
}

#[test]
fn glyphs_are_equal_when_image_offsets_and_text_are() {
    let make = |data: Vec<u8>, orig_y: (i16, i16), text: Option<&str>| {
        Glyph::new(bitmap(2, 1, data), orig_y, text.map(|t| t.to_string()))
    };
    assert!(make(vec![0, 255], (1, 2), Some("a")) == make(vec![0, 255], (1, 2), Some("a")));
    assert!(make(vec![0, 255], (1, 2), None) == make(vec![0, 255], (1, 2), None));
    assert!(make(vec![0, 255], (1, 2), Some("a")) != make(vec![0, 0], (1, 2), Some("a")));
    assert!(make(vec![0, 255], (1, 2), Some("a")) != make(vec![0, 255], (0, 2), Some("a")));
    assert!(make(vec![0, 255], (1, 2), Some("a")) != make(vec![0, 255], (1, 3), Some("a")));
    assert!(make(vec![0, 255], (1, 2), Some("a")) != make(vec![0, 255], (1, 2), Some("b")));
    assert!(make(vec![0, 255], (1, 2), Some("a")) != make(vec![0, 255], (1, 2), None));
    let tall = Glyph::new(bitmap(1, 2, vec![0, 255]), (1, 2), Some("a".to_string()));
    assert!(make(vec![0, 255], (1, 2), Some("a")) != tall);
}

#[test]
fn find_closest_counts_as_far_as_both_images_have_samples() {
    let mut library = GlyphLibrary::new();
    library.add_glyph(glyph(bitmap(2, 1, vec![0, 255, 0, 0]), "long"));
    let found = library.find_closest(&bitmap(2, 1, vec![0, 255, 0]));
    assert_eq!(found.len(), 1);
    assert_eq!(found[0].0, 3);
    assert_eq!(library.find(&bitmap(2, 1, vec![0, 255, 0])), None);
    assert_eq!(library.find(&bitmap(2, 1, vec![0, 255, 0, 0])), Some("long"));
}
