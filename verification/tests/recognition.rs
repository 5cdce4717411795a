use std::cell::Cell;
use std::cell::RefCell;
use subtile_ocr::area::Area;
use subtile_ocr::glyph::Glyph;
use subtile_ocr::glyph::GlyphLibrary;
use subtile_ocr::ocs::is_confident;
use subtile_ocr::ocs::known_text;
use subtile_ocr::ocs::learn_glyph;
use subtile_ocr::ocs::Error;
use subtile_ocr::ocs::GlyphCharAsker;
use subtile_ocr::ocs::GlyphResult;
use subtile_ocr::ocs::ImageCharacterSplitter;
use subtile_ocr::ocs::ImagePieces;
use subtile_ocr::ocs::Piece;
use subtile_ocr::raster::GrayBitmap;

/// Answers with the given texts in turn, then aborts; remembers the pieces
/// it was asked about.
struct Scripted {
    answers: RefCell<Vec<&'static str>>,
    asked: Cell<u32>,
    areas: RefCell<Vec<Area>>,
}

impl Scripted {
    fn new(answers: &[&'static str]) -> Scripted {
        let mut answers = answers.to_vec();
        answers.reverse();
        Scripted { answers: RefCell::new(answers), asked: Cell::new(0), areas: RefCell::new(Vec::new()) }
    }
}

impl GlyphCharAsker for Scripted {
    fn ask_char_for_glyph(&self, piece: &Piece) -> GlyphResult {
        self.asked.set(self.asked.get() + 1);
        self.areas.borrow_mut().push(piece.area());
        assert!(piece.has_img());
        match self.answers.borrow_mut().pop() {
            Some(text) => GlyphResult::Char(text.to_string()),
            None => GlyphResult::Abort,
        }
    }
}

fn picture(rows: &[&str]) -> GrayBitmap {
    let height = rows.len() as u32;
    let width = rows[0].len() as u32;
    let mut data = Vec::new();
    for row in rows {
        assert_eq!(row.len() as u32, width);
        for c in row.chars() {
            data.push(if c == '8' { 0u8 } else { 255u8 });
        }
    }
    GrayBitmap::from_vec(width, height, data).unwrap()
}

fn split(rows: &[&str]) -> ImagePieces {
    ImageCharacterSplitter::from_image(&picture(rows)).split_in_character_img().unwrap()
}

/// A picture of 20 by 10 pixels with one vertical stroke.
fn letter_i() -> ImagePieces {
    split(&[
        "                    ",
        "                    ",
        "     8              ",
        "     8              ",
        "     8              ",
        "     8              ",
        "     8              ",
        "     8              ",
        "                    ",
        "                    ",
    ])
}

#[test]
fn single_stroke_is_asked_once_and_learned() {
    let pieces = letter_i();
    assert_eq!(pieces.lines().len(), 1);
    assert_eq!(pieces.lines()[0].pieces().len(), 1);
    let mut library = GlyphLibrary::new();
    let asker = Scripted::new(&["I"]);
    let text = pieces.process_to_text(&mut library, &asker);
    assert_eq!(text, Ok("I\n".to_string()));
    assert_eq!(asker.asked.get(), 1);
    assert_eq!(asker.areas.borrow()[0], Area::try_new(5, 2, 5, 7).unwrap());
    assert_eq!(library.len(), 1);
    assert_eq!(library.glyphs()[0].chars(), Some(&"I".to_string()));
    assert_eq!(library.glyphs()[0].img().0.dimensions(), (1, 6));
    assert_eq!(library.glyphs()[0].img().0.as_raw(), &vec![0u8; 6]);
    assert_eq!(library.glyphs()[0].orig_y(), (0, 0));
}

#[test]
fn abort_stops_reading_and_learns_nothing() {
    let pieces = letter_i();
    let mut library = GlyphLibrary::new();
    let asker = Scripted::new(&[]);
    let text = pieces.process_to_text(&mut library, &asker);
    assert_eq!(text, Err(Error::StopGlyphProcess));
    assert_eq!(asker.asked.get(), 1);
    assert_eq!(library.len(), 0);
}

#[test]
fn learned_glyph_is_not_asked_again() {
    let pieces = letter_i();
    let mut library = GlyphLibrary::new();
    assert_eq!(pieces.process_to_text(&mut library, &Scripted::new(&["I"])), Ok("I\n".to_string()));
    let asker = Scripted::new(&[]);
    assert_eq!(pieces.process_to_text(&mut library, &asker), Ok("I\n".to_string()));
    assert_eq!(asker.asked.get(), 0);
    assert_eq!(library.len(), 1);
}

#[test]
fn glyph_learned_in_a_run_is_known_later_in_the_run() {
    let pieces = split(&[
        "8 8 88 8", //
        "8 8 88 8", //
        "        ", //
        "88 8    ", //
        "88 8    ",
    ]);
    let mut library = GlyphLibrary::new();
    let asker = Scripted::new(&["l", "o"]);
    let text = pieces.process_to_text(&mut library, &asker);
    assert_eq!(text, Ok("llol\nol\n".to_string()));
    assert_eq!(asker.asked.get(), 2);
    assert_eq!(library.len(), 2);
}

#[test]
fn glyphs_learned_before_an_abort_are_kept() {
    let pieces = split(&[
        "8 88 888", //
        "8 88 888",
    ]);
    let mut library = GlyphLibrary::new();
    let asker = Scripted::new(&["a", "b"]);
    let text = pieces.process_to_text(&mut library, &asker);
    assert_eq!(text, Err(Error::StopGlyphProcess));
    assert_eq!(asker.asked.get(), 3);
    assert_eq!(library.len(), 2);
    assert_eq!(library.glyphs()[0].chars(), Some(&"a".to_string()));
    assert_eq!(library.glyphs()[1].chars(), Some(&"b".to_string()));
}

#[test]
fn answer_of_several_characters_is_taken_whole() {
    let pieces = letter_i();
    let mut library = GlyphLibrary::new();
    let text = pieces.process_to_text(&mut library, &Scripted::new(&["ffi"]));
    assert_eq!(text, Ok("ffi\n".to_string()));
    assert_eq!(library.glyphs()[0].chars(), Some(&"ffi".to_string()));
}

#[test]
fn offsets_are_negative_above_the_baseline_and_positive_below() {
    let pieces = split(&[
        "8        ", //
        "8        ", //
        "8  88  88", //
        "8  8   88", //
        "8  8   88", //
        "88 8   88", //
        "   8     ", //
        "   8     ",
    ]);
    assert_eq!(pieces.lines().len(), 1);
    assert_eq!(pieces.lines()[0].base_y(), Some((2, 5)));
    let mut library = GlyphLibrary::new();
    let asker = Scripted::new(&["b", "p", "n"]);
    let text = pieces.process_to_text(&mut library, &asker);
    assert_eq!(text, Ok("bpn\n".to_string()));
    assert_eq!(library.glyphs()[0].orig_y(), (-2, 0));
    assert_eq!(library.glyphs()[1].orig_y(), (0, 2));
    assert_eq!(library.glyphs()[2].orig_y(), (0, 0));
}

#[test]
fn close_glyph_is_taken_without_asking() {
    // 20 pixels, of which the piece shares 19 with the stored glyph.
    let mut stored = vec![0u8; 20];
    stored[7] = 255;
    let mut library = GlyphLibrary::new();
    library.add_glyph(Glyph::new(
        GrayBitmap::from_vec(4, 5, stored).unwrap(),
        (0, 0),
        Some("m".to_string()),
    ));
    let pieces = split(&["8888", "8888", "8888", "8888", "8888"]);
    let asker = Scripted::new(&[]);
    assert_eq!(pieces.process_to_text(&mut library, &asker), Ok("m\n".to_string()));
    assert_eq!(asker.asked.get(), 0);
    assert_eq!(library.len(), 1);
}

#[test]
fn glyph_that_is_not_close_enough_is_asked_about() {
    // 20 pixels, of which the piece shares 18 with the stored glyph.
    let mut stored = vec![0u8; 20];
    stored[7] = 255;
    stored[8] = 255;
    let mut library = GlyphLibrary::new();
    library.add_glyph(Glyph::new(
        GrayBitmap::from_vec(4, 5, stored).unwrap(),
        (0, 0),
        Some("m".to_string()),
    ));
    let pieces = split(&["8888", "8888", "8888", "8888", "8888"]);
    let asker = Scripted::new(&["w"]);
    assert_eq!(pieces.process_to_text(&mut library, &asker), Ok("w\n".to_string()));
    assert_eq!(asker.asked.get(), 1);
    assert_eq!(library.len(), 2);
}

#[test]
fn close_glyph_without_text_is_asked_about() {
    let mut library = GlyphLibrary::new();
    library.add_glyph(Glyph::new(GrayBitmap::from_vec(1, 6, vec![0u8; 6]).unwrap(), (0, 0), None));
    let pieces = letter_i();
    let asker = Scripted::new(&["I"]);
    assert_eq!(pieces.process_to_text(&mut library, &asker), Ok("I\n".to_string()));
    assert_eq!(asker.asked.get(), 1);
    assert_eq!(library.len(), 2);
}

#[test]
fn is_confident_at_ninety_five_in_a_hundred() {
    assert!(is_confident(95, 100));
    assert!(is_confident(100, 100));
    assert!(is_confident(19, 20));
    assert!(!is_confident(94, 100));
    assert!(!is_confident(18, 20));
    assert!(!is_confident(0, 1));
}

#[test]
fn is_confident_needs_pixels() {
    assert!(!is_confident(0, 0));
}

#[test]
fn is_confident_with_the_largest_numbers() {
    assert!(is_confident(usize::MAX, usize::MAX));
    assert!(!is_confident(usize::MAX / 2, usize::MAX));
}

#[test]
fn known_text_prefers_the_identical_glyph() {
    let mut library = GlyphLibrary::new();
    let mut near = vec![0u8; 20];
    near[0] = 255;
    library.add_glyph(Glyph::new(GrayBitmap::from_vec(4, 5, near).unwrap(), (0, 0), Some("near".to_string())));
    library.add_glyph(Glyph::new(
        GrayBitmap::from_vec(4, 5, vec![0u8; 20]).unwrap(),
        (0, 0),
        Some("same".to_string()),
    ));
    let query = GrayBitmap::from_vec(4, 5, vec![0u8; 20]).unwrap();
    assert_eq!(known_text(&library, &query), Some("same"));
    let mut other = vec![0u8; 20];
    other[19] = 255;
    let query = GrayBitmap::from_vec(4, 5, other).unwrap();
    assert_eq!(known_text(&library, &query), Some("same"));
}

#[test]
fn known_text_of_an_empty_library_is_nothing() {
    let library = GlyphLibrary::new();
    assert_eq!(known_text(&library, &GrayBitmap::from_vec(1, 1, vec![0]).unwrap()), None);
}

#[test]
fn learn_glyph_takes_a_text() {
    let mut piece = Piece::new(vec![(3, 4), (3, 5)]);
    piece.create_img();
    let mut library = GlyphLibrary::new();
    let mut text = "ab".to_string();
    let r = learn_glyph(&mut library, &mut text, &piece, (6, 3), GlyphResult::Char("c".to_string()));
    assert_eq!(r, Ok(()));
    assert_eq!(text, "abc");
    assert_eq!(library.len(), 1);
    assert_eq!(library.glyphs()[0].orig_y(), (-2, 2));
    assert_eq!(library.glyphs()[0].chars(), Some(&"c".to_string()));
    assert_eq!(library.glyphs()[0].img().0.as_raw(), &vec![0u8, 0u8]);
}

#[test]
fn learn_glyph_reports_an_abort() {
    let mut piece = Piece::new(vec![(3, 4)]);
    piece.create_img();
    let mut library = GlyphLibrary::new();
    let mut text = "ab".to_string();
    let r = learn_glyph(&mut library, &mut text, &piece, (4, 4), GlyphResult::Abort);
    assert_eq!(r, Err(Error::StopGlyphProcess));
    assert_eq!(text, "ab");
    assert_eq!(library.len(), 0);
}

#[test]
fn learned_glyphs_can_be_saved_and_loaded() {
    let pieces = split(&[
        "8 88 8 8", //
        "8 8  888", //
        "8 88 8 8",
    ]);
    let mut library = GlyphLibrary::new();
    let asker = Scripted::new(&["I", "C", "H"]);
    assert_eq!(pieces.process_to_text(&mut library, &asker), Ok("ICH\n".to_string()));
    let records = library.save().unwrap();
    assert_eq!(records.len(), 3);
    assert_eq!(records[1].img, vec!["88".to_string(), "8 ".to_string(), "88".to_string()]);
    let mut fresh = GlyphLibrary::new();
    assert_eq!(fresh.load(&records), Ok(()));
    let again = Scripted::new(&[]);
    assert_eq!(pieces.process_to_text(&mut fresh, &again), Ok("ICH\n".to_string()));
    assert_eq!(again.asked.get(), 0);
}
