use subtile_ocr::check_subtitles;
use subtile_ocr::extension_found;
use subtile_ocr::extract_extension;
use subtile_ocr::no_profiling::init;
use subtile_ocr::no_profiling::write_perf_file;
use subtile_ocr::subtitle_format;
use subtile_ocr::Error;
use subtile_ocr::SubtitleFormat;

#[test]
fn extract_extension_gives_the_text_after_the_last_dot() {
    assert!(matches!(extract_extension("movie.sub"), Ok("sub")));
    assert!(matches!(extract_extension("dir/movie.en.idx"), Ok("idx")));
    assert!(matches!(extract_extension("/a.b/film.sup"), Ok("sup")));
}

#[test]
fn extract_extension_of_a_name_without_dot_fails() {
    assert!(matches!(extract_extension("movie"), Err(Error::NoFileExtension)));
    assert!(matches!(extract_extension("dir.d/movie"), Err(Error::NoFileExtension)));
    assert!(matches!(extract_extension(""), Err(Error::NoFileExtension)));
}

#[test]
fn extract_extension_of_a_hidden_file_fails() {
    assert!(matches!(extract_extension(".hidden"), Err(Error::NoFileExtension)));
}

#[test]
fn profiling_hooks_do_nothing() {
    let state = init();
    assert!(write_perf_file(state).is_ok());
}

#[test]
fn subtitle_format_knows_three_extensions() {
    assert!(matches!(subtitle_format("sup"), Ok(SubtitleFormat::Pgs)));
    assert!(matches!(subtitle_format("sub"), Ok(SubtitleFormat::VobSub)));
    assert!(matches!(subtitle_format("idx"), Ok(SubtitleFormat::VobSub)));
}

#[test]
fn subtitle_format_rejects_other_extensions() {
    match subtitle_format("srt") {
        Err(Error::InvalidFileExtension { extension }) => assert_eq!(extension, "srt"),
        other => panic!("unexpected {other:?}"),
    }
    assert!(matches!(subtitle_format("SUP"), Err(Error::InvalidFileExtension { .. })));
    assert!(matches!(subtitle_format(""), Err(Error::InvalidFileExtension { .. })));
    assert!(matches!(subtitle_format("sup "), Err(Error::InvalidFileExtension { .. })));
}

#[test]
fn check_subtitles_keeps_recognised_texts_in_order() {
    let subtitles: Vec<(u32, Result<String, ()>)> =
        vec![(1, Ok("one".to_string())), (2, Ok("two".to_string())), (3, Ok("three".to_string()))];
    match check_subtitles(subtitles) {
        Ok(kept) => assert_eq!(
            kept,
            vec![(1, "one".to_string()), (2, "two".to_string()), (3, "three".to_string())]
        ),
        Err(e) => panic!("unexpected {e:?}"),
    }
}

#[test]
fn check_subtitles_counts_failures() {
    let subtitles: Vec<(u32, Result<String, &str>)> = vec![
        (1, Err("bad")),
        (2, Ok("two".to_string())),
        (3, Err("worse")),
        (4, Ok("four".to_string())),
    ];
    assert!(matches!(check_subtitles(subtitles), Err(Error::OcrFails(2))));
}

#[test]
fn check_subtitles_of_nothing_is_nothing() {
    let subtitles: Vec<(u32, Result<String, ()>)> = Vec::new();
    assert!(matches!(check_subtitles(subtitles), Ok(kept) if kept.is_empty()));
}

#[test]
fn extension_found_tells_the_three_outcomes_apart() {
    assert!(matches!(extension_found(Some(Some("sub"))), Ok("sub")));
    assert!(matches!(extension_found(Some(None)), Err(Error::NotUtf8Extension)));
    assert!(matches!(extension_found(None), Err(Error::NoFileExtension)));
}
