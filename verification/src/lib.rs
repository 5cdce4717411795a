//! Glyph-based text extraction from bitmap subtitle images.
//!
//! A two-colour image is cut into connected ink regions, the regions are
//! grouped into text lines, and each region is recognised through a library of
//! learned glyphs; a glyph that the library does not know is asked about and
//! learned.
//!
//! - `raster`: grey-scale bitmaps.
//! - `area`: rectangles of pixels.
//! - `connect`: which ink pixels belong together, and the pieces of an image.
//! - `flood`: finding the pieces of an image.
//! - `pieces`: how pieces become lines that are ready to be read.
//! - `ocs`: pieces, lines, the splitter of an image and the reading of text.
//! - `reading`: what reading gives for each way of answering questions.
//! - `glyph_image`: the text forms of a glyph's image.
//! - `glyph`: glyphs, the glyph library and its records.
//! - `no_profiling`: profiling hooks that do nothing.
//!
//! The crate root holds what a program around the library needs to choose a
//! subtitle parser and to gather the recognised subtitles.

pub mod area;
pub mod connect;
pub mod flood;
pub mod glyph;
pub mod glyph_image;
pub mod no_profiling;
pub mod ocs;
pub mod pieces;
pub mod raster;
pub mod reading;

use std::path::Path;
use vstd::prelude::*;

verus! {

/// Why an input file cannot be handed to a subtitle parser.
#[derive(Debug)]
pub enum Error {
    /// The file has an extension, given here, that no parser handles.
    InvalidFileExtension { extension: String },
    /// The file has no extension.
    NoFileExtension,
    /// The file has an extension that is not UTF-8.
    NotUtf8Extension,
    /// Recognition failed on this many subtitle images.
    OcrFails(u32),
}

/// What `Path::extension` finds in the path that a text spells, by the path
/// rules of the platform that the program is built for: nothing, an
/// extension that is not UTF-8, or the extension's text.
pub uninterp spec fn path_extension(path: Seq<char>) -> Option<Option<Seq<char>>>;

/// The text of an extension that was looked for.
pub open spec fn extension_text(found: Option<Option<&str>>) -> Option<Option<Seq<char>>> {
    match found {
        None => None,
        Some(None) => Some(None),
        Some(Some(ext)) => Some(Some(ext@)),
    }
}

/// `Path::extension` on the path that `path` spells, with the extension
/// turned back into text by `OsStr::to_str` where it is UTF-8. The result is
/// that of `Path::extension`, which depends on the path alone.
#[verifier::external_body]
fn extension_of(path: &str) -> (r: Option<Option<&str>>)
    ensures
        extension_text(r) == path_extension(path@),
{
    match Path::new(path).extension() {
        Some(ext) => Some(ext.to_str()),
        None => None,
    }
}

/// The kinds of subtitle file that can be read.
#[derive(Debug, Clone, Copy, PartialEq, Eq)]
pub enum SubtitleFormat {
    /// Presentation Graphic Stream, in a `sup` file.
    Pgs,
    /// VobSub, in a `sub` file with an `idx` file beside it.
    VobSub,
}

/// The kind of subtitle file that a file with the given extension holds,
/// if the extension is a known one.
pub open spec fn format_of(extension: Seq<char>) -> Option<SubtitleFormat> {
    if extension == "sup"@ {
        Some(SubtitleFormat::Pgs)
    } else if extension == "sub"@ || extension == "idx"@ {
        Some(SubtitleFormat::VobSub)
    } else {
        None
    }
}

/// The kind of subtitle file that a file with the given extension holds.
pub fn subtitle_format(extension: &str) -> (r: Result<SubtitleFormat, Error>)
    ensures
        match format_of(extension@) {
            Some(format) => r == Ok::<SubtitleFormat, Error>(format),
            None => r matches Err(Error::InvalidFileExtension { extension: unknown }) && unknown@
                == extension@,
        },
{
    let owned = extension.to_owned();
    if owned == String::from_str("sup") {
        Ok(SubtitleFormat::Pgs)
    } else if owned == String::from_str("sub") || owned == String::from_str("idx") {
        Ok(SubtitleFormat::VobSub)
    } else {
        Err(Error::InvalidFileExtension { extension: owned })
    }
}

/// The extension that was found in a path, or why there is none to go by:
/// the path has no extension, or one that is not UTF-8.
pub fn extension_found(found: Option<Option<&str>>) -> (r: Result<&str, Error>)
    ensures
        match found {
            None => r matches Err(Error::NoFileExtension),
            Some(None) => r matches Err(Error::NotUtf8Extension),
            Some(Some(ext)) => r matches Ok(same) && same@ == ext@,
        },
{
    match found {
        None => Err(Error::NoFileExtension),
        Some(None) => Err(Error::NotUtf8Extension),
        Some(Some(ext)) => Ok(ext),
    }
}

/// The extension of `path`, as text.
pub fn extract_extension(path: &str) -> (r: Result<&str, Error>)
    ensures
        match path_extension(path@) {
            None => r matches Err(Error::NoFileExtension),
            Some(None) => r matches Err(Error::NotUtf8Extension),
            Some(Some(ext)) => r matches Ok(found) && found@ == ext,
        },
{
    extension_found(extension_of(path))
}

/// The number of failed recognitions among the first `n` subtitles.
pub open spec fn failures<T, E>(subtitles: Seq<(T, Result<String, E>)>, n: int) -> nat
    decreases n,
{
    if n <= 0 {
        0
    } else {
        failures(subtitles, n - 1) + if subtitles[n - 1].1 is Err {
            1nat
        } else {
            0nat
        }
    }
}

/// The recognised subtitles among the first `n`, each with its time, in
/// their order.
pub open spec fn recognised<T, E>(subtitles: Seq<(T, Result<String, E>)>, n: int) -> Seq<
    (T, Seq<char>),
>
    decreases n,
{
    if n <= 0 {
        Seq::empty()
    } else {
        let before = recognised(subtitles, n - 1);
        match subtitles[n - 1].1 {
            Ok(text) => before.push((subtitles[n - 1].0, text@)),
            Err(_) => before,
        }
    }
}

/// Each subtitle's time and text.
pub open spec fn timed_texts<T>(subtitles: Seq<(T, String)>) -> Seq<(T, Seq<char>)> {
    Seq::new(subtitles.len(), |i: int| (subtitles[i].0, subtitles[i].1@))
}

/// Gathers the subtitles that were recognised. If recognition failed on
/// any, their number is reported instead.
pub fn check_subtitles<T, E>(subtitles: Vec<(T, Result<String, E>)>) -> (r: Result<
    Vec<(T, String)>,
    Error,
>)
    requires
        subtitles@.len() <= u32::MAX,
    ensures
        failures(subtitles@, subtitles@.len() as int) == 0 ==> (r matches Ok(kept) && timed_texts(
            kept@,
        ) == recognised(subtitles@, subtitles@.len() as int)),
        failures(subtitles@, subtitles@.len() as int) > 0 ==> (r matches Err(Error::OcrFails(count))
            && count == failures(subtitles@, subtitles@.len() as int)),
{
    let ghost all = subtitles@;
    let mut ocr_error_count: u32 = 0;
    let mut kept: Vec<(T, String)> = Vec::new();
    for item in it: subtitles.into_iter()
        invariant
            it.seq() == all,
            all.len() <= u32::MAX,
            ocr_error_count == failures(all, it.index()),
            timed_texts(kept@) == recognised(all, it.index()),
    {
        let ghost before = timed_texts(kept@);
        let (time, maybe_text) = item;
        match maybe_text {
            Ok(text) => {
                kept.push((time, text));
                assert(timed_texts(kept@) == before.push((time, text@)));
            },
            Err(_) => {
                proof {
                    lemma_failures_bounded(all, it.index());
                }
                ocr_error_count = ocr_error_count + 1;
            },
        }
    }
    if ocr_error_count > 0 {
        Err(Error::OcrFails(ocr_error_count))
    } else {
        Ok(kept)
    }
}

/// No more recognitions failed than there are subtitles.
pub proof fn lemma_failures_bounded<T, E>(subtitles: Seq<(T, Result<String, E>)>, n: int)
    requires
        0 <= n,
    ensures
        failures(subtitles, n) <= n,
    decreases n,
{
    if n > 0 {
        lemma_failures_bounded(subtitles, n - 1);
    }
}

} // verus!
