//! The text forms of a glyph's image: one character per pixel, as rows of
//! text or as one run with the image's size.

use crate::glyph::Error;
use crate::raster::Bitmap;
use crate::raster::GrayBitmap;
use crate::raster::BACKGROUND;
use crate::raster::INK;
use vstd::prelude::*;

verus! {

/// The character that stands for an ink pixel.
pub const INK_SYMBOL: char = '8';

/// The character that stands for a background pixel.
pub const BACKGROUND_SYMBOL: char = ' ';

/// The character that the text form has for a pixel value, if any.
pub open spec fn pixel_symbol(pixel: u8) -> Option<char> {
    if pixel == INK {
        Some(INK_SYMBOL)
    } else if pixel == BACKGROUND {
        Some(BACKGROUND_SYMBOL)
    } else {
        None
    }
}

/// The pixel value that a character of the text form stands for, if any.
pub open spec fn symbol_pixel(symbol: char) -> Option<u8> {
    if symbol == INK_SYMBOL {
        Some(INK)
    } else if symbol == BACKGROUND_SYMBOL {
        Some(BACKGROUND)
    } else {
        None
    }
}

/// The first of the first `n` pixels that has no character, if there is one.
pub open spec fn first_bad_pixel(pixels: Seq<u8>, n: int) -> Option<u8>
    decreases n,
{
    if n <= 0 {
        None
    } else {
        match first_bad_pixel(pixels, n - 1) {
            Some(p) => Some(p),
            None => if pixel_symbol(pixels[n - 1]) is None {
                Some(pixels[n - 1])
            } else {
                None
            },
        }
    }
}

/// The first of the first `n` characters that stands for no pixel, if there
/// is one.
pub open spec fn first_bad_symbol(symbols: Seq<char>, n: int) -> Option<char>
    decreases n,
{
    if n <= 0 {
        None
    } else {
        match first_bad_symbol(symbols, n - 1) {
            Some(c) => Some(c),
            None => if symbol_pixel(symbols[n - 1]) is None {
                Some(symbols[n - 1])
            } else {
                None
            },
        }
    }
}

/// The characters for a run of pixels, one for one.
pub open spec fn symbols_of(pixels: Seq<u8>) -> Seq<char> {
    Seq::new(pixels.len(), |i: int| if pixels[i] == INK { INK_SYMBOL } else { BACKGROUND_SYMBOL })
}

/// The pixels for a run of characters, one for one.
pub open spec fn pixels_of(symbols: Seq<char>) -> Seq<u8> {
    Seq::new(symbols.len(), |i: int| if symbols[i] == INK_SYMBOL { INK } else { BACKGROUND })
}

/// The first `n` rows, one after the other.
pub open spec fn joined_rows(rows: Seq<Seq<char>>, n: int) -> Seq<char>
    decreases n,
{
    if n <= 0 {
        Seq::empty()
    } else {
        joined_rows(rows, n - 1) + rows[n - 1]
    }
}

/// The pixels that make up the image, without what the samples hold beyond.
pub open spec fn visible_pixels(b: Bitmap) -> Seq<u8> {
    b.data.take(b.width * b.height)
}

/// The compact text form of an image: one character per pixel, row after row.
pub open spec fn encoded_compact(b: Bitmap) -> Result<Seq<char>, Error> {
    let pixels = visible_pixels(b);
    match first_bad_pixel(pixels, pixels.len() as int) {
        Some(p) => Err(Error::PixelSerializeInvalidValue(p)),
        None => Ok(symbols_of(pixels)),
    }
}

/// A run of characters cut into rows of `width`; an image without columns
/// has no rows.
pub open spec fn cut_rows(symbols: Seq<char>, width: int, height: int) -> Seq<Seq<char>> {
    Seq::new(
        if width <= 0 || height <= 0 {
            0nat
        } else {
            height as nat
        },
        |y: int| symbols.subrange(y * width, (y + 1) * width),
    )
}

/// The readable text form of an image: one string per row, one character per
/// pixel.
pub open spec fn encoded_rows(b: Bitmap) -> Result<Seq<Seq<char>>, Error> {
    match encoded_compact(b) {
        Err(e) => Err(e),
        Ok(symbols) => Ok(cut_rows(symbols, b.width, b.height)),
    }
}

/// The image that the compact text form spells. An unknown character is
/// reported first; then the characters must fill the size exactly.
pub open spec fn decoded_compact(width: int, height: int, symbols: Seq<char>) -> Result<
    Bitmap,
    Error,
> {
    match first_bad_symbol(symbols, symbols.len() as int) {
        Some(c) => Err(Error::PixelsDeserializeInvalidValue(c)),
        None => if 0 <= width <= u32::MAX && 0 <= height <= u32::MAX && width * height
            == symbols.len() {
            Ok(Bitmap { width, height, data: pixels_of(symbols) })
        } else {
            Err(Error::GlyphImageSize)
        },
    }
}

/// The image that the readable text form spells: as high as there are rows,
/// as wide as the first row.
pub open spec fn decoded_rows(rows: Seq<Seq<char>>) -> Result<Bitmap, Error> {
    if rows.len() == 0 {
        Err(Error::EmptyGlyphImage)
    } else {
        decoded_compact(
            rows[0].len() as int,
            rows.len() as int,
            joined_rows(rows, rows.len() as int),
        )
    }
}

/// The text of each string.
pub open spec fn row_texts(rows: Seq<String>) -> Seq<Seq<char>> {
    Seq::new(rows.len(), |i: int| rows[i]@)
}

/// What is known of an image that may have failed to be read.
pub open spec fn read_image(r: Result<GlyphImage, Error>) -> Result<Bitmap, Error> {
    match r {
        Ok(img) => Ok(img@),
        Err(e) => Err(e),
    }
}

/// Whether a bad pixel was met among the first `n` does not depend on what
/// follows them.
pub proof fn lemma_first_bad_pixel_local(a: Seq<u8>, b: Seq<u8>, n: int)
    requires
        0 <= n <= a.len(),
        n <= b.len(),
        forall|i: int| 0 <= i < n ==> a[i] == b[i],
    ensures
        first_bad_pixel(a, n) == first_bad_pixel(b, n),
    decreases n,
{
    if n > 0 {
        lemma_first_bad_pixel_local(a, b, n - 1);
    }
}

/// A bad pixel met among the first `n` is still the first among more.
pub proof fn lemma_first_bad_pixel_stays(a: Seq<u8>, n: int, m: int)
    requires
        0 <= n <= m,
        first_bad_pixel(a, n) is Some,
    ensures
        first_bad_pixel(a, m) == first_bad_pixel(a, n),
    decreases m - n,
{
    if n < m {
        lemma_first_bad_pixel_stays(a, n, m - 1);
    }
}

/// No bad pixel among the first `n` means each of them has a character.
pub proof fn lemma_no_bad_pixel(a: Seq<u8>, n: int)
    requires
        first_bad_pixel(a, n) is None,
    ensures
        forall|i: int| 0 <= i < n ==> pixel_symbol(#[trigger] a[i]) is Some,
    decreases n,
{
    if n > 0 {
        lemma_no_bad_pixel(a, n - 1);
    }
}

/// Pixels that are each ink or background hold no bad one.
pub proof fn lemma_two_colours_no_bad_pixel(a: Seq<u8>, n: int)
    requires
        0 <= n <= a.len(),
        forall|i: int| 0 <= i < n ==> #[trigger] a[i] == INK || a[i] == BACKGROUND,
    ensures
        first_bad_pixel(a, n) is None,
    decreases n,
{
    if n > 0 {
        lemma_two_colours_no_bad_pixel(a, n - 1);
        assert(a[n - 1] == INK || a[n - 1] == BACKGROUND);
    }
}

/// Whether a bad character was met among the first `n` does not depend on
/// what follows them.
pub proof fn lemma_first_bad_symbol_local(a: Seq<char>, b: Seq<char>, n: int)
    requires
        0 <= n <= a.len(),
        n <= b.len(),
        forall|i: int| 0 <= i < n ==> a[i] == b[i],
    ensures
        first_bad_symbol(a, n) == first_bad_symbol(b, n),
    decreases n,
{
    if n > 0 {
        lemma_first_bad_symbol_local(a, b, n - 1);
    }
}

/// A bad character met among the first `n` is still the first among more.
pub proof fn lemma_first_bad_symbol_stays(a: Seq<char>, n: int, m: int)
    requires
        0 <= n <= m,
        first_bad_symbol(a, n) is Some,
    ensures
        first_bad_symbol(a, m) == first_bad_symbol(a, n),
    decreases m - n,
{
    if n < m {
        lemma_first_bad_symbol_stays(a, n, m - 1);
    }
}

/// Characters that all stand for a pixel hold no bad one, and conversely.
pub proof fn lemma_no_bad_symbol(a: Seq<char>, n: int)
    ensures
        first_bad_symbol(a, n) is None <==> forall|i: int|
            0 <= i < n ==> symbol_pixel(#[trigger] a[i]) is Some,
        first_bad_symbol(a, n) matches Some(c) ==> symbol_pixel(c) is None,
    decreases n,
{
    if n > 0 {
        lemma_no_bad_symbol(a, n - 1);
        if first_bad_symbol(a, n - 1) is None && symbol_pixel(a[n - 1]) is Some {
            assert forall|i: int| 0 <= i < n implies symbol_pixel(#[trigger] a[i]) is Some by {
                if i < n - 1 {
                } else {
                    assert(i == n - 1);
                }
            }
        }
    }
}

/// The first bad character of two runs joined is that of the first run, or
/// else that of the second.
pub proof fn lemma_first_bad_symbol_concat(a: Seq<char>, b: Seq<char>, n: int)
    requires
        0 <= n <= b.len(),
    ensures
        first_bad_symbol(a + b, a.len() + n) == match first_bad_symbol(a, a.len() as int) {
            Some(c) => Some(c),
            None => first_bad_symbol(b, n),
        },
    decreases n,
{
    if n > 0 {
        lemma_first_bad_symbol_concat(a, b, n - 1);
        assert((a + b)[a.len() + n - 1] == b[n - 1]);
    } else {
        lemma_first_bad_symbol_local(a + b, a, a.len() as int);
    }
}

/// The first `n` rows joined begin the first `m` rows joined, for `n <= m`.
pub proof fn lemma_joined_rows_prefix(rows: Seq<Seq<char>>, n: int, m: int)
    requires
        0 <= n <= m <= rows.len(),
    ensures
        joined_rows(rows, n).len() <= joined_rows(rows, m).len(),
        joined_rows(rows, m).take(joined_rows(rows, n).len() as int) == joined_rows(rows, n),
    decreases m - n,
{
    if n < m {
        lemma_joined_rows_prefix(rows, n, m - 1);
        let short = joined_rows(rows, n);
        let mid = joined_rows(rows, m - 1);
        assert(joined_rows(rows, m) == mid + rows[m - 1]);
        assert(joined_rows(rows, m).take(short.len() as int) =~= mid.take(short.len() as int));
    } else {
        assert(joined_rows(rows, m).take(joined_rows(rows, n).len() as int) =~= joined_rows(
            rows,
            n,
        ));
    }
}

/// A bad character met in the first `n` rows is the first bad character of
/// all the rows.
pub proof fn lemma_bad_symbol_in_rows(rows: Seq<Seq<char>>, n: int)
    requires
        0 <= n <= rows.len(),
        first_bad_symbol(joined_rows(rows, n), joined_rows(rows, n).len() as int) is Some,
    ensures
        first_bad_symbol(
            joined_rows(rows, rows.len() as int),
            joined_rows(rows, rows.len() as int).len() as int,
        ) == first_bad_symbol(joined_rows(rows, n), joined_rows(rows, n).len() as int),
{
    let part = joined_rows(rows, n);
    let all = joined_rows(rows, rows.len() as int);
    lemma_joined_rows_prefix(rows, n, rows.len() as int);
    assert forall|i: int| 0 <= i < part.len() implies part[i] == all[i] by {
        assert(all.take(part.len() as int)[i] == all[i]);
    }
    lemma_first_bad_symbol_local(part, all, part.len() as int);
    lemma_first_bad_symbol_stays(all, part.len() as int, all.len() as int);
}

/// The first bad pixel of two runs joined is that of the first run, or else
/// that of the second.
pub proof fn lemma_first_bad_pixel_concat(a: Seq<u8>, b: Seq<u8>, n: int)
    requires
        0 <= n <= b.len(),
    ensures
        first_bad_pixel(a + b, a.len() + n) == match first_bad_pixel(a, a.len() as int) {
            Some(p) => Some(p),
            None => first_bad_pixel(b, n),
        },
    decreases n,
{
    if n > 0 {
        lemma_first_bad_pixel_concat(a, b, n - 1);
        assert((a + b)[a.len() + n - 1] == b[n - 1]);
    } else {
        lemma_first_bad_pixel_local(a + b, a, a.len() as int);
    }
}

/// Pixels that each have a character come back from their characters, and
/// their characters hold no bad one.
pub proof fn lemma_symbols_round_trip(pixels: Seq<u8>)
    requires
        first_bad_pixel(pixels, pixels.len() as int) is None,
    ensures
        pixels_of(symbols_of(pixels)) == pixels,
        first_bad_symbol(symbols_of(pixels), pixels.len() as int) is None,
{
    lemma_no_bad_pixel(pixels, pixels.len() as int);
    assert forall|i: int| 0 <= i < pixels.len() implies pixels_of(symbols_of(pixels))[i]
        == pixels[i] by {
        assert(pixel_symbol(pixels[i]) is Some);
    }
    assert(pixels_of(symbols_of(pixels)) =~= pixels);
    assert forall|i: int| 0 <= i < pixels.len() implies symbol_pixel(
        #[trigger] symbols_of(pixels)[i],
    ) is Some by {
        assert(pixel_symbol(pixels[i]) is Some);
    }
    lemma_no_bad_symbol(symbols_of(pixels), pixels.len() as int);
}

/// Cutting a run into rows and joining the first `n` of them gives the run's
/// first `n * width` characters.
pub proof fn lemma_join_cut_rows(symbols: Seq<char>, width: int, height: int, n: int)
    requires
        0 < width,
        0 < height,
        symbols.len() == width * height,
        0 <= n <= height,
    ensures
        0 <= n * width <= symbols.len(),
        joined_rows(cut_rows(symbols, width, height), n) == symbols.take(n * width),
    decreases n,
{
    assert(0 <= n * width <= height * width) by (nonlinear_arith)
        requires
            0 <= n <= height,
            0 < width,
    ;
    assert(height * width == width * height) by (nonlinear_arith);
    if n > 0 {
        lemma_join_cut_rows(symbols, width, height, n - 1);
        assert((n - 1) * width + width == n * width) by (nonlinear_arith);
        let rows = cut_rows(symbols, width, height);
        assert(rows[n - 1] == symbols.subrange((n - 1) * width, n * width));
        assert(symbols.take((n - 1) * width) + symbols.subrange((n - 1) * width, n * width)
            =~= symbols.take(n * width));
    } else {
        assert(n * width == 0) by (nonlinear_arith)
            requires
                n == 0,
        ;
        assert(joined_rows(cut_rows(symbols, width, height), n) =~= symbols.take(n * width));
    }
}

/// Reading back the compact text form of an image gives the image, provided
/// its samples cover its pixels exactly.
pub proof fn lemma_compact_round_trip(b: Bitmap)
    requires
        b.exact(),
        b.width <= u32::MAX,
        b.height <= u32::MAX,
        encoded_compact(b) is Ok,
    ensures
        decoded_compact(b.width, b.height, encoded_compact(b)->Ok_0) == Ok::<Bitmap, Error>(b),
{
    let pixels = visible_pixels(b);
    assert(pixels == b.data);
    lemma_symbols_round_trip(pixels);
}

/// Reading back the readable text form of an image gives the image, provided
/// it has at least one pixel and its samples cover its pixels exactly.
pub proof fn lemma_rows_round_trip(b: Bitmap)
    requires
        b.exact(),
        0 < b.width <= u32::MAX,
        0 < b.height <= u32::MAX,
        encoded_rows(b) is Ok,
    ensures
        decoded_rows(encoded_rows(b)->Ok_0) == Ok::<Bitmap, Error>(b),
{
    let pixels = visible_pixels(b);
    assert(pixels == b.data);
    let symbols = symbols_of(pixels);
    let rows = cut_rows(symbols, b.width, b.height);
    lemma_symbols_round_trip(pixels);
    lemma_join_cut_rows(symbols, b.width, b.height, b.height);
    assert(symbols.take(b.height * b.width) == symbols) by {
        assert(b.height * b.width == b.width * b.height) by (nonlinear_arith);
    }
    assert(rows[0].len() == b.width) by {
        assert(0 * b.width == 0 && (0 + 1) * b.width == b.width) by (nonlinear_arith);
        assert(b.width <= b.width * b.height) by (nonlinear_arith)
            requires
                0 < b.width,
                0 < b.height,
        ;
    }
}

/// A text form with a character that stands for no pixel is rejected, and
/// the error names such a character; a text form without one is not rejected
/// on that account.
pub proof fn lemma_decode_rejects_unknown(rows: Seq<Seq<char>>)
    requires
        rows.len() > 0,
    ensures
        (exists|i: int, j: int|
            0 <= i < rows.len() && 0 <= j < rows[i].len() && symbol_pixel(rows[i][j]) is None)
            <==> (decoded_rows(rows) matches Err(Error::PixelsDeserializeInvalidValue(c))
            && symbol_pixel(c) is None),
{
    let all = joined_rows(rows, rows.len() as int);
    lemma_no_bad_symbol(all, all.len() as int);
    if exists|i: int, j: int|
        0 <= i < rows.len() && 0 <= j < rows[i].len() && symbol_pixel(rows[i][j]) is None {
        let (i, j) = choose|i: int, j: int|
            0 <= i < rows.len() && 0 <= j < rows[i].len() && symbol_pixel(rows[i][j]) is None;
        lemma_joined_rows_prefix(rows, i, i + 1);
        lemma_joined_rows_prefix(rows, i + 1, rows.len() as int);
        let at = joined_rows(rows, i).len() + j;
        assert(joined_rows(rows, i + 1) == joined_rows(rows, i) + rows[i]);
        assert(joined_rows(rows, i + 1)[at] == rows[i][j]);
        assert(all.take(joined_rows(rows, i + 1).len() as int)[at] == all[at]);
        assert(symbol_pixel(all[at]) is None);
    }
    if first_bad_symbol(all, all.len() as int) is Some {
        assert(exists|k: int| 0 <= k < all.len() && symbol_pixel(all[k]) is None);
        let k = choose|k: int| 0 <= k < all.len() && symbol_pixel(all[k]) is None;
        lemma_symbol_in_rows(rows, rows.len() as int, k);
    }
}

/// Every character of the first `n` rows joined is a character of one of them.
pub proof fn lemma_symbol_in_rows(rows: Seq<Seq<char>>, n: int, k: int)
    requires
        0 <= n <= rows.len(),
        0 <= k < joined_rows(rows, n).len(),
    ensures
        exists|i: int, j: int|
            0 <= i < n && 0 <= j < rows[i].len() && rows[i][j] == joined_rows(rows, n)[k],
    decreases n,
{
    if n > 0 {
        let before = joined_rows(rows, n - 1);
        if k < before.len() {
            lemma_symbol_in_rows(rows, n - 1, k);
            let (i, j) = choose|i: int, j: int|
                0 <= i < n - 1 && 0 <= j < rows[i].len() && rows[i][j] == before[k];
            assert(0 <= i < n && 0 <= j < rows[i].len() && rows[i][j] == joined_rows(rows, n)[k]);
        } else {
            let j = k - before.len();
            assert(0 <= n - 1 < n && 0 <= j < rows[n - 1].len() && rows[n - 1][j] == joined_rows(
                rows,
                n,
            )[k]);
        }
    }
}

/// A glyph's image, with the text forms in which a glyph library stores it.
#[derive(Debug)]
pub struct GlyphImage(pub GrayBitmap);

impl View for GlyphImage {
    type V = Bitmap;

    open spec fn view(&self) -> Bitmap {
        self.0@
    }
}

/// `String::push`: appends one character to the text.
#[verifier::external_body]
pub(crate) fn push_char(text: &mut String, c: char)
    ensures
        final(text)@ == old(text)@.push(c),
{
    text.push(c);
}

/// Reads `symbols` as pixels and appends them to `pixels`; stops at the first
/// character that stands for no pixel.
fn append_pixels(symbols: &str, pixels: &mut Vec<u8>) -> (r: Result<(), Error>)
    ensures
        match first_bad_symbol(symbols@, symbols@.len() as int) {
            Some(c) => r == Err::<(), Error>(Error::PixelsDeserializeInvalidValue(c)),
            None => r is Ok && final(pixels)@ == old(pixels)@ + pixels_of(symbols@),
        },
{
    for c in it: symbols.chars()
        invariant
            it.seq() == symbols@,
            first_bad_symbol(symbols@, it.index()) is None,
            pixels@ == old(pixels)@ + pixels_of(symbols@.take(it.index())),
    {
        let ghost count: int = it.index();
        match GlyphImage::char_to_pix(c) {
            Ok(p) => {
                pixels.push(p);
            },
            Err(e) => {
                proof {
                    lemma_first_bad_symbol_stays(symbols@, count + 1, symbols@.len() as int);
                }
                return Err(e);
            },
        }
        assert(symbols@.take(count + 1) == symbols@.take(count as int).push(c));
        assert(pixels_of(symbols@.take(count + 1)) == pixels_of(symbols@.take(count as int)).push(
            if c == INK_SYMBOL {
                INK
            } else {
                BACKGROUND
            },
        ));
    }
    assert(symbols@.take(symbols@.len() as int) == symbols@);
    Ok(())
}

/// Writes the `len` pixels from `start` on as text; stops at the first pixel
/// that has no character.
fn run_text(raw: &Vec<u8>, start: usize, len: usize) -> (r: Result<String, Error>)
    requires
        start + len <= raw@.len(),
    ensures
        match first_bad_pixel(raw@.subrange(start as int, start + len), len as int) {
            Some(p) => r matches Err(e) && e == Error::PixelSerializeInvalidValue(p),
            None => r matches Ok(text) && text@ == symbols_of(
                raw@.subrange(start as int, start + len),
            ),
        },
{
    let ghost run = raw@.subrange(start as int, start + len);
    let total: usize = raw.len();
    let mut text = String::new();
    let mut i: usize = 0;
    while i < len
        invariant
            start + len <= raw@.len(),
            total == raw@.len(),
            run == raw@.subrange(start as int, start + len),
            i <= len,
            text@ == symbols_of(run.take(i as int)),
            first_bad_pixel(run, i as int) is None,
        decreases len - i,
    {
        assert(run[i as int] == raw@[start + i]);
        match GlyphImage::luma_to_char(raw[start + i]) {
            Ok(c) => {
                push_char(&mut text, c);
                assert(symbols_of(run.take(i + 1)) == symbols_of(run.take(i as int)).push(c));
            },
            Err(e) => {
                proof {
                    lemma_first_bad_pixel_stays(run, i + 1, len as int);
                }
                return Err(e);
            },
        }
        i = i + 1;
    }
    assert(run.take(len as int) == run);
    Ok(text)
}

impl GlyphImage {
    /// The character for a pixel value.
    pub fn luma_to_char(pix: u8) -> (r: Result<char, Error>)
        ensures
            match pixel_symbol(pix) {
                Some(c) => r == Ok::<char, Error>(c),
                None => r == Err::<char, Error>(Error::PixelSerializeInvalidValue(pix)),
            },
    {
        if pix == INK {
            Ok(INK_SYMBOL)
        } else if pix == BACKGROUND {
            Ok(BACKGROUND_SYMBOL)
        } else {
            Err(Error::PixelSerializeInvalidValue(pix))
        }
    }

    /// The pixel value for a character.
    pub fn char_to_pix(pix: char) -> (r: Result<u8, Error>)
        ensures
            match symbol_pixel(pix) {
                Some(p) => r == Ok::<u8, Error>(p),
                None => r == Err::<u8, Error>(Error::PixelsDeserializeInvalidValue(pix)),
            },
    {
        if pix == INK_SYMBOL {
            Ok(INK)
        } else if pix == BACKGROUND_SYMBOL {
            Ok(BACKGROUND)
        } else {
            Err(Error::PixelsDeserializeInvalidValue(pix))
        }
    }

    /// Reads an image from its compact text form.
    pub fn from_compact(width: u32, height: u32, symbols: &str) -> (r: Result<GlyphImage, Error>)
        ensures
            read_image(r) == decoded_compact(width as int, height as int, symbols@),
    {
        let mut pixels: Vec<u8> = Vec::new();
        match append_pixels(symbols, &mut pixels) {
            Ok(_) => {},
            Err(e) => {
                return Err(e);
            },
        }
        assert(pixels@ == pixels_of(symbols@));
        Self::from_pixels(width, height, pixels)
    }

    /// Reads an image from its readable text form.
    pub fn from_rows(rows: &Vec<String>) -> (r: Result<GlyphImage, Error>)
        ensures
            read_image(r) == decoded_rows(row_texts(rows@)),
    {
        let ghost texts = row_texts(rows@);
        let height: usize = rows.len();
        if height == 0 {
            return Err(Error::EmptyGlyphImage);
        }
        let mut pixels: Vec<u8> = Vec::new();
        let mut i: usize = 0;
        while i < height
            invariant
                height == rows.len(),
                texts == row_texts(rows@),
                i <= height,
                pixels@ == pixels_of(joined_rows(texts, i as int)),
                first_bad_symbol(
                    joined_rows(texts, i as int),
                    joined_rows(texts, i as int).len() as int,
                ) is None,
            decreases height - i,
        {
            let ghost before = joined_rows(texts, i as int);
            assert(texts[i as int] == rows[i as int]@);
            proof {
                lemma_first_bad_symbol_concat(
                    before,
                    texts[i as int],
                    texts[i as int].len() as int,
                );
            }
            match append_pixels(rows[i].as_str(), &mut pixels) {
                Ok(_) => {},
                Err(e) => {
                    proof {
                        lemma_bad_symbol_in_rows(texts, i + 1);
                    }
                    return Err(e);
                },
            }
            assert(pixels@ == pixels_of(before + texts[i as int]));
            i = i + 1;
        }
        let width: usize = rows[0].as_str().unicode_len();
        assert(texts[0] == rows[0]@);
        if width > 0xffff_ffff || height > 0xffff_ffff {
            return Err(Error::GlyphImageSize);
        }
        Self::from_pixels(width as u32, height as u32, pixels)
    }

    /// Builds the image of the given size from pixels that were read, if
    /// they fill it exactly.
    fn from_pixels(width: u32, height: u32, pixels: Vec<u8>) -> (r: Result<GlyphImage, Error>)
        ensures
            width * height == pixels@.len() ==> (r matches Ok(img) && img@ == (Bitmap {
                width: width as int,
                height: height as int,
                data: pixels@,
            })),
            width * height != pixels@.len() ==> r matches Err(Error::GlyphImageSize),
    {
        assert(width * height <= 0xffff_ffff * 0xffff_ffff) by (nonlinear_arith)
            requires
                0 <= width <= 0xffff_ffff,
                0 <= height <= 0xffff_ffff,
        ;
        let area: u64 = (width as u64) * (height as u64);
        if pixels.len() as u64 != area {
            return Err(Error::GlyphImageSize);
        }
        match GrayBitmap::from_vec(width, height, pixels) {
            Some(img) => Ok(GlyphImage(img)),
            None => Err(Error::GlyphImageSize),
        }
    }

    /// Writes the image in its compact text form: the size, and one character
    /// per pixel.
    pub fn to_compact(&self) -> (r: Result<((u32, u32), String), Error>)
        ensures
            match encoded_compact(self@) {
                Ok(symbols) => r matches Ok((size, text)) && size.0 == self@.width && size.1
                    == self@.height && text@ == symbols,
                Err(e) => r matches Err(f) && f == e,
            },
    {
        let (width, height) = self.0.dimensions();
        let raw = self.0.as_raw();
        let total: usize = raw.len();
        let count: usize = (width as usize) * (height as usize);
        assert(raw@.subrange(0, count as int) == visible_pixels(self@));
        match run_text(raw, 0, count) {
            Ok(text) => Ok(((width, height), text)),
            Err(e) => Err(e),
        }
    }

    /// Writes the image in its readable text form: one string per row.
    pub fn to_rows(&self) -> (r: Result<Vec<String>, Error>)
        ensures
            match encoded_rows(self@) {
                Ok(rows) => r matches Ok(texts) && row_texts(texts@) == rows,
                Err(e) => r matches Err(f) && f == e,
            },
    {
        let (width, height) = self.0.dimensions();
        let raw = self.0.as_raw();
        let ghost pixels = visible_pixels(self@);
        let ghost symbols = symbols_of(pixels);
        let mut rows: Vec<String> = Vec::new();
        let total: usize = raw.len();
        if width == 0 {
            assert(width * height == 0) by (nonlinear_arith)
                requires
                    width == 0,
            ;
            assert(pixels.len() == 0);
            assert(row_texts(rows@) == cut_rows(symbols, width as int, height as int));
            return Ok(rows);
        }
        let row_len: usize = width as usize;
        let mut start: usize = 0;
        let mut y: u32 = 0;
        while y < height
            invariant
                self@.wf(),
                total == raw@.len(),
                width == self@.width,
                height == self@.height,
                raw@ == self@.data,
                pixels == visible_pixels(self@),
                symbols == symbols_of(pixels),
                row_len == width,
                width > 0,
                y <= height,
                start == y * width,
                rows@.len() == y,
                first_bad_pixel(pixels, start as int) is None,
                forall|k: int|
                    0 <= k < y ==> (#[trigger] rows@[k])@ == symbols.subrange(
                        k * width,
                        (k + 1) * width,
                    ),
            decreases height - y,
        {
            assert((y + 1) * width == y * width + width) by (nonlinear_arith);
            assert((y + 1) * width <= height * width) by (nonlinear_arith)
                requires
                    y + 1 <= height,
                    0 <= width,
            ;
            assert(height * width == width * height) by (nonlinear_arith);
            let ghost run = raw@.subrange(start as int, start + row_len);
            assert(pixels.take(start + row_len) == pixels.take(start as int) + run);
            proof {
                lemma_first_bad_pixel_local(pixels.take(start as int), pixels, start as int);
                lemma_first_bad_pixel_concat(pixels.take(start as int), run, row_len as int);
                lemma_first_bad_pixel_local(
                    pixels.take(start + row_len),
                    pixels,
                    start + row_len,
                );
            }
            match run_text(raw, start, row_len) {
                Ok(text) => {
                    assert(text@ == symbols.subrange(y * width, (y + 1) * width));
                    rows.push(text);
                },
                Err(e) => {
                    proof {
                        lemma_first_bad_pixel_stays(pixels, start + row_len, pixels.len() as int);
                    }
                    return Err(e);
                },
            }
            start = start + row_len;
            y = y + 1;
        }
        assert(start == pixels.len()) by {
            assert(height * width == width * height) by (nonlinear_arith);
        }
        assert(row_texts(rows@) == cut_rows(symbols, width as int, height as int));
        Ok(rows)
    }
}

} // verus!
