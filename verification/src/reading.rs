//! What reading the lines of an image gives, for each way in which the
//! questions about unknown glyphs may be answered.

use crate::area::Area;
use crate::glyph::closest;
use crate::glyph::exact_text;
use crate::glyph::first_exact;
use crate::glyph::proximity;
use crate::glyph::storable;
use crate::glyph::GlyphModel;
use crate::glyph_image::lemma_two_colours_no_bad_pixel;
use crate::glyph_image::visible_pixels;
use crate::ocs::Error;
use crate::pieces::LineModel;
use crate::pieces::PieceModel;
use crate::raster::Bitmap;
use vstd::prelude::*;

verus! {

/// An answer to the question which text a glyph stands for.
pub enum Answer {
    /// No answer: reading is to stop.
    Abort,
    /// The text.
    Char(Seq<char>),
}

/// How far reading has come: the text read, the glyphs known, the number of
/// questions asked, and whether reading was stopped by an answer.
pub struct Reading {
    pub text: Seq<char>,
    pub glyphs: Seq<GlyphModel>,
    pub asked: nat,
    pub stopped: bool,
}

/// A stored glyph that agrees with a piece in `sum` of `total` samples is
/// taken for the piece when that is at least 95 in 100.
pub open spec fn confident(sum: int, total: int) -> bool {
    total > 0 && 20 * sum >= 19 * total
}

/// The text that the known glyphs give for a bitmap without asking: that of
/// the glyph with this very bitmap, or else that of the closest glyph of the
/// same size if it is close enough. A glyph without text gives none.
pub open spec fn cached_text(glyphs: Seq<GlyphModel>, img: Bitmap) -> Option<Seq<char>> {
    match exact_text(glyphs, img) {
        Some(text) => Some(text),
        None => match closest(glyphs, img, glyphs.len() as int) {
            Some(best) => if confident(
                proximity(glyphs[best].img, img) as int,
                img.data.len() as int,
            ) {
                glyphs[best].characters
            } else {
                None
            },
            None => None,
        },
    }
}

/// How far the top of a piece lies below the top of the baseline, and its
/// bottom below the bottom of the baseline; negative above.
pub open spec fn offsets(area: Area, base: (u16, u16)) -> (i16, i16) {
    ((area.y1 - base.0) as i16, (area.y2 - base.1) as i16)
}

/// The glyph that is learned when a piece is said to stand for `text`.
pub open spec fn learned_glyph(piece: PieceModel, base: (u16, u16), text: Seq<char>) -> GlyphModel {
    GlyphModel { img: piece.img->0, orig_y: offsets(piece.area, base), characters: Some(text) }
}

/// Reading one piece. A piece that the known glyphs give a text for adds
/// that text. Any other piece takes the next answer: a text is added and
/// learned as a new glyph, an abort stops reading. Where the answers have
/// run out, reading stops as well.
pub open spec fn read_piece(
    state: Reading,
    piece: PieceModel,
    base: (u16, u16),
    answers: Seq<Answer>,
) -> Reading {
    if state.stopped {
        state
    } else {
        match cached_text(state.glyphs, piece.img->0) {
            Some(text) => Reading { text: state.text + text, ..state },
            None => if state.asked >= answers.len() {
                Reading { stopped: true, asked: state.asked + 1, ..state }
            } else {
                match answers[state.asked as int] {
                    Answer::Abort => Reading { stopped: true, asked: state.asked + 1, ..state },
                    Answer::Char(text) => Reading {
                        text: state.text + text,
                        glyphs: state.glyphs.push(learned_glyph(piece, base, text)),
                        asked: state.asked + 1,
                        stopped: false,
                    },
                }
            },
        }
    }
}

/// Reading the first `n` pieces of a line, from left to right.
pub open spec fn read_pieces(
    state: Reading,
    pieces: Seq<PieceModel>,
    base: (u16, u16),
    answers: Seq<Answer>,
    n: int,
) -> Reading
    decreases n,
{
    if n <= 0 {
        state
    } else {
        read_piece(read_pieces(state, pieces, base, answers, n - 1), pieces[n - 1], base, answers)
    }
}

/// Reading a line: its pieces, then a line feed unless reading was stopped.
pub open spec fn read_line(state: Reading, line: LineModel, answers: Seq<Answer>) -> Reading {
    let end = read_pieces(state, line.pieces, line.base_y->0, answers, line.pieces.len() as int);
    if end.stopped {
        end
    } else {
        Reading { text: end.text.push('\n'), ..end }
    }
}

/// Reading the first `n` lines, from the top.
pub open spec fn read_lines(
    state: Reading,
    lines: Seq<LineModel>,
    answers: Seq<Answer>,
    n: int,
) -> Reading
    decreases n,
{
    if n <= 0 {
        state
    } else {
        read_line(read_lines(state, lines, answers, n - 1), lines[n - 1], answers)
    }
}

/// Where reading starts: no text, the glyphs known so far, nothing asked.
pub open spec fn start(glyphs: Seq<GlyphModel>) -> Reading {
    Reading { text: Seq::empty(), glyphs, asked: 0, stopped: false }
}

/// Reading `lines` with the glyphs `known`, the questions being answered by
/// `answers` in turn and each answer being used, ends with `outcome` and
/// leaves the glyphs `learned`.
pub open spec fn reads_as(
    lines: Seq<LineModel>,
    known: Seq<GlyphModel>,
    answers: Seq<Answer>,
    outcome: Result<Seq<char>, Error>,
    learned: Seq<GlyphModel>,
) -> bool {
    let end = read_lines(start(known), lines, answers, lines.len() as int);
    &&& end.asked == answers.len()
    &&& learned == end.glyphs
    &&& outcome == if end.stopped {
        Err::<Seq<char>, Error>(Error::StopGlyphProcess)
    } else {
        Ok::<Seq<char>, Error>(end.text)
    }
}

/// Reading a piece asks at most one question and forgets no glyph.
pub proof fn lemma_read_piece_grows(
    state: Reading,
    piece: PieceModel,
    base: (u16, u16),
    answers: Seq<Answer>,
)
    ensures
        state.asked <= read_piece(state, piece, base, answers).asked,
        state.glyphs.len() <= read_piece(state, piece, base, answers).glyphs.len(),
        read_piece(state, piece, base, answers).glyphs.take(state.glyphs.len() as int)
            == state.glyphs,
        state.stopped ==> read_piece(state, piece, base, answers) == state,
{
    let next = read_piece(state, piece, base, answers);
    assert(next.glyphs.take(state.glyphs.len() as int) =~= state.glyphs);
}

/// Reading pieces asks questions in turn and forgets no glyph; once stopped
/// it goes no further.
pub proof fn lemma_read_pieces_grows(
    state: Reading,
    pieces: Seq<PieceModel>,
    base: (u16, u16),
    answers: Seq<Answer>,
    n: int,
)
    ensures
        state.asked <= read_pieces(state, pieces, base, answers, n).asked,
        state.glyphs.len() <= read_pieces(state, pieces, base, answers, n).glyphs.len(),
        read_pieces(state, pieces, base, answers, n).glyphs.take(state.glyphs.len() as int)
            == state.glyphs,
        state.stopped ==> read_pieces(state, pieces, base, answers, n) == state,
    decreases n,
{
    if n > 0 {
        lemma_read_pieces_grows(state, pieces, base, answers, n - 1);
        let before = read_pieces(state, pieces, base, answers, n - 1);
        lemma_read_piece_grows(before, pieces[n - 1], base, answers);
        let after = read_pieces(state, pieces, base, answers, n);
        assert(after.glyphs.take(state.glyphs.len() as int) =~= before.glyphs.take(
            state.glyphs.len() as int,
        ));
    } else {
        assert(state.glyphs.take(state.glyphs.len() as int) =~= state.glyphs);
    }
}

/// Reading lines asks questions in turn and forgets no glyph; once stopped
/// it goes no further.
pub proof fn lemma_read_lines_grows(
    state: Reading,
    lines: Seq<LineModel>,
    answers: Seq<Answer>,
    n: int,
)
    ensures
        state.asked <= read_lines(state, lines, answers, n).asked,
        state.glyphs.len() <= read_lines(state, lines, answers, n).glyphs.len(),
        read_lines(state, lines, answers, n).glyphs.take(state.glyphs.len() as int)
            == state.glyphs,
        state.stopped ==> read_lines(state, lines, answers, n) == state,
    decreases n,
{
    if n > 0 {
        lemma_read_lines_grows(state, lines, answers, n - 1);
        let before = read_lines(state, lines, answers, n - 1);
        let line = lines[n - 1];
        lemma_read_pieces_grows(
            before,
            line.pieces,
            line.base_y->0,
            answers,
            line.pieces.len() as int,
        );
        let after = read_lines(state, lines, answers, n);
        assert(after.glyphs.take(state.glyphs.len() as int) =~= before.glyphs.take(
            state.glyphs.len() as int,
        ));
    } else {
        assert(state.glyphs.take(state.glyphs.len() as int) =~= state.glyphs);
    }
}

/// Reading that was stopped within the first `n` pieces ends as it stood
/// there.
pub proof fn lemma_read_pieces_stopped(
    state: Reading,
    pieces: Seq<PieceModel>,
    base: (u16, u16),
    answers: Seq<Answer>,
    n: int,
    m: int,
)
    requires
        0 <= n <= m,
        read_pieces(state, pieces, base, answers, n).stopped,
    ensures
        read_pieces(state, pieces, base, answers, m) == read_pieces(
            state,
            pieces,
            base,
            answers,
            n,
        ),
    decreases m - n,
{
    if n < m {
        lemma_read_pieces_stopped(state, pieces, base, answers, n, m - 1);
    }
}

/// Reading that was stopped within the first `n` lines ends as it stood
/// there.
pub proof fn lemma_read_lines_stopped(
    state: Reading,
    lines: Seq<LineModel>,
    answers: Seq<Answer>,
    n: int,
    m: int,
)
    requires
        0 <= n <= m,
        read_lines(state, lines, answers, n).stopped,
    ensures
        read_lines(state, lines, answers, m) == read_lines(state, lines, answers, n),
    decreases m - n,
{
    if n < m {
        lemma_read_lines_stopped(state, lines, answers, n, m - 1);
        let before = read_lines(state, lines, answers, m - 1);
        let line = lines[m - 1];
        lemma_read_pieces_grows(
            before,
            line.pieces,
            line.base_y->0,
            answers,
            line.pieces.len() as int,
        );
    }
}

/// Reading pieces that used no more answers than were given goes the same
/// way when one more answer is given.
pub proof fn lemma_read_pieces_frame(
    state: Reading,
    pieces: Seq<PieceModel>,
    base: (u16, u16),
    answers: Seq<Answer>,
    extra: Answer,
    n: int,
)
    requires
        read_pieces(state, pieces, base, answers, n).asked <= answers.len(),
    ensures
        read_pieces(state, pieces, base, answers.push(extra), n) == read_pieces(
            state,
            pieces,
            base,
            answers,
            n,
        ),
    decreases n,
{
    if n > 0 {
        let before = read_pieces(state, pieces, base, answers, n - 1);
        lemma_read_piece_grows(before, pieces[n - 1], base, answers);
        lemma_read_pieces_frame(state, pieces, base, answers, extra, n - 1);
        if !before.stopped && before.asked < answers.len() {
            assert(answers.push(extra)[before.asked as int] == answers[before.asked as int]);
        }
    }
}

/// Reading lines that used no more answers than were given goes the same
/// way when one more answer is given.
pub proof fn lemma_read_lines_frame(
    state: Reading,
    lines: Seq<LineModel>,
    answers: Seq<Answer>,
    extra: Answer,
    n: int,
)
    requires
        read_lines(state, lines, answers, n).asked <= answers.len(),
    ensures
        read_lines(state, lines, answers.push(extra), n) == read_lines(state, lines, answers, n),
    decreases n,
{
    if n > 0 {
        let before = read_lines(state, lines, answers, n - 1);
        let line = lines[n - 1];
        lemma_read_pieces_grows(
            before,
            line.pieces,
            line.base_y->0,
            answers,
            line.pieces.len() as int,
        );
        lemma_read_lines_frame(state, lines, answers, extra, n - 1);
        lemma_read_pieces_frame(
            before,
            line.pieces,
            line.base_y->0,
            answers,
            extra,
            line.pieces.len() as int,
        );
    }
}

/// A library without glyphs gives no text for any bitmap.
pub proof fn lemma_empty_library_knows_nothing(img: Bitmap)
    ensures
        cached_text(Seq::empty(), img) is None,
{
}

/// A glyph with the very bitmap of a piece gives its text for the piece
/// whatever other glyphs of the same size there are, if it is the first
/// glyph with that bitmap and has a text.
pub proof fn lemma_exact_glyph_is_taken(glyphs: Seq<GlyphModel>, img: Bitmap, at: int)
    requires
        first_exact(glyphs, img, glyphs.len() as int) == Some(at),
        glyphs[at].characters is Some,
    ensures
        cached_text(glyphs, img) == glyphs[at].characters,
{
}

/// A glyph learned from a piece that has been drawn can be stored and read
/// back: its bitmap has a pixel, its samples cover its pixels exactly, and
/// each is ink or background.
pub proof fn lemma_learned_glyph_storable(piece: PieceModel, base: (u16, u16), text: Seq<char>)
    requires
        piece.wf(),
        piece.img is Some,
    ensures
        storable(learned_glyph(piece, base, text)),
{
    let img = piece.img->0;
    let width = piece.area.x2 - piece.area.x1 + 1;
    let height = piece.area.y2 - piece.area.y1 + 1;
    assert(0 < width * height) by (nonlinear_arith)
        requires
            0 < width,
            0 < height,
    ;
    assert(visible_pixels(img) == img.data);
    lemma_two_colours_no_bad_pixel(img.data, img.data.len() as int);
}

} // verus!
