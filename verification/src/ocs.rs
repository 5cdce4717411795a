//! Cutting a two-colour image into pieces and lines, and reading the lines
//! with the help of a glyph library.

use crate::area::Area;
use crate::connect::has_gray;
use crate::connect::has_ink;
use crate::connect::image_pieces;
use crate::connect::ink_at;
use crate::flood::split_in_pieces;
use crate::glyph::is_ranking;
use crate::glyph::lemma_ranking_head;
use crate::glyph::proximity;
use crate::glyph::str_text;
use crate::glyph::Glyph;
use crate::glyph::GlyphLibrary;
use crate::glyph_image::push_char;
use crate::pieces::all_anchored;
use crate::pieces::all_rendered;
use crate::pieces::anchored;
use crate::pieces::arranged;
use crate::pieces::body_bottom;
use crate::pieces::body_top;
use crate::pieces::bounding_area;
use crate::pieces::bounds;
use crate::pieces::clustered;
use crate::pieces::completed;
use crate::pieces::first_overlapping;
use crate::pieces::grouped;
use crate::pieces::insert_position;
use crate::pieces::lemma_arranged_raw;
use crate::pieces::lemma_body_edges;
use crate::pieces::lemma_bounding_area;
use crate::pieces::lemma_clustered_raw;
use crate::pieces::lemma_completed_finished;
use crate::pieces::lemma_first_overlapping_stays;
use crate::pieces::lemma_grouped_keeps;
use crate::pieces::lemma_hull_covers;
use crate::pieces::lemma_merged_wf;
use crate::pieces::lemma_shown_pixel;
use crate::pieces::lemma_sorted_keeps;
use crate::pieces::lines_of;
use crate::pieces::raw;
use crate::pieces::raw_line;
use crate::pieces::rendering;
use crate::pieces::shown_pixel;
use crate::pieces::sorted_by_left;
use crate::pieces::LineModel;
use crate::pieces::PieceModel;
use crate::raster::Bitmap;
use crate::raster::GrayBitmap;
use crate::raster::BACKGROUND;
use crate::raster::INK;
use crate::reading::cached_text;
use crate::reading::confident;
use crate::reading::learned_glyph;
use crate::reading::lemma_read_lines_frame;
use crate::reading::lemma_read_lines_grows;
use crate::reading::lemma_read_lines_stopped;
use crate::reading::lemma_read_pieces_frame;
use crate::reading::lemma_read_pieces_stopped;
use crate::reading::read_lines;
use crate::reading::read_pieces;
use crate::reading::reads_as;
use crate::reading::start;
use crate::reading::Answer;
use vstd::pervasive::unreached;
use vstd::prelude::*;
use vstd::seq_lib::seq_to_set_distributes_over_add;

verus! {

/// Why an image could not be cut into pieces or read.
#[derive(Debug, Clone, Copy, PartialEq, Eq)]
pub enum Error {
    /// A pixel of the image is neither ink nor background.
    ImageWithGrayIsInvalid,
    /// The image holds no ink.
    NoCharactersFound,
    /// Whoever was asked for the text of a glyph gave up.
    StopGlyphProcess,
}

/// The answer to the question which text a glyph stands for.
#[derive(Debug)]
pub enum GlyphResult {
    /// No answer: reading is to stop.
    Abort,
    /// The text, one character or more.
    Char(String),
}

impl View for GlyphResult {
    type V = Answer;

    open spec fn view(&self) -> Answer {
        match self {
            GlyphResult::Abort => Answer::Abort,
            GlyphResult::Char(text) => Answer::Char(text@),
        }
    }
}

/// Someone who can tell which text a piece stands for.
pub trait GlyphCharAsker {
    /// Asks for the text of `piece`, which has been drawn.
    fn ask_char_for_glyph(&self, piece: &Piece) -> GlyphResult
        requires
            piece@.img is Some,
    ;
}

/// A group of ink pixels of an image, taken as one glyph.
#[derive(Debug)]
pub struct Piece {
    area: Area,
    pixels: Vec<(u32, u32)>,
    img: Option<GrayBitmap>,
}

/// The bitmap that may be there.
pub open spec fn bitmap_of(img: Option<GrayBitmap>) -> Option<Bitmap> {
    match img {
        Some(b) => Some(b@),
        None => None,
    }
}

impl View for Piece {
    type V = PieceModel;

    closed spec fn view(&self) -> PieceModel {
        PieceModel { area: self.area, pixels: self.pixels@.to_set(), img: bitmap_of(self.img) }
    }
}

impl Piece {
    /// The piece made of the given pixels, not drawn yet.
    pub fn new(pixels: Vec<(u32, u32)>) -> (r: Piece)
        requires
            pixels@.len() > 0,
            forall|i: int|
                0 <= i < pixels@.len() ==> (#[trigger] pixels@[i]).0 <= u16::MAX && pixels@[i].1
                    <= u16::MAX,
        ensures
            r@ == (PieceModel {
                area: bounding_area(pixels@.to_set()),
                pixels: pixels@.to_set(),
                img: None,
            }),
            r@.wf(),
    {
        let mut x1: u32 = pixels[0].0;
        let mut y1: u32 = pixels[0].1;
        let mut x2: u32 = pixels[0].0;
        let mut y2: u32 = pixels[0].1;
        let mut i: usize = 1;
        while i < pixels.len()
            invariant
                1 <= i <= pixels@.len(),
                forall|k: int|
                    0 <= k < pixels@.len() ==> (#[trigger] pixels@[k]).0 <= u16::MAX
                        && pixels@[k].1 <= u16::MAX,
                forall|k: int|
                    0 <= k < i ==> x1 <= (#[trigger] pixels@[k]).0 <= x2 && y1 <= pixels@[k].1
                        <= y2,
                exists|k: int| 0 <= k < i && (#[trigger] pixels@[k]).0 == x1,
                exists|k: int| 0 <= k < i && (#[trigger] pixels@[k]).1 == y1,
                exists|k: int| 0 <= k < i && (#[trigger] pixels@[k]).0 == x2,
                exists|k: int| 0 <= k < i && (#[trigger] pixels@[k]).1 == y2,
            decreases pixels@.len() - i,
        {
            let (x, y) = pixels[i];
            if x < x1 {
                x1 = x;
            }
            if x > x2 {
                x2 = x;
            }
            if y < y1 {
                y1 = y;
            }
            if y > y2 {
                y2 = y;
            }
            i = i + 1;
        }
        let area = Area { x1: x1 as u16, y1: y1 as u16, x2: x2 as u16, y2: y2 as u16 };
        proof {
            let set = pixels@.to_set();
            let left = choose|k: int| 0 <= k < i && (#[trigger] pixels@[k]).0 == x1;
            let top = choose|k: int| 0 <= k < i && (#[trigger] pixels@[k]).1 == y1;
            let right = choose|k: int| 0 <= k < i && (#[trigger] pixels@[k]).0 == x2;
            let bottom = choose|k: int| 0 <= k < i && (#[trigger] pixels@[k]).1 == y2;
            assert(set.contains(pixels@[left]));
            assert(set.contains(pixels@[top]));
            assert(set.contains(pixels@[right]));
            assert(set.contains(pixels@[bottom]));
            assert(bounds(area, set));
            lemma_bounding_area(area, set);
        }
        Piece { area, pixels, img: None }
    }

    /// The rectangle around the piece.
    pub fn area(&self) -> (r: Area)
        ensures
            r == self@.area,
    {
        self.area
    }

    /// The bitmap of the piece, which must have been drawn.
    pub fn img(&self) -> (r: &GrayBitmap)
        requires
            self@.img is Some,
        ensures
            Some(r@) == self@.img,
    {
        match &self.img {
            Some(img) => img,
            None => unreached(),
        }
    }

    /// Whether the bitmap of the piece has been drawn.
    pub fn has_img(&self) -> (r: bool)
        ensures
            r == self@.img is Some,
    {
        self.img.is_some()
    }

    /// Draws the bitmap of the piece: as large as its rectangle, with ink at
    /// the piece's pixels and background elsewhere.
    pub fn create_img(&mut self)
        requires
            old(self)@.img is None,
            old(self)@.wf(),
            old(self)@.height() * (old(self)@.area.x2 - old(self)@.area.x1 + 1) <= usize::MAX,
        ensures
            final(self)@ == old(self)@.rendered(),
            final(self)@.wf(),
    {
        let area = self.area;
        let width: u32 = area.width();
        let height: u32 = area.height();
        assert(width * height == height * width) by (nonlinear_arith);
        let row_len: usize = width as usize;
        let total: usize = row_len * (height as usize);
        let mut data: Vec<u8> = vec![BACKGROUND; total];
        let ghost set = self.pixels@.to_set();
        let mut i: usize = 0;
        while i < self.pixels.len()
            invariant
                self.area == area,
                self.pixels == old(self).pixels,
                self.img == old(self).img,
                area.wf(),
                bounds(area, set),
                set == self.pixels@.to_set(),
                width == area.x2 - area.x1 + 1,
                height == area.y2 - area.y1 + 1,
                row_len == width,
                total == width * height,
                data@.len() == total,
                i <= self.pixels@.len(),
                forall|index: int|
                    0 <= index < total ==> #[trigger] data@[index] == if self.pixels@.take(
                        i as int,
                    ).contains(shown_pixel(area, index)) {
                        INK
                    } else {
                        BACKGROUND
                    },
            decreases self.pixels@.len() - i,
        {
            let (x, y) = self.pixels[i];
            assert(set.contains(self.pixels@[i as int]));
            proof {
                lemma_shown_pixel(area, x as int, y as int);
            }
            let column: usize = (x - area.x1 as u32) as usize;
            let row: usize = (y - area.y1 as u32) as usize;
            assert(row * row_len + column < total);
            assert(row * row_len <= row * row_len + column);
            let at: usize = row * row_len + column;
            let ghost before = data@;
            data.set(at, INK);
            assert forall|index: int| 0 <= index < total implies #[trigger] data@[index]
                == if self.pixels@.take(i + 1).contains(shown_pixel(area, index)) {
                INK
            } else {
                BACKGROUND
            } by {
                let shown = shown_pixel(area, index);
                assert(self.pixels@.take(i + 1) == self.pixels@.take(i as int).push((x, y)));
                if self.pixels@.take(i as int).contains(shown) {
                    let k = choose|k: int|
                        0 <= k < i && self.pixels@.take(i as int)[k] == shown;
                    assert(self.pixels@.take(i + 1)[k] == shown);
                } else if shown == (x, y) {
                    assert(self.pixels@.take(i + 1)[i as int] == shown);
                } else {
                    assert(index != at);
                    assert(before[index] == BACKGROUND);
                    let next = self.pixels@.take(i + 1);
                    assert forall|k: int| 0 <= k < i + 1 implies #[trigger] next[k] != shown by {
                        if k < i {
                            assert(self.pixels@.take(i as int)[k] == self.pixels@[k]);
                        }
                    }
                }
            }
            i = i + 1;
        }
        assert(self.pixels@.take(i as int) == self.pixels@);
        let ghost drawn = rendering(area, set);
        assert(data@ =~= drawn.data);
        match GrayBitmap::from_vec(width, height, data) {
            Some(img) => {
                assert(img@ == drawn);
                self.img = Some(img);
            },
            None => {
                assert(false);
            },
        }
    }

    /// Takes the pixels of `other` into this piece. Neither piece may have
    /// been drawn, and their columns must overlap.
    pub fn extend(&mut self, other: Piece)
        requires
            old(self)@.img is None,
            old(self)@.area.spec_intersect_x(other@.area),
        ensures
            final(self)@ == old(self)@.merged(other@),
            old(self)@.wf() && other@.wf() ==> final(self)@.wf(),
    {
        proof {
            if self@.wf() && other@.wf() {
                lemma_merged_wf(self@, other@);
            }
        }
        let mut other = other;
        self.area.extend(other.area);
        let ghost mine = self.pixels@;
        let ghost theirs = other.pixels@;
        self.pixels.append(&mut other.pixels);
        proof {
            seq_to_set_distributes_over_add(mine, theirs);
        }
    }
}

/// What each piece is.
pub open spec fn piece_models(pieces: Seq<Piece>) -> Seq<PieceModel> {
    Seq::new(pieces.len(), |i: int| pieces[i]@)
}

/// The pieces of one line of text.
#[derive(Debug)]
pub struct Line {
    area: Area,
    pieces: Vec<Piece>,
    base_y: Option<(u16, u16)>,
}

impl View for Line {
    type V = LineModel;

    closed spec fn view(&self) -> LineModel {
        LineModel { area: self.area, pieces: piece_models(self.pieces@), base_y: self.base_y }
    }
}

impl Line {
    /// The line that holds `piece` alone.
    pub fn from_piece(piece: Piece) -> (r: Line)
        ensures
            r@ == LineModel::single(piece@),
    {
        let area = piece.area();
        let mut pieces: Vec<Piece> = Vec::new();
        pieces.push(piece);
        assert(piece_models(pieces@) == seq![piece@]);
        Line { area, pieces, base_y: None }
    }

    /// Puts `piece` at the end of the line.
    pub fn extend_with_piece(&mut self, piece: Piece)
        ensures
            final(self)@ == old(self)@.extended(piece@),
    {
        self.area.extend(piece.area());
        self.pieces.push(piece);
        assert(piece_models(self.pieces@) == piece_models(old(self).pieces@).push(piece@));
    }

    /// The rectangle around the line.
    pub fn area(&self) -> (r: Area)
        ensures
            r == self@.area,
    {
        self.area
    }

    /// The pieces of the line.
    pub fn pieces(&self) -> (r: &Vec<Piece>)
        ensures
            piece_models(r@) == self@.pieces,
    {
        &self.pieces
    }

    /// The baseline of the line, top first, once it has been established.
    pub fn base_y(&self) -> (r: Option<(u16, u16)>)
        ensures
            r == self@.base_y,
    {
        self.base_y
    }

    /// Orders the pieces by their left edge. Pieces with the same left edge
    /// keep their order.
    pub fn sort_pieces(&mut self)
        ensures
            final(self)@ == (LineModel {
                pieces: sorted_by_left(old(self)@.pieces, old(self)@.pieces.len() as int),
                ..old(self)@
            }),
    {
        let mut rest: Vec<Piece> = Vec::new();
        std::mem::swap(&mut rest, &mut self.pieces);
        let ghost given = piece_models(rest@);
        let ghost mut done: int = 0;
        assert(piece_models(self.pieces@) == sorted_by_left(given, 0));
        assert(piece_models(rest@) == given.skip(0));
        while rest.len() > 0
            invariant
                self.area == old(self).area,
                self.base_y == old(self).base_y,
                given == old(self)@.pieces,
                0 <= done <= given.len(),
                piece_models(rest@) == given.skip(done),
                piece_models(self.pieces@) == sorted_by_left(given, done),
            decreases rest@.len(),
        {
            let ghost rest_before = piece_models(rest@);
            let ghost rest_pieces = rest@;
            assert(rest_before.len() == given.len() - done);
            let piece = rest.remove(0);
            assert(piece@ == rest_before[0]);
            assert(given.skip(done)[0] == given[done]);
            assert(piece@ == given[done]);
            assert forall|k: int| 0 <= k < rest@.len() implies #[trigger] piece_models(rest@)[k]
                == given.skip(done + 1)[k] by {
                assert(rest@[k] == rest_pieces[k + 1]);
                assert(rest_before[k + 1] == given.skip(done)[k + 1]);
            }
            assert(piece_models(rest@) == given.skip(done + 1));
            let left = piece.area.left();
            let ghost sorted = piece_models(self.pieces@);
            let mut at: usize = self.pieces.len();
            assert(sorted.take(at as int) == sorted);
            while at > 0 && self.pieces[at - 1].area.left() > left
                invariant
                    at <= self.pieces@.len(),
                    sorted == piece_models(self.pieces@),
                    insert_position(sorted, left) == insert_position(sorted.take(at as int), left),
                decreases at,
            {
                assert(sorted.take(at as int).last() == self.pieces@[at - 1]@);
                assert(sorted.take(at as int).drop_last() == sorted.take(at - 1));
                at = at - 1;
            }
            proof {
                if at > 0 {
                    assert(sorted.take(at as int).last() == self.pieces@[at - 1]@);
                }
            }
            self.pieces.insert(at, piece);
            assert(piece_models(self.pieces@) == sorted.insert(at as int, piece@));
            proof {
                done = done + 1;
            }
        }
        assert(given.skip(done).len() == 0);
    }

    /// Joins accents to their letters: a piece whose columns all lie within
    /// those of the piece before it is merged into that piece. No piece of
    /// the line may have been drawn.
    pub fn group_accent(&mut self)
        requires
            forall|i: int|
                0 <= i < old(self)@.pieces.len() ==> (#[trigger] old(self)@.pieces[i]).wf() && old(
                    self,
                )@.pieces[i].img is None,
        ensures
            final(self)@ == (LineModel {
                pieces: grouped(old(self)@.pieces, old(self)@.pieces.len() as int),
                ..old(self)@
            }),
    {
        let mut rest: Vec<Piece> = Vec::new();
        std::mem::swap(&mut rest, &mut self.pieces);
        let ghost given = piece_models(rest@);
        let ghost mut done: int = 0;
        assert(piece_models(self.pieces@) == grouped(given, 0));
        assert(piece_models(rest@) == given.skip(0));
        while rest.len() > 0
            invariant
                self.area == old(self).area,
                self.base_y == old(self).base_y,
                given == old(self)@.pieces,
                forall|i: int|
                    0 <= i < given.len() ==> (#[trigger] given[i]).wf() && given[i].img
                        is None,
                0 <= done <= given.len(),
                piece_models(rest@) == given.skip(done),
                piece_models(self.pieces@) == grouped(given, done),
            decreases rest@.len(),
        {
            let ghost rest_before = piece_models(rest@);
            let ghost joined = piece_models(self.pieces@);
            let ghost rest_pieces = rest@;
            assert(rest_before.len() == given.len() - done);
            let piece = rest.remove(0);
            assert(piece@ == rest_before[0]);
            assert(given.skip(done)[0] == given[done]);
            assert(piece@ == given[done]);
            assert forall|k: int| 0 <= k < rest@.len() implies #[trigger] piece_models(rest@)[k]
                == given.skip(done + 1)[k] by {
                assert(rest@[k] == rest_pieces[k + 1]);
                assert(rest_before[k + 1] == given.skip(done)[k + 1]);
            }
            assert(piece_models(rest@) == given.skip(done + 1));
            proof {
                lemma_grouped_keeps(given, done);
            }
            let count: usize = self.pieces.len();
            if count > 0 && self.pieces[count - 1].area.contains_x(piece.area) {
                assert(joined.last() == self.pieces@[count - 1]@);
                match self.pieces.pop() {
                    Some(last) => {
                        let mut last = last;
                        let ghost last_before = last@;
                        assert(last_before == joined.last());
                        assert(last_before.wf());
                        last.extend(piece);
                        self.pieces.push(last);
                        assert(piece_models(self.pieces@) == joined.update(
                            count - 1,
                            last_before.merged(piece@),
                        ));
                    },
                    None => {
                        assert(false);
                    },
                }
            } else {
                proof {
                    if count > 0 {
                        assert(joined.last() == self.pieces@[count - 1]@);
                    }
                }
                self.pieces.push(piece);
                assert(piece_models(self.pieces@) == joined.push(piece@));
            }
            proof {
                done = done + 1;
            }
        }
        assert(given.skip(done).len() == 0);
    }

    /// Draws the bitmap of each piece of the line. No piece may have been
    /// drawn before.
    pub fn create_images(&mut self)
        requires
            forall|i: int|
                0 <= i < old(self)@.pieces.len() ==> drawable(#[trigger] old(self)@.pieces[i]),
        ensures
            final(self)@ == (LineModel { pieces: all_rendered(old(self)@.pieces), ..old(self)@ }),
    {
        let mut rest: Vec<Piece> = Vec::new();
        std::mem::swap(&mut rest, &mut self.pieces);
        let ghost given = piece_models(rest@);
        let ghost mut done: int = 0;
        assert(piece_models(rest@) == given.skip(0));
        while rest.len() > 0
            invariant
                self.area == old(self).area,
                self.base_y == old(self).base_y,
                given == old(self)@.pieces,
                forall|i: int| 0 <= i < given.len() ==> drawable(#[trigger] given[i]),
                0 <= done <= given.len(),
                piece_models(rest@) == given.skip(done),
                self.pieces@.len() == done,
                forall|k: int|
                    0 <= k < done ==> (#[trigger] self.pieces@[k])@ == given[k].rendered(),
            decreases rest@.len(),
        {
            let ghost rest_before = piece_models(rest@);
            let ghost rest_pieces = rest@;
            assert(rest_before.len() == given.len() - done);
            let mut piece = rest.remove(0);
            assert(piece@ == rest_before[0]);
            assert(given.skip(done)[0] == given[done]);
            assert(piece@ == given[done]);
            assert forall|k: int| 0 <= k < rest@.len() implies #[trigger] piece_models(rest@)[k]
                == given.skip(done + 1)[k] by {
                assert(rest@[k] == rest_pieces[k + 1]);
                assert(rest_before[k + 1] == given.skip(done)[k + 1]);
            }
            assert(piece_models(rest@) == given.skip(done + 1));
            assert(drawable(given[done]));
            piece.create_img();
            self.pieces.push(piece);
            proof {
                done = done + 1;
            }
        }
        assert(piece_models(self.pieces@) == all_rendered(given));
    }

    /// Whether a piece of the line is at least half as high as the line, so
    /// that the line's baseline can be established.
    pub fn has_body_piece(&self) -> (r: bool)
        requires
            self@.wf(),
        ensures
            r == body_top(self@.pieces, self@.height(), self@.pieces.len() as int) is Some,
    {
        proof {
            lemma_hull_covers(self@.pieces, self@.pieces.len() as int);
        }
        let line_height: u32 = self.area.height() / 2;
        let ghost models = self@.pieces;
        let ghost full = self@.height();
        let mut found = false;
        let mut i: usize = 0;
        while i < self.pieces.len()
            invariant
                i <= self.pieces@.len(),
                models == piece_models(self.pieces@),
                forall|k: int| 0 <= k < models.len() ==> (#[trigger] models[k]).wf(),
                line_height == full / 2,
                found == body_top(models, full, i as int) is Some,
            decreases self.pieces@.len() - i,
        {
            assert(models[i as int] == self.pieces@[i as int]@);
            if self.pieces[i].area.height() >= line_height {
                found = true;
            }
            i = i + 1;
        }
        found
    }

    /// Establishes the baseline of the line from its body pieces, those at
    /// least half as high as the line: its top is the top edge that lies
    /// furthest down among them, its bottom the bottom edge that lies
    /// furthest up. The line must have a body piece.
    pub fn establish_x_base(&mut self)
        requires
            old(self)@.wf(),
            body_top(old(self)@.pieces, old(self)@.height(), old(self)@.pieces.len() as int)
                is Some,
        ensures
            final(self)@ == (LineModel {
                base_y: Some(
                    (
                        body_top(
                            old(self)@.pieces,
                            old(self)@.height(),
                            old(self)@.pieces.len() as int,
                        )->0,
                        body_bottom(
                            old(self)@.pieces,
                            old(self)@.height(),
                            old(self)@.pieces.len() as int,
                        )->0,
                    ),
                ),
                ..old(self)@
            }),
            final(self)@.base_y matches Some(base) && old(self)@.area.y1 <= base.0 <= old(
                self,
            )@.area.y2 && old(self)@.area.y1 <= base.1 <= old(self)@.area.y2,
    {
        proof {
            lemma_hull_covers(self@.pieces, self@.pieces.len() as int);
        }
        let line_height: u32 = self.area.height() / 2;
        let ghost models = self@.pieces;
        let ghost full = self@.height();
        let mut top: Option<u16> = None;
        let mut bottom: Option<u16> = None;
        let mut i: usize = 0;
        while i < self.pieces.len()
            invariant
                i <= self.pieces@.len(),
                models == piece_models(self.pieces@),
                forall|k: int| 0 <= k < models.len() ==> (#[trigger] models[k]).wf(),
                line_height == full / 2,
                top == body_top(models, full, i as int),
                bottom == body_bottom(models, full, i as int),
            decreases self.pieces@.len() - i,
        {
            assert(models[i as int] == self.pieces@[i as int]@);
            let area = self.pieces[i].area;
            if area.height() >= line_height {
                top = match top {
                    Some(t) => if t >= area.top() {
                        Some(t)
                    } else {
                        Some(area.top())
                    },
                    None => Some(area.top()),
                };
                bottom = match bottom {
                    Some(b) => if b <= area.bottom() {
                        Some(b)
                    } else {
                        Some(area.bottom())
                    },
                    None => Some(area.bottom()),
                };
            }
            i = i + 1;
        }
        proof {
            lemma_body_edges(models, full, models.len() as int);
        }
        match (top, bottom) {
            (Some(t), Some(b)) => {
                self.base_y = Some((t, b));
            },
            _ => {
                assert(false);
            },
        }
    }
}

/// What each line is.
pub open spec fn line_models(lines: Seq<Line>) -> Seq<LineModel> {
    Seq::new(lines.len(), |i: int| lines[i]@)
}

/// Each line is ready to be read.
pub open spec fn all_finished(lines: Seq<LineModel>) -> bool {
    forall|i: int| 0 <= i < lines.len() ==> (#[trigger] lines[i]).finished()
}

/// The text read, or why reading failed.
pub open spec fn outcome_of(r: Result<String, Error>) -> Result<Seq<char>, Error> {
    match r {
        Ok(text) => Ok(text@),
        Err(e) => Err(e),
    }
}

/// The pieces of an image, line by line from the top, each line from the
/// left.
#[derive(Debug)]
pub struct ImagePieces {
    lines: Vec<Line>,
}

impl View for ImagePieces {
    type V = Seq<LineModel>;

    closed spec fn view(&self) -> Seq<LineModel> {
        line_models(self.lines@)
    }
}

/// Whether a stored glyph that agrees with a piece in `sum` of `total`
/// samples is close enough to be taken for it.
pub fn is_confident(sum: usize, total: usize) -> (r: bool)
    ensures
        r == confident(sum as int, total as int),
{
    let scaled_sum: u128 = 20 * (sum as u128);
    let scaled_total: u128 = 19 * (total as u128);
    total > 0 && scaled_sum >= scaled_total
}

/// The text that the library gives for a bitmap without asking anyone: that
/// of the glyph with this very bitmap, or else that of the closest glyph of
/// the same size if it is close enough.
pub fn known_text<'a>(glyph_lib: &'a GlyphLibrary, img: &GrayBitmap) -> (r: Option<&'a str>)
    ensures
        str_text(r) == cached_text(glyph_lib@, img@),
{
    match glyph_lib.find(img) {
        Some(text) => Some(text),
        None => {
            let proximities = glyph_lib.find_closest(img);
            proof {
                let order = choose|order: Seq<int>|
                    #![auto]
                    is_ranking(glyph_lib@, img@, order, glyph_lib@.len() as int) && order.len()
                        == proximities@.len() && forall|k: int|
                        0 <= k < proximities@.len() ==> proximities@[k].0
                            == proximity(glyph_lib@[order[k]].img, img@)
                            && proximities@[k].1@ == glyph_lib@[order[k]];
                lemma_ranking_head(glyph_lib@, img@, order);
            }
            if proximities.len() == 0 {
                return None;
            }
            let (sum, closest_glyph) = proximities[0];
            let nb_pixels: usize = img.as_raw().len();
            if is_confident(sum, nb_pixels) {
                match closest_glyph.chars() {
                    Some(text) => Some(text.as_str()),
                    None => None,
                }
            } else {
                None
            }
        },
    }
}

/// The offsets of a piece from the baseline of its line fit in sixteen bits.
pub open spec fn offsets_fit(area: Area, base: (u16, u16)) -> bool {
    &&& -0x8000 <= area.y1 - base.0 <= 0x7fff
    &&& -0x8000 <= area.y2 - base.1 <= 0x7fff
}

/// Takes the answer to the question which text `piece` stands for. A text
/// is added to `text` and learned: the library gets a glyph with the
/// piece's bitmap, its offsets from the baseline `base` and the text. An
/// abort changes nothing and is reported.
pub fn learn_glyph(
    glyph_lib: &mut GlyphLibrary,
    text: &mut String,
    piece: &Piece,
    base: (u16, u16),
    answer: GlyphResult,
) -> (r: Result<(), Error>)
    requires
        piece@.img is Some,
        offsets_fit(piece@.area, base),
    ensures
        match answer@ {
            Answer::Abort => r == Err::<(), Error>(Error::StopGlyphProcess) && final(text)@ == old(
                text,
            )@ && final(glyph_lib)@ == old(glyph_lib)@,
            Answer::Char(said) => r is Ok && final(text)@ == old(text)@ + said && final(
                glyph_lib
            )@ == old(glyph_lib)@.push(learned_glyph(piece@, base, said)),
        },
{
    match answer {
        GlyphResult::Abort => Err(Error::StopGlyphProcess),
        GlyphResult::Char(characters) => {
            text.append(characters.as_str());
            let area = piece.area();
            let top: i32 = area.top() as i32 - base.0 as i32;
            let bottom: i32 = area.bottom() as i32 - base.1 as i32;
            let orig_y = (top as i16, bottom as i16);
            glyph_lib.add_glyph(Glyph::new(piece.img().duplicate(), orig_y, Some(characters)));
            Ok(())
        },
    }
}

impl ImagePieces {
    /// Each line is ready to be read.
    #[verifier::type_invariant]
    spec fn ready(self) -> bool {
        all_finished(self@)
    }

    /// The lines of the image, each ready to be read.
    pub fn lines(&self) -> (r: &Vec<Line>)
        ensures
            line_models(r@) == self@,
            all_finished(self@),
    {
        proof {
            use_type_invariant(self);
        }
        &self.lines
    }

    /// The bitmaps of the pieces, line by line.
    pub fn images(&self) -> (r: Vec<Vec<&GrayBitmap>>)
        ensures
            r@.len() == self@.len(),
            forall|i: int|
                0 <= i < r@.len() ==> (#[trigger] r@[i])@.len() == self@[i].pieces.len(),
            forall|i: int, j: int|
                0 <= i < r@.len() && 0 <= j < r@[i]@.len() ==> Some((#[trigger] r@[i]@[j])@)
                    == self@[i].pieces[j].img,
    {
        proof {
            use_type_invariant(self);
        }
        let mut all: Vec<Vec<&GrayBitmap>> = Vec::new();
        let mut i: usize = 0;
        while i < self.lines.len()
            invariant
                all_finished(self@),
                i <= self.lines@.len(),
                all@.len() == i,
                forall|k: int|
                    0 <= k < all@.len() ==> (#[trigger] all@[k])@.len() == self@[k].pieces.len(),
                forall|k: int, j: int|
                    0 <= k < all@.len() && 0 <= j < all@[k]@.len() ==> Some(
                        (#[trigger] all@[k]@[j])@,
                    ) == self@[k].pieces[j].img,
            decreases self.lines@.len() - i,
        {
            let line = &self.lines[i];
            assert(line@ == self@[i as int]);
            assert(self@[i as int].finished());
            let mut row: Vec<&GrayBitmap> = Vec::new();
            let mut j: usize = 0;
            while j < line.pieces.len()
                invariant
                    line@.finished(),
                    j <= line.pieces@.len(),
                    row@.len() == j,
                    forall|k: int|
                        0 <= k < row@.len() ==> Some((#[trigger] row@[k])@) == line@.pieces[k].img,
                decreases line.pieces@.len() - j,
            {
                assert(line@.pieces[j as int] == line.pieces@[j as int]@);
                assert(line@.pieces[j as int].img is Some);
                row.push(line.pieces[j].img());
                j = j + 1;
            }
            all.push(row);
            i = i + 1;
        }
        all
    }

    /// Reads the text of the image. Each piece is looked up in the library:
    /// the glyph with its very bitmap, or else the closest glyph of its
    /// size if that is close enough, gives its text. For any other piece
    /// `asker` is asked; its text is added and learned as a new glyph, its
    /// abort ends reading with an error. Each line ends with a line feed.
    /// Glyphs learned before an abort stay learned.
    pub fn process_to_text<A: GlyphCharAsker>(
        &self,
        glyph_lib: &mut GlyphLibrary,
        asker: &A,
    ) -> (r: Result<String, Error>)
        ensures
            exists|answers: Seq<Answer>|
                reads_as(self@, old(glyph_lib)@, answers, outcome_of(r), final(glyph_lib)@),
            old(glyph_lib)@.len() <= final(glyph_lib)@.len(),
            final(glyph_lib)@.take(old(glyph_lib)@.len() as int) == old(glyph_lib)@,
    {
        proof {
            use_type_invariant(self);
        }
        let mut text = String::new();
        let ghost init = start(glyph_lib@);
        let ghost lines = self@;
        let ghost mut answers: Seq<Answer> = Seq::empty();
        let mut i: usize = 0;
        while i < self.lines.len()
            invariant
                all_finished(lines),
                lines == self@,
                init == start(old(glyph_lib)@),
                i <= self.lines@.len(),
                !read_lines(init, lines, answers, i as int).stopped,
                read_lines(init, lines, answers, i as int).asked == answers.len(),
                read_lines(init, lines, answers, i as int).text == text@,
                read_lines(init, lines, answers, i as int).glyphs == glyph_lib@,
            decreases self.lines@.len() - i,
        {
            let line = &self.lines[i];
            assert(line@ == lines[i as int]);
            assert(lines[i as int].finished());
            let base = match line.base_y {
                Some(base) => base,
                None => unreached(),
            };
            let ghost line_start = read_lines(init, lines, answers, i as int);
            let ghost models = line@.pieces;
            proof {
                lemma_hull_covers(models, models.len() as int);
            }
            let mut j: usize = 0;
            while j < line.pieces.len()
                invariant
                    all_finished(lines),
                    lines == self@,
                    init == start(old(glyph_lib)@),
                    i < self.lines@.len(),
                    line@ == lines[i as int],
                    line@.finished(),
                    models == line@.pieces,
                    models == piece_models(line.pieces@),
                    Some(base) == line@.base_y,
                    forall|k: int|
                        0 <= k < models.len() ==> line@.area.y1 <= (#[trigger] models[k]).area.y1
                            && models[k].area.y2 <= line@.area.y2,
                    j <= line.pieces@.len(),
                    read_lines(init, lines, answers, i as int) == line_start,
                    line_start.asked <= answers.len(),
                    !read_pieces(line_start, models, base, answers, j as int).stopped,
                    read_pieces(line_start, models, base, answers, j as int).asked
                        == answers.len(),
                    read_pieces(line_start, models, base, answers, j as int).text == text@,
                    read_pieces(line_start, models, base, answers, j as int).glyphs
                        == glyph_lib@,
                decreases line.pieces@.len() - j,
            {
                let piece = &line.pieces[j];
                assert(models[j as int] == piece@);
                assert(models[j as int].wf());
                assert(models[j as int].img is Some);
                let ghost before = read_pieces(line_start, models, base, answers, j as int);
                match known_text(glyph_lib, piece.img()) {
                    Some(known) => {
                        text.append(known);
                    },
                    None => {
                        let answer = asker.ask_char_for_glyph(piece);
                        let ghost earlier = answers;
                        proof {
                            answers = earlier.push(answer@);
                            lemma_read_lines_frame(init, lines, earlier, answer@, i as int);
                            lemma_read_pieces_frame(
                                line_start,
                                models,
                                base,
                                earlier,
                                answer@,
                                j as int,
                            );
                        }
                        match learn_glyph(glyph_lib, &mut text, piece, base, answer) {
                            Ok(_) => {},
                            Err(e) => {
                                proof {
                                    let count = models.len() as int;
                                    lemma_read_pieces_stopped(
                                        line_start,
                                        models,
                                        base,
                                        answers,
                                        j + 1,
                                        count,
                                    );
                                    lemma_read_lines_stopped(
                                        init,
                                        lines,
                                        answers,
                                        i + 1,
                                        lines.len() as int,
                                    );
                                    lemma_read_lines_grows(
                                        init,
                                        lines,
                                        answers,
                                        lines.len() as int,
                                    );
                                    assert(reads_as(
                                        lines,
                                        old(glyph_lib)@,
                                        answers,
                                        outcome_of(Err(e)),
                                        glyph_lib@,
                                    ));
                                }
                                return Err(e);
                            },
                        }
                    },
                }
                j = j + 1;
            }
            push_char(&mut text, '\n');
            i = i + 1;
        }
        proof {
            lemma_read_lines_grows(init, lines, answers, lines.len() as int);
            assert(reads_as(lines, old(glyph_lib)@, answers, outcome_of(Ok(text)), glyph_lib@));
        }
        Ok(text)
    }
}

/// The piece can be drawn: it is well formed, not drawn yet, and its bitmap
/// has no more samples than a vector can hold.
pub open spec fn drawable(piece: PieceModel) -> bool {
    &&& piece.wf()
    &&& piece.img is None
    &&& piece.height() * (piece.area.x2 - piece.area.x1 + 1) <= usize::MAX
}

/// The image is small enough to be cut: the columns of a piece fit in
/// sixteen bits, and so does the offset of a piece from a baseline.
pub open spec fn fits(img: Bitmap) -> bool {
    img.width <= 0x10000 && img.height <= 0x8000
}

/// The lines of an image: its pieces, in the order of their discovery,
/// formed into lines, each line ordered from the left with accents joined,
/// its baseline established and its pieces drawn.
pub open spec fn segmentation(img: Bitmap) -> Seq<LineModel> {
    lines_of(image_pieces(img, img.height))
}

/// The image can be cut without a failure that has no error of its own: it
/// is small enough, and each of its lines, if it has lines, has a piece to
/// anchor the baseline.
pub open spec fn splittable(img: Bitmap) -> bool {
    fits(img) && (!has_gray(img) && has_ink(img) ==> all_anchored(
        image_pieces(img, img.height),
    ))
}

/// What cutting an image gives: an error for an image with a pixel that is
/// neither ink nor background, another for an image without ink, and else
/// the lines of the image, ready to be read.
pub open spec fn split_result(img: Bitmap, found: Result<ImagePieces, Error>) -> bool {
    &&& has_gray(img) ==> (found matches Err(Error::ImageWithGrayIsInvalid))
    &&& !has_gray(img) && !has_ink(img) ==> (found matches Err(Error::NoCharactersFound))
    &&& !has_gray(img) && has_ink(img) ==> (found matches Ok(lines) && lines@ == segmentation(img)
        && all_finished(lines@))
}

/// A piece within an image can be drawn.
pub proof fn lemma_raw_drawable(piece: PieceModel, width: int, height: int)
    requires
        raw(piece, width, height),
        width * height <= usize::MAX,
    ensures
        drawable(piece),
{
    let w = piece.area.x2 - piece.area.x1 + 1;
    let h = piece.height();
    assert(h * w <= width * height) by (nonlinear_arith)
        requires
            0 < w <= width,
            0 < h <= height,
    ;
}

/// Cuts an image of ink on background into lines of pieces.
#[derive(Debug)]
pub struct ImageCharacterSplitter {
    img: GrayBitmap,
}

impl View for ImageCharacterSplitter {
    type V = Bitmap;

    closed spec fn view(&self) -> Bitmap {
        self.img@
    }
}

impl ImageCharacterSplitter {
    /// A splitter for a copy of `image`.
    pub fn from_image(image: &GrayBitmap) -> (r: ImageCharacterSplitter)
        ensures
            r@ == image@,
    {
        ImageCharacterSplitter { img: image.duplicate() }
    }

    /// Cuts the image into lines of pieces. The image must be one that
    /// `try_split_in_character_img` can cut.
    pub fn split_in_character_img(self) -> (r: Result<ImagePieces, Error>)
        requires
            splittable(self@),
        ensures
            split_result(self@, r),
    {
        match self.try_split_in_character_img() {
            Some(found) => found,
            None => unreached(),
        }
    }

    /// Cuts the image into lines of pieces: finds the connected groups of
    /// ink pixels, forms them into lines, orders each line from the left,
    /// joins accents to their letters, establishes the baselines and draws
    /// the pieces. Gives nothing for an image that is too large, or that
    /// has a line without a piece to anchor its baseline.
    pub fn try_split_in_character_img(self) -> (r: Option<Result<ImagePieces, Error>>)
        ensures
            r is Some <==> splittable(self@),
            r matches Some(found) ==> split_result(self@, found),
    {
        let ghost img = self@;
        let (width, height) = self.img.dimensions();
        let limit: usize = self.img.as_raw().len();
        if width > 0x10000 || height > 0x8000 {
            return None;
        }
        let pieces = match split_in_pieces(self.img) {
            Ok(pieces) => pieces,
            Err(e) => {
                return Some(Err(e));
            },
        };
        if pieces.len() == 0 {
            return Some(Err(Error::NoCharactersFound));
        }
        let ghost found = piece_models(pieces@);
        let ghost formed = clustered(found, found.len() as int);
        proof {
            assert forall|k: int| 0 <= k < found.len() implies raw(
                #[trigger] found[k],
                width as int,
                height as int,
            ) by {
                let piece = pieces@[k]@;
                assert(found[k] == piece);
                let right = choose|p: (u32, u32)| #[trigger]
                    piece.pixels.contains(p) && p.0 == piece.area.x2;
                assert(ink_at(img, right));
                let bottom = choose|p: (u32, u32)| #[trigger]
                    piece.pixels.contains(p) && p.1 == piece.area.y2;
                assert(ink_at(img, bottom));
            }
            lemma_clustered_raw(found, found.len() as int, width as int, height as int);
        }
        let mut lines = Self::organize_pieces_in_lines(pieces);
        let mut i: usize = 0;
        while i < lines.len()
            invariant
                img == self@,
                img.wf(),
                width == img.width,
                height == img.height,
                height <= 0x8000,
                width * height <= usize::MAX,
                !has_gray(img),
                has_ink(img),
                found == image_pieces(img, img.height),
                formed == clustered(found, found.len() as int),
                lines@.len() == formed.len(),
                i <= lines@.len(),
                forall|k: int|
                    0 <= k < formed.len() ==> raw_line(
                        #[trigger] formed[k],
                        width as int,
                        height as int,
                    ),
                forall|k: int|
                    0 <= k < i ==> (#[trigger] lines@[k])@ == completed(formed[k]) && anchored(
                        formed[k],
                    ),
                forall|k: int| i <= k < lines@.len() ==> (#[trigger] lines@[k])@ == formed[k],
            decreases lines@.len() - i,
        {
            let ghost all = lines@;
            let line = lines.remove(i);
            assert(line@ == formed[i as int]);
            assert(raw_line(formed[i as int], width as int, height as int));
            let line = match Self::complete_line(line, Ghost(width as int), Ghost(height as int)) {
                Some(line) => line,
                None => {
                    assert(!anchored(formed[i as int]));
                    assert(!all_anchored(found));
                    return None;
                },
            };
            lines.insert(i, line);
            assert forall|k: int| 0 <= k < lines@.len() && k != i implies #[trigger] lines@[k]
                == all[k] by {}
            i = i + 1;
        }
        proof {
            assert forall|k: int| 0 <= k < formed.len() implies anchored(#[trigger] formed[k]) by {
                assert(lines@[k]@ == completed(formed[k]));
            }
            assert(all_anchored(found));
            assert forall|k: int| 0 <= k < lines@.len() implies #[trigger] line_models(lines@)[k]
                == completed(formed[k]) by {
                assert(lines@[k]@ == completed(formed[k]));
            }
            assert(line_models(lines@) == segmentation(img));
            assert forall|k: int| 0 <= k < lines@.len() implies (#[trigger] line_models(
                lines@,
            )[k]).finished() by {
                lemma_completed_finished(formed[k], width as int, height as int);
            }
        }
        Some(Ok(ImagePieces { lines }))
    }

    /// Makes a line of raw pieces ready to be read: orders its pieces from
    /// the left, joins accents to their letters, establishes the baseline
    /// and draws the pieces. Gives nothing for a line without a piece to
    /// anchor the baseline.
    fn complete_line(line: Line, Ghost(width): Ghost<int>, Ghost(height): Ghost<int>) -> (r: Option<
        Line,
    >)
        requires
            raw_line(line@, width, height),
            0 <= width * height <= usize::MAX,
        ensures
            r is Some <==> anchored(line@),
            r matches Some(done) ==> done@ == completed(line@),
    {
        let ghost first = line@;
        let mut line = line;
        line.sort_pieces();
        proof {
            let n = first.pieces.len() as int;
            lemma_sorted_keeps(first.pieces, n);
            let sorted = sorted_by_left(first.pieces, n);
            assert forall|j: int| 0 <= j < sorted.len() implies (#[trigger] sorted[j]).wf()
                && sorted[j].img is None by {
                let at = choose|at: int| 0 <= at < n && sorted[j] == first.pieces[at];
                assert(raw(first.pieces[at], width, height));
            }
        }
        line.group_accent();
        proof {
            lemma_arranged_raw(first.pieces, width, height);
            assert(line@.pieces == arranged(first.pieces));
            assert forall|j: int| 0 <= j < line@.pieces.len() implies (
            #[trigger] line@.pieces[j]).wf() && drawable(line@.pieces[j]) by {
                assert(raw(arranged(first.pieces)[j], width, height));
                lemma_raw_drawable(line@.pieces[j], width, height);
            }
        }
        if !line.has_body_piece() {
            return None;
        }
        line.establish_x_base();
        line.create_images();
        Some(line)
    }

    /// Forms the pieces into lines: each piece, in its turn, goes to the
    /// end of the first line whose rows overlap its own, or else into a new
    /// line.
    fn organize_pieces_in_lines(pieces: Vec<Piece>) -> (r: Vec<Line>)
        ensures
            line_models(r@) == clustered(piece_models(pieces@), pieces@.len() as int),
    {
        let ghost given = piece_models(pieces@);
        let mut rest = pieces;
        let mut lines: Vec<Line> = Vec::new();
        let ghost mut done: int = 0;
        assert(line_models(lines@) == clustered(given, 0));
        assert(piece_models(rest@) == given.skip(0));
        while rest.len() > 0
            invariant
                0 <= done <= given.len(),
                piece_models(rest@) == given.skip(done),
                line_models(lines@) == clustered(given, done),
            decreases rest@.len(),
        {
            let ghost rest_before = piece_models(rest@);
            let ghost rest_pieces = rest@;
            assert(rest_before.len() == given.len() - done);
            let piece = rest.remove(0);
            assert(piece@ == rest_before[0]);
            assert(given.skip(done)[0] == given[done]);
            assert(piece@ == given[done]);
            assert forall|k: int| 0 <= k < rest@.len() implies #[trigger] piece_models(rest@)[k]
                == given.skip(done + 1)[k] by {
                assert(rest@[k] == rest_pieces[k + 1]);
                assert(rest_before[k + 1] == given.skip(done)[k + 1]);
            }
            assert(piece_models(rest@) == given.skip(done + 1));
            let ghost formed = line_models(lines@);
            let area = piece.area;
            let mut at: usize = 0;
            while at < lines.len() && !lines[at].area.intersect_y(area)
                invariant
                    at <= lines@.len(),
                    formed == line_models(lines@),
                    first_overlapping(formed, area, at as int) is None,
                decreases lines@.len() - at,
            {
                assert(formed[at as int] == lines@[at as int]@);
                at = at + 1;
            }
            if at < lines.len() {
                proof {
                    assert(formed[at as int] == lines@[at as int]@);
                    lemma_first_overlapping_stays(formed, area, at + 1, formed.len() as int);
                }
                let mut line = lines.remove(at);
                let ghost line_before = line@;
                line.extend_with_piece(piece);
                lines.insert(at, line);
                assert(line_models(lines@) == formed.update(
                    at as int,
                    line_before.extended(piece@),
                ));
            } else {
                lines.push(Line::from_piece(piece));
                assert(line_models(lines@) == formed.push(LineModel::single(piece@)));
            }
            proof {
                done = done + 1;
            }
        }
        assert(given.skip(done).len() == 0);
        lines
    }
}

/// Cutting an image has one outcome and no other: the same error, or the
/// same lines with the same pieces in the same order.
pub proof fn lemma_split_deterministic(
    img: Bitmap,
    first: Result<ImagePieces, Error>,
    second: Result<ImagePieces, Error>,
)
    requires
        split_result(img, first),
        split_result(img, second),
    ensures
        match (first, second) {
            (Ok(a), Ok(b)) => a@ == b@,
            (Err(e), Err(f)) => e == f,
            _ => false,
        },
{
}

} // verus!
