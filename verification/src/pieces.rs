//! What pieces and lines are, and how the pieces of an image become lines.

use crate::area::Area;
use crate::raster::Bitmap;
use crate::raster::BACKGROUND;
use crate::raster::INK;
use vstd::arithmetic::div_mod::lemma_fundamental_div_mod;
use vstd::arithmetic::div_mod::lemma_fundamental_div_mod_converse;
use vstd::prelude::*;

verus! {

/// What a piece is: the pixels it is made of, the rectangle around them, and
/// its bitmap once that has been drawn.
pub struct PieceModel {
    pub area: Area,
    pub pixels: Set<(u32, u32)>,
    pub img: Option<Bitmap>,
}

/// What a line is: its pieces in reading order, the rectangle around them,
/// and its baseline once that has been established, top first.
pub struct LineModel {
    pub area: Area,
    pub pieces: Seq<PieceModel>,
    pub base_y: Option<(u16, u16)>,
}

/// `area` is the smallest rectangle that holds all of `pixels`: it holds
/// each, and each of its four edges is reached by one.
pub open spec fn bounds(area: Area, pixels: Set<(u32, u32)>) -> bool {
    &&& forall|p: (u32, u32)| #[trigger] pixels.contains(p) ==> area.holds(p.0 as int, p.1 as int)
    &&& exists|p: (u32, u32)| #[trigger] pixels.contains(p) && p.0 == area.x1
    &&& exists|p: (u32, u32)| #[trigger] pixels.contains(p) && p.1 == area.y1
    &&& exists|p: (u32, u32)| #[trigger] pixels.contains(p) && p.0 == area.x2
    &&& exists|p: (u32, u32)| #[trigger] pixels.contains(p) && p.1 == area.y2
}

/// The smallest rectangle that holds all of `pixels`.
pub open spec fn bounding_area(pixels: Set<(u32, u32)>) -> Area {
    choose|area: Area| bounds(area, pixels)
}

/// The pixel of a rectangle that the sample at `index` of its bitmap shows:
/// the samples stand for the pixels row after row.
pub open spec fn shown_pixel(area: Area, index: int) -> (u32, u32) {
    let width = area.x2 - area.x1 + 1;
    ((area.x1 + index % width) as u32, (area.y1 + index / width) as u32)
}

/// The bitmap of a piece: as large as the rectangle, with ink where the
/// rectangle's pixel is one of `pixels` and background elsewhere.
pub open spec fn rendering(area: Area, pixels: Set<(u32, u32)>) -> Bitmap {
    let width = area.x2 - area.x1 + 1;
    let height = area.y2 - area.y1 + 1;
    Bitmap {
        width,
        height,
        data: Seq::new(
            (width * height) as nat,
            |i: int|
                if pixels.contains(shown_pixel(area, i)) {
                    INK
                } else {
                    BACKGROUND
                },
        ),
    }
}

impl PieceModel {
    /// The rectangle is the smallest around the pixels, and the bitmap, if
    /// drawn, shows them.
    pub open spec fn wf(self) -> bool {
        &&& self.area.wf()
        &&& bounds(self.area, self.pixels)
        &&& (self.img matches Some(b) ==> b == rendering(self.area, self.pixels))
    }

    /// The piece made of the pixels of both, not drawn yet.
    pub open spec fn merged(self, other: PieceModel) -> PieceModel {
        PieceModel {
            area: self.area.union(other.area),
            pixels: self.pixels.union(other.pixels),
            img: None,
        }
    }

    /// The piece with its bitmap drawn.
    pub open spec fn rendered(self) -> PieceModel {
        PieceModel { img: Some(rendering(self.area, self.pixels)), ..self }
    }

    /// The number of rows of the piece's rectangle.
    pub open spec fn height(self) -> int {
        self.area.y2 - self.area.y1 + 1
    }
}

impl LineModel {
    /// The line that holds one piece.
    pub open spec fn single(piece: PieceModel) -> LineModel {
        LineModel { area: piece.area, pieces: seq![piece], base_y: None }
    }

    /// The line with one more piece at its end.
    pub open spec fn extended(self, piece: PieceModel) -> LineModel {
        LineModel {
            area: self.area.union(piece.area),
            pieces: self.pieces.push(piece),
            base_y: self.base_y,
        }
    }

    /// The number of rows of the line's rectangle.
    pub open spec fn height(self) -> int {
        self.area.y2 - self.area.y1 + 1
    }

    /// The line has a piece, each piece is well formed, and the line's
    /// rectangle is the smallest that covers the rectangles of its pieces.
    pub open spec fn wf(self) -> bool {
        &&& self.pieces.len() > 0
        &&& forall|i: int| 0 <= i < self.pieces.len() ==> (#[trigger] self.pieces[i]).wf()
        &&& self.area == hull(self.pieces, self.pieces.len() as int)
    }

    /// The line is ready to be read: its baseline lies within its rows, each
    /// piece is drawn, and the line is low enough for the offset of a piece
    /// from the baseline to fit in sixteen bits.
    pub open spec fn finished(self) -> bool {
        &&& self.wf()
        &&& self.height() <= 0x8000
        &&& self.base_y matches Some(base) && self.area.y1 <= base.0 <= self.area.y2
            && self.area.y1 <= base.1 <= self.area.y2
        &&& forall|i: int| 0 <= i < self.pieces.len() ==> (#[trigger] self.pieces[i]).img is Some
    }
}

/// The smallest rectangle that covers the rectangles of the first `n`
/// pieces, of which there is at least one.
pub open spec fn hull(pieces: Seq<PieceModel>, n: int) -> Area
    decreases n,
{
    if n <= 1 {
        pieces[0].area
    } else {
        hull(pieces, n - 1).union(pieces[n - 1].area)
    }
}

/// The position of the first of the first `n` lines whose rows overlap those
/// of `area`, if there is one.
pub open spec fn first_overlapping(lines: Seq<LineModel>, area: Area, n: int) -> Option<int>
    decreases n,
{
    if n <= 0 {
        None
    } else {
        match first_overlapping(lines, area, n - 1) {
            Some(i) => Some(i),
            None => if lines[n - 1].area.spec_intersect_y(area) {
                Some(n - 1)
            } else {
                None
            },
        }
    }
}

/// The lines after one more piece was placed: at the end of the first line
/// whose rows overlap the piece's, or else in a new line of its own.
pub open spec fn placed(lines: Seq<LineModel>, piece: PieceModel) -> Seq<LineModel> {
    match first_overlapping(lines, piece.area, lines.len() as int) {
        Some(i) => lines.update(i, lines[i].extended(piece)),
        None => lines.push(LineModel::single(piece)),
    }
}

/// The lines that the first `n` pieces form when placed one after the other.
pub open spec fn clustered(pieces: Seq<PieceModel>, n: int) -> Seq<LineModel>
    decreases n,
{
    if n <= 0 {
        Seq::empty()
    } else {
        placed(clustered(pieces, n - 1), pieces[n - 1])
    }
}

/// Where a piece with the given left edge goes among `pieces`: behind the
/// last piece whose left edge is not further right.
pub open spec fn insert_position(pieces: Seq<PieceModel>, left: u16) -> int
    decreases pieces.len(),
{
    if pieces.len() == 0 {
        0
    } else if pieces.last().area.x1 <= left {
        pieces.len() as int
    } else {
        insert_position(pieces.drop_last(), left)
    }
}

/// The first `n` pieces ordered by their left edge; pieces with the same
/// left edge keep their order.
pub open spec fn sorted_by_left(pieces: Seq<PieceModel>, n: int) -> Seq<PieceModel>
    decreases n,
{
    if n <= 0 {
        Seq::empty()
    } else {
        let before = sorted_by_left(pieces, n - 1);
        before.insert(insert_position(before, pieces[n - 1].area.x1), pieces[n - 1])
    }
}

/// The first `n` pieces with accents joined to their letters: a piece whose
/// columns all lie within those of the piece before it is merged into that
/// piece.
pub open spec fn grouped(pieces: Seq<PieceModel>, n: int) -> Seq<PieceModel>
    decreases n,
{
    if n <= 0 {
        Seq::empty()
    } else {
        let before = grouped(pieces, n - 1);
        if before.len() > 0 && before.last().area.spec_contains_x(pieces[n - 1].area) {
            before.update(before.len() - 1, before.last().merged(pieces[n - 1]))
        } else {
            before.push(pieces[n - 1])
        }
    }
}

/// A piece counts for the baseline when it is at least half as high as the
/// line, which rules out marks such as apostrophes.
pub open spec fn is_body(piece: PieceModel, line_height: int) -> bool {
    piece.height() >= line_height / 2
}

/// The top edge that lies furthest down among the body pieces of the first
/// `n`, if there is a body piece.
pub open spec fn body_top(pieces: Seq<PieceModel>, line_height: int, n: int) -> Option<u16>
    decreases n,
{
    if n <= 0 {
        None
    } else {
        let before = body_top(pieces, line_height, n - 1);
        if !is_body(pieces[n - 1], line_height) {
            before
        } else {
            match before {
                Some(top) if top >= pieces[n - 1].area.y1 => Some(top),
                _ => Some(pieces[n - 1].area.y1),
            }
        }
    }
}

/// The bottom edge that lies furthest up among the body pieces of the first
/// `n`, if there is a body piece.
pub open spec fn body_bottom(pieces: Seq<PieceModel>, line_height: int, n: int) -> Option<u16>
    decreases n,
{
    if n <= 0 {
        None
    } else {
        let before = body_bottom(pieces, line_height, n - 1);
        if !is_body(pieces[n - 1], line_height) {
            before
        } else {
            match before {
                Some(bottom) if bottom <= pieces[n - 1].area.y2 => Some(bottom),
                _ => Some(pieces[n - 1].area.y2),
            }
        }
    }
}

/// Each of the pieces drawn.
pub open spec fn all_rendered(pieces: Seq<PieceModel>) -> Seq<PieceModel> {
    Seq::new(pieces.len(), |i: int| pieces[i].rendered())
}

/// The pieces of a line in reading order, with accents joined.
pub open spec fn arranged(pieces: Seq<PieceModel>) -> Seq<PieceModel> {
    let sorted = sorted_by_left(pieces, pieces.len() as int);
    grouped(sorted, sorted.len() as int)
}

/// The line has a piece that is at least half as high as the line.
pub open spec fn anchored(line: LineModel) -> bool {
    let pieces = arranged(line.pieces);
    body_top(pieces, line.height(), pieces.len() as int) is Some
}

/// A clustered line made ready to be read: its pieces ordered, accents
/// joined, the baseline established and each piece drawn.
pub open spec fn completed(line: LineModel) -> LineModel {
    let pieces = arranged(line.pieces);
    LineModel {
        area: line.area,
        pieces: all_rendered(pieces),
        base_y: Some(
            (
                body_top(pieces, line.height(), pieces.len() as int)->0,
                body_bottom(pieces, line.height(), pieces.len() as int)->0,
            ),
        ),
    }
}

/// The lines of an image whose pieces, in the order of their discovery, are
/// `pieces`.
pub open spec fn lines_of(pieces: Seq<PieceModel>) -> Seq<LineModel> {
    let lines = clustered(pieces, pieces.len() as int);
    Seq::new(lines.len(), |i: int| completed(lines[i]))
}

/// Each line that the pieces form has a piece to anchor its baseline.
pub open spec fn all_anchored(pieces: Seq<PieceModel>) -> bool {
    let lines = clustered(pieces, pieces.len() as int);
    forall|i: int| 0 <= i < lines.len() ==> anchored(#[trigger] lines[i])
}

/// The samples of a piece's bitmap stand for the pixels of its rectangle,
/// row after row, each pixel once.
pub proof fn lemma_shown_pixel(area: Area, x: int, y: int)
    requires
        area.wf(),
        area.holds(x, y),
    ensures
        0 <= (y - area.y1) * (area.x2 - area.x1 + 1) + (x - area.x1) < (area.x2 - area.x1 + 1) * (
        area.y2 - area.y1 + 1),
        shown_pixel(area, (y - area.y1) * (area.x2 - area.x1 + 1) + (x - area.x1)) == (
            x as u32,
            y as u32,
        ),
        forall|index: int|
            0 <= index < (area.x2 - area.x1 + 1) * (area.y2 - area.y1 + 1) && shown_pixel(
                area,
                index,
            ) == (x as u32, y as u32) ==> index == (y - area.y1) * (area.x2 - area.x1 + 1) + (x
                - area.x1),
{
    let width = area.x2 - area.x1 + 1;
    let height = area.y2 - area.y1 + 1;
    let row = y - area.y1;
    let column = x - area.x1;
    assert(0 <= row * width + column < width * height) by (nonlinear_arith)
        requires
            0 <= row < height,
            0 <= column < width,
    ;
    lemma_fundamental_div_mod_converse(row * width + column, width, row, column);
    assert forall|index: int|
        0 <= index < width * height && shown_pixel(area, index) == (
            x as u32,
            y as u32,
        ) implies index == row * width + column by {
        lemma_fundamental_div_mod(index, width);
        lemma_index_within(index, width, height);
        assert(width * (index / width) == (index / width) * width) by (nonlinear_arith);
    }
}

/// An index below `width * height` names a column below `width` and a row
/// below `height`.
pub proof fn lemma_index_within(index: int, width: int, height: int)
    requires
        0 < width,
        0 <= index < width * height,
    ensures
        0 <= index % width < width,
        0 <= index / width < height,
{
    lemma_fundamental_div_mod(index, width);
    let q = index / width;
    let r = index % width;
    assert(0 <= r < width);
    assert(q >= 0) by (nonlinear_arith)
        requires
            index == width * q + r,
            0 <= index,
            0 <= r < width,
            0 < width,
    ;
    assert(q < height) by (nonlinear_arith)
        requires
            index == width * q + r,
            index < width * height,
            0 <= r < width,
            0 < width,
    ;
}

/// A set of pixels has one smallest rectangle around it and no other.
pub proof fn lemma_bounds_unique(a: Area, b: Area, pixels: Set<(u32, u32)>)
    requires
        bounds(a, pixels),
        bounds(b, pixels),
    ensures
        a == b,
{
}

/// The smallest rectangle around a set of pixels is the one that bounds it.
pub proof fn lemma_bounding_area(area: Area, pixels: Set<(u32, u32)>)
    requires
        bounds(area, pixels),
    ensures
        bounding_area(pixels) == area,
{
    lemma_bounds_unique(area, bounding_area(pixels), pixels);
}

/// The smallest rectangle around the pixels of two pieces is the union of
/// the rectangles around each.
pub proof fn lemma_bounds_union(a: Area, p: Set<(u32, u32)>, b: Area, q: Set<(u32, u32)>)
    requires
        bounds(a, p),
        bounds(b, q),
    ensures
        bounds(a.union(b), p.union(q)),
{
    let u = a.union(b);
    let all = p.union(q);
    let from_left = if a.x1 <= b.x1 {
        p
    } else {
        q
    };
    let left = choose|e: (u32, u32)| #[trigger] from_left.contains(e) && e.0 == u.x1;
    assert(all.contains(left));
    let from_top = if a.y1 <= b.y1 {
        p
    } else {
        q
    };
    let top = choose|e: (u32, u32)| #[trigger] from_top.contains(e) && e.1 == u.y1;
    assert(all.contains(top));
    let from_right = if a.x2 >= b.x2 {
        p
    } else {
        q
    };
    let right = choose|e: (u32, u32)| #[trigger] from_right.contains(e) && e.0 == u.x2;
    assert(all.contains(right));
    let from_bottom = if a.y2 >= b.y2 {
        p
    } else {
        q
    };
    let bottom = choose|e: (u32, u32)| #[trigger] from_bottom.contains(e) && e.1 == u.y2;
    assert(all.contains(bottom));
}

/// Merging two well-formed pieces gives a well-formed piece.
pub proof fn lemma_merged_wf(a: PieceModel, b: PieceModel)
    requires
        a.wf(),
        b.wf(),
    ensures
        a.merged(b).wf(),
{
    lemma_bounds_union(a.area, a.pixels, b.area, b.pixels);
}

/// The hull of well-formed pieces is an ordered rectangle that covers the
/// rectangle of each of them.
pub proof fn lemma_hull_covers(pieces: Seq<PieceModel>, n: int)
    requires
        1 <= n <= pieces.len(),
        forall|i: int| 0 <= i < n ==> (#[trigger] pieces[i]).area.wf(),
    ensures
        hull(pieces, n).wf(),
        forall|i: int|
            0 <= i < n ==> hull(pieces, n).x1 <= (#[trigger] pieces[i]).area.x1
                && pieces[i].area.x2 <= hull(pieces, n).x2 && hull(pieces, n).y1
                <= pieces[i].area.y1 && pieces[i].area.y2 <= hull(pieces, n).y2,
    decreases n,
{
    if n > 1 {
        lemma_hull_covers(pieces, n - 1);
    }
}

/// The hull of the first `n` pieces depends on these only.
pub proof fn lemma_hull_local(a: Seq<PieceModel>, b: Seq<PieceModel>, n: int)
    requires
        1 <= n <= a.len(),
        n <= b.len(),
        forall|i: int| 0 <= i < n ==> (#[trigger] a[i]).area == b[i].area,
    ensures
        hull(a, n) == hull(b, n),
    decreases n,
{
    if n > 1 {
        lemma_hull_local(a, b, n - 1);
    }
}

/// Putting one more piece anywhere among the pieces extends their hull by
/// that piece's rectangle.
pub proof fn lemma_hull_insert(pieces: Seq<PieceModel>, at: int, piece: PieceModel)
    requires
        pieces.len() > 0,
        0 <= at <= pieces.len(),
    ensures
        hull(pieces.insert(at, piece), (pieces.len() + 1) as int) == hull(
            pieces,
            pieces.len() as int,
        ).union(piece.area),
    decreases pieces.len() - at,
{
    let more = pieces.insert(at, piece);
    let n = pieces.len() as int;
    if at == n {
        lemma_hull_local(more, pieces, n);
    } else if n == 1 {
        assert(more[0] == piece && more[1] == pieces[0]);
        assert(hull(more, 1) == piece.area);
    } else {
        let front = pieces.drop_last();
        assert(more.drop_last() =~= front.insert(at, piece));
        assert(more[n] == pieces[n - 1]);
        lemma_hull_insert(front, at, piece);
        lemma_hull_local(more, more.drop_last(), n);
        lemma_hull_local(pieces, front, n - 1);
    }
}

/// A piece is inserted at a position of the sequence or at its end.
pub proof fn lemma_insert_position_range(pieces: Seq<PieceModel>, left: u16)
    ensures
        0 <= insert_position(pieces, left) <= pieces.len(),
        forall|j: int|
            insert_position(pieces, left) <= j < pieces.len() ==> (#[trigger] pieces[j]).area.x1
                > left,
        insert_position(pieces, left) > 0 ==> pieces[insert_position(pieces, left) - 1].area.x1
            <= left,
    decreases pieces.len(),
{
    if pieces.len() > 0 && pieces.last().area.x1 > left {
        lemma_insert_position_range(pieces.drop_last(), left);
        let at = insert_position(pieces.drop_last(), left);
        assert forall|j: int| at <= j < pieces.len() implies (#[trigger] pieces[j]).area.x1
            > left by {
            if j < pieces.len() - 1 {
                assert(pieces.drop_last()[j] == pieces[j]);
            }
        }
        if at > 0 {
            assert(pieces.drop_last()[at - 1] == pieces[at - 1]);
        }
    }
}

/// Ordering the first `n` pieces by their left edge keeps each piece and
/// their number, brings in no other piece, and leaves their hull as it was.
pub proof fn lemma_sorted_keeps(pieces: Seq<PieceModel>, n: int)
    requires
        0 <= n <= pieces.len(),
    ensures
        sorted_by_left(pieces, n).len() == n,
        forall|j: int|
            0 <= j < n ==> exists|i: int|
                0 <= i < n && #[trigger] sorted_by_left(pieces, n)[j] == pieces[i],
        forall|i: int|
            0 <= i < n ==> exists|j: int|
                0 <= j < n && sorted_by_left(pieces, n)[j] == #[trigger] pieces[i],
        n >= 1 ==> hull(sorted_by_left(pieces, n), n) == hull(pieces, n),
    decreases n,
{
    if n > 0 {
        lemma_sorted_keeps(pieces, n - 1);
        let before = sorted_by_left(pieces, n - 1);
        let piece = pieces[n - 1];
        lemma_insert_position_range(before, piece.area.x1);
        let at = insert_position(before, piece.area.x1);
        let after = sorted_by_left(pieces, n);
        assert(after == before.insert(at, piece));
        assert forall|j: int| 0 <= j < n implies exists|i: int|
            0 <= i < n && #[trigger] after[j] == pieces[i] by {
            if j < at {
                assert(after[j] == before[j]);
                let i = choose|i: int| 0 <= i < n - 1 && before[j] == pieces[i];
                assert(after[j] == pieces[i]);
            } else if j == at {
                assert(after[j] == pieces[n - 1]);
            } else {
                assert(after[j] == before[j - 1]);
                let i = choose|i: int| 0 <= i < n - 1 && before[j - 1] == pieces[i];
                assert(after[j] == pieces[i]);
            }
        }
        assert forall|i: int| 0 <= i < n implies exists|j: int|
            0 <= j < n && after[j] == #[trigger] pieces[i] by {
            if i == n - 1 {
                assert(after[at] == pieces[i]);
            } else {
                let j = choose|j: int| 0 <= j < n - 1 && before[j] == pieces[i];
                if j < at {
                    assert(after[j] == pieces[i]);
                } else {
                    assert(after[j + 1] == pieces[i]);
                }
            }
        }
        if n > 1 {
            lemma_hull_insert(before, at, piece);
        }
    }
}

/// The left edges of the pieces ascend from the first piece to the last.
pub open spec fn ascending(pieces: Seq<PieceModel>) -> bool {
    forall|j: int, k: int|
        0 <= j <= k < pieces.len() ==> (#[trigger] pieces[j]).area.x1 <= (
        #[trigger] pieces[k]).area.x1
}

/// A piece put at its insert position among ascending pieces leaves them
/// ascending.
pub proof fn lemma_insert_ascends(before: Seq<PieceModel>, piece: PieceModel)
    requires
        ascending(before),
    ensures
        ascending(before.insert(insert_position(before, piece.area.x1), piece)),
{
    lemma_insert_position_range(before, piece.area.x1);
    let at = insert_position(before, piece.area.x1);
    let after = before.insert(at, piece);
    assert forall|j: int, k: int| 0 <= j <= k < after.len() implies (#[trigger] after[j]).area.x1
        <= (#[trigger] after[k]).area.x1 by {
        let a = if j < at {
            j
        } else {
            j - 1
        };
        let b = if k < at {
            k
        } else {
            k - 1
        };
        if j != at {
            assert(after[j] == before[a]);
        }
        if k != at {
            assert(after[k] == before[b]);
        }
        if j != at && k != at {
            assert(before[a].area.x1 <= before[b].area.x1);
        } else if j == at && k != at {
            assert(before[b].area.x1 > piece.area.x1);
        } else if j != at && k == at {
            assert(at > 0);
            assert(before[a].area.x1 <= before[at - 1].area.x1);
        }
    }
}

/// Pieces ordered by their left edge stand with their left edges in
/// ascending order.
pub proof fn lemma_sorted_ascends(pieces: Seq<PieceModel>, n: int)
    requires
        0 <= n <= pieces.len(),
    ensures
        ascending(sorted_by_left(pieces, n)),
    decreases n,
{
    if n > 0 {
        lemma_sorted_ascends(pieces, n - 1);
        lemma_insert_ascends(sorted_by_left(pieces, n - 1), pieces[n - 1]);
    }
}

/// Where piece `i` of the first `n` stands once these are ordered by their
/// left edge.
pub open spec fn sorted_position(pieces: Seq<PieceModel>, n: int, i: int) -> int
    decreases n,
{
    if n <= 0 || i >= n {
        0
    } else {
        let at = insert_position(sorted_by_left(pieces, n - 1), pieces[n - 1].area.x1);
        if i == n - 1 {
            at
        } else {
            let before = sorted_position(pieces, n - 1, i);
            if before < at {
                before
            } else {
                before + 1
            }
        }
    }
}

/// Ordering pieces keeps their number.
pub proof fn lemma_sorted_len(pieces: Seq<PieceModel>, n: int)
    requires
        0 <= n <= pieces.len(),
    ensures
        sorted_by_left(pieces, n).len() == n,
    decreases n,
{
    if n > 0 {
        lemma_sorted_len(pieces, n - 1);
        lemma_insert_position_range(sorted_by_left(pieces, n - 1), pieces[n - 1].area.x1);
    }
}

/// Each of the pieces that are ordered by their left edge stands at its
/// position in the result.
pub proof fn lemma_sorted_place(pieces: Seq<PieceModel>, n: int, i: int)
    requires
        0 <= i < n <= pieces.len(),
    ensures
        0 <= sorted_position(pieces, n, i) < n,
        sorted_by_left(pieces, n)[sorted_position(pieces, n, i)] == pieces[i],
    decreases n,
{
    lemma_sorted_len(pieces, n - 1);
    let before = sorted_by_left(pieces, n - 1);
    lemma_insert_position_range(before, pieces[n - 1].area.x1);
    if i < n - 1 {
        lemma_sorted_place(pieces, n - 1, i);
    }
}

/// Ordering by the left edge is stable: of two pieces the one given first
/// stands first exactly when its left edge is not further right than the
/// other's.
pub proof fn lemma_sorted_is_stable(pieces: Seq<PieceModel>, n: int, i: int, j: int)
    requires
        0 <= i < j < n <= pieces.len(),
    ensures
        pieces[i].area.x1 <= pieces[j].area.x1 <==> sorted_position(pieces, n, i)
            < sorted_position(pieces, n, j),
        sorted_position(pieces, n, i) != sorted_position(pieces, n, j),
    decreases n,
{
    let before = sorted_by_left(pieces, n - 1);
    let piece = pieces[n - 1];
    lemma_sorted_len(pieces, n - 1);
    let at = insert_position(before, piece.area.x1);
    lemma_sorted_place(pieces, n - 1, i);
    let was = sorted_position(pieces, n - 1, i);
    if j < n - 1 {
        lemma_sorted_is_stable(pieces, n - 1, i, j);
    } else {
        lemma_sorted_ascends(pieces, n - 1);
        lemma_new_piece_place(before, piece.area.x1, was);
    }
}

/// A piece stands before the insert position of a left edge exactly when
/// its own left edge is not further right, provided the pieces ascend.
pub proof fn lemma_new_piece_place(before: Seq<PieceModel>, left: u16, was: int)
    requires
        0 <= was < before.len(),
        ascending(before),
    ensures
        before[was].area.x1 <= left <==> was < insert_position(before, left),
{
    lemma_insert_position_range(before, left);
    let at = insert_position(before, left);
    if was < at {
        assert(before[was].area.x1 <= before[at - 1].area.x1);
    }
}

/// Joining accents to their letters leaves at least one piece and at most
/// as many as there were, keeps the pieces well formed and not drawn, and
/// leaves their hull as it was.
pub proof fn lemma_grouped_keeps(pieces: Seq<PieceModel>, n: int)
    requires
        0 <= n <= pieces.len(),
        forall|i: int| 0 <= i < n ==> (#[trigger] pieces[i]).wf() && pieces[i].img is None,
    ensures
        grouped(pieces, n).len() <= n,
        n >= 1 ==> grouped(pieces, n).len() >= 1,
        forall|j: int|
            0 <= j < grouped(pieces, n).len() ==> (#[trigger] grouped(pieces, n)[j]).wf()
                && grouped(pieces, n)[j].img is None,
        n >= 1 ==> hull(grouped(pieces, n), grouped(pieces, n).len() as int) == hull(pieces, n),
    decreases n,
{
    if n > 0 {
        lemma_grouped_keeps(pieces, n - 1);
        let before = grouped(pieces, n - 1);
        let piece = pieces[n - 1];
        let after = grouped(pieces, n);
        let m = before.len() as int;
        if m > 0 && before.last().area.spec_contains_x(piece.area) {
            lemma_merged_wf(before.last(), piece);
            assert(after == before.update(m - 1, before.last().merged(piece)));
            if m > 1 {
                lemma_hull_local(after, before, m - 1);
            }
        } else {
            assert(after == before.push(piece));
            if m > 0 {
                lemma_hull_local(after, before, m);
            }
        }
    }
}

/// The baseline's top and bottom are found together, and each is the edge
/// of a body piece among the first `n`.
pub proof fn lemma_body_edges(pieces: Seq<PieceModel>, line_height: int, n: int)
    requires
        0 <= n <= pieces.len(),
    ensures
        body_top(pieces, line_height, n) is Some <==> body_bottom(pieces, line_height, n) is Some,
        body_top(pieces, line_height, n) is Some <==> exists|i: int|
            0 <= i < n && is_body(#[trigger] pieces[i], line_height),
        body_top(pieces, line_height, n) matches Some(top) ==> exists|i: int|
            0 <= i < n && is_body(#[trigger] pieces[i], line_height) && pieces[i].area.y1 == top,
        body_bottom(pieces, line_height, n) matches Some(bottom) ==> exists|i: int|
            0 <= i < n && is_body(#[trigger] pieces[i], line_height) && pieces[i].area.y2
                == bottom,
        body_top(pieces, line_height, n) matches Some(top) ==> forall|i: int|
            0 <= i < n && is_body(#[trigger] pieces[i], line_height) ==> pieces[i].area.y1 <= top,
        body_bottom(pieces, line_height, n) matches Some(bottom) ==> forall|i: int|
            0 <= i < n && is_body(#[trigger] pieces[i], line_height) ==> bottom
                <= pieces[i].area.y2,
    decreases n,
{
    if n > 0 {
        lemma_body_edges(pieces, line_height, n - 1);
        if is_body(pieces[n - 1], line_height) {
            assert(0 <= n - 1 < n && is_body(pieces[n - 1], line_height));
        } else {
            if body_top(pieces, line_height, n - 1) is Some {
                let i = choose|i: int|
                    0 <= i < n - 1 && is_body(#[trigger] pieces[i], line_height)
                        && pieces[i].area.y1 == body_top(pieces, line_height, n - 1)->0;
                assert(0 <= i < n && is_body(pieces[i], line_height));
                let j = choose|i: int|
                    0 <= i < n - 1 && is_body(#[trigger] pieces[i], line_height)
                        && pieces[i].area.y2 == body_bottom(pieces, line_height, n - 1)->0;
                assert(0 <= j < n && is_body(pieces[j], line_height));
            }
        }
    }
}

/// A piece as the scan of an image of the given size finds it: well formed,
/// not drawn, and within the image.
pub open spec fn raw(piece: PieceModel, width: int, height: int) -> bool {
    &&& piece.wf()
    &&& piece.img is None
    &&& piece.area.x2 < width
    &&& piece.area.y2 < height
}

/// A line of raw pieces: it has a piece, its rectangle is the hull of its
/// pieces, and its baseline is not established.
pub open spec fn raw_line(line: LineModel, width: int, height: int) -> bool {
    &&& line.pieces.len() > 0
    &&& line.area == hull(line.pieces, line.pieces.len() as int)
    &&& line.base_y is None
    &&& forall|j: int| 0 <= j < line.pieces.len() ==> raw(#[trigger] line.pieces[j], width, height)
}

/// The hull of pieces within an image lies within the image.
pub proof fn lemma_hull_within(pieces: Seq<PieceModel>, n: int, width: int, height: int)
    requires
        1 <= n <= pieces.len(),
        forall|i: int| 0 <= i < n ==> raw(#[trigger] pieces[i], width, height),
    ensures
        hull(pieces, n).wf(),
        hull(pieces, n).x2 < width,
        hull(pieces, n).y2 < height,
    decreases n,
{
    if n > 1 {
        lemma_hull_within(pieces, n - 1, width, height);
    }
    assert(raw(pieces[n - 1], width, height));
}

/// An overlapping line found among the first `n` is still the first among
/// more.
pub proof fn lemma_first_overlapping_stays(lines: Seq<LineModel>, area: Area, n: int, m: int)
    requires
        0 <= n <= m,
        first_overlapping(lines, area, n) is Some,
    ensures
        first_overlapping(lines, area, m) == first_overlapping(lines, area, n),
    decreases m - n,
{
    if n < m {
        lemma_first_overlapping_stays(lines, area, n, m - 1);
    }
}

/// The first overlapping line, if there is one, is one of the lines.
pub proof fn lemma_first_overlapping_range(lines: Seq<LineModel>, area: Area, n: int)
    requires
        0 <= n <= lines.len(),
    ensures
        first_overlapping(lines, area, n) matches Some(i) ==> 0 <= i < n,
    decreases n,
{
    if n > 0 {
        lemma_first_overlapping_range(lines, area, n - 1);
    }
}

/// Raw pieces placed one after the other form lines of raw pieces.
pub proof fn lemma_clustered_raw(pieces: Seq<PieceModel>, n: int, width: int, height: int)
    requires
        0 <= n <= pieces.len(),
        forall|i: int| 0 <= i < n ==> raw(#[trigger] pieces[i], width, height),
    ensures
        n > 0 ==> clustered(pieces, n).len() > 0,
        forall|k: int|
            0 <= k < clustered(pieces, n).len() ==> raw_line(
                #[trigger] clustered(pieces, n)[k],
                width,
                height,
            ),
    decreases n,
{
    if n > 0 {
        lemma_clustered_raw(pieces, n - 1, width, height);
        let before = clustered(pieces, n - 1);
        let piece = pieces[n - 1];
        assert(raw(piece, width, height));
        let after = clustered(pieces, n);
        lemma_first_overlapping_range(before, piece.area, before.len() as int);
        match first_overlapping(before, piece.area, before.len() as int) {
            Some(i) => {
                let line = before[i];
                assert(raw_line(line, width, height));
                let longer = line.extended(piece);
                lemma_hull_local(longer.pieces, line.pieces, line.pieces.len() as int);
                assert forall|j: int| 0 <= j < longer.pieces.len() implies raw(
                    #[trigger] longer.pieces[j],
                    width,
                    height,
                ) by {
                    if j < line.pieces.len() {
                        assert(longer.pieces[j] == line.pieces[j]);
                    }
                }
                assert(raw_line(longer, width, height));
                assert forall|k: int| 0 <= k < after.len() implies raw_line(
                    #[trigger] after[k],
                    width,
                    height,
                ) by {
                    if k != i {
                        assert(after[k] == before[k]);
                    }
                }
            },
            None => {
                let alone = LineModel::single(piece);
                assert(alone.pieces[0] == piece);
                assert(raw_line(alone, width, height));
                assert forall|k: int| 0 <= k < after.len() implies raw_line(
                    #[trigger] after[k],
                    width,
                    height,
                ) by {
                    if k < before.len() {
                        assert(after[k] == before[k]);
                    }
                }
            },
        }
    }
}

/// Ordering raw pieces and joining accents to their letters gives raw
/// pieces with the same hull, at least one of them.
pub proof fn lemma_arranged_raw(pieces: Seq<PieceModel>, width: int, height: int)
    requires
        pieces.len() > 0,
        forall|i: int| 0 <= i < pieces.len() ==> raw(#[trigger] pieces[i], width, height),
    ensures
        arranged(pieces).len() > 0,
        forall|j: int|
            0 <= j < arranged(pieces).len() ==> raw(#[trigger] arranged(pieces)[j], width, height),
        hull(arranged(pieces), arranged(pieces).len() as int) == hull(pieces, pieces.len() as int),
{
    let n = pieces.len() as int;
    lemma_sorted_keeps(pieces, n);
    let sorted = sorted_by_left(pieces, n);
    assert forall|j: int| 0 <= j < n implies raw(#[trigger] sorted[j], width, height) by {
        let i = choose|i: int| 0 <= i < n && sorted[j] == pieces[i];
        assert(raw(pieces[i], width, height));
    }
    lemma_grouped_raw(sorted, n, width, height);
    lemma_grouped_keeps(sorted, n);
}

/// Joining accents to their letters keeps raw pieces raw.
pub proof fn lemma_grouped_raw(pieces: Seq<PieceModel>, n: int, width: int, height: int)
    requires
        0 <= n <= pieces.len(),
        forall|i: int| 0 <= i < n ==> raw(#[trigger] pieces[i], width, height),
    ensures
        forall|j: int|
            0 <= j < grouped(pieces, n).len() ==> raw(
                #[trigger] grouped(pieces, n)[j],
                width,
                height,
            ),
    decreases n,
{
    if n > 0 {
        lemma_grouped_raw(pieces, n - 1, width, height);
        let before = grouped(pieces, n - 1);
        let piece = pieces[n - 1];
        assert(raw(piece, width, height));
        let after = grouped(pieces, n);
        let m = before.len() as int;
        if m > 0 && before.last().area.spec_contains_x(piece.area) {
            assert(raw(before[m - 1], width, height));
            lemma_merged_wf(before.last(), piece);
            assert forall|j: int| 0 <= j < after.len() implies raw(
                #[trigger] after[j],
                width,
                height,
            ) by {
                if j < m - 1 {
                    assert(after[j] == before[j]);
                }
            }
        } else {
            assert forall|j: int| 0 <= j < after.len() implies raw(
                #[trigger] after[j],
                width,
                height,
            ) by {
                if j < m {
                    assert(after[j] == before[j]);
                }
            }
        }
    }
}

/// A line of raw pieces that has a body piece, once completed, is ready to
/// be read, provided the image is at most 32768 rows high.
pub proof fn lemma_completed_finished(line: LineModel, width: int, height: int)
    requires
        raw_line(line, width, height),
        anchored(line),
        height <= 0x8000,
    ensures
        completed(line).finished(),
{
    let pieces = arranged(line.pieces);
    let done = completed(line);
    lemma_arranged_raw(line.pieces, width, height);
    lemma_hull_within(line.pieces, line.pieces.len() as int, width, height);
    assert forall|i: int| 0 <= i < done.pieces.len() implies (#[trigger] done.pieces[i]).wf()
        && done.pieces[i].img is Some && done.pieces[i].area == pieces[i].area by {
        assert(raw(pieces[i], width, height));
    }
    lemma_hull_local(done.pieces, pieces, pieces.len() as int);
    lemma_body_edges(pieces, line.height(), pieces.len() as int);
    assert forall|i: int| 0 <= i < pieces.len() implies (#[trigger] pieces[i]).area.wf() by {
        assert(raw(pieces[i], width, height));
    }
    lemma_hull_covers(pieces, pieces.len() as int);
}

} // verus!
