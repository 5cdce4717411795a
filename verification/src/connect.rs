//! Connected ink: which pixels of an image belong together, and which
//! pieces an image therefore has.

use crate::pieces::bounding_area;
use crate::pieces::PieceModel;
use crate::raster::Bitmap;
use crate::raster::BACKGROUND;
use crate::raster::INK;
use vstd::prelude::*;

verus! {

/// The pixel `p` of the image holds ink.
pub open spec fn ink_at(img: Bitmap, p: (u32, u32)) -> bool {
    img.is_ink(p.0 as int, p.1 as int)
}

/// The two pixels share an edge: one lies directly left of, right of, above
/// or below the other. Pixels that only share a corner are not adjacent.
pub open spec fn adjacent(p: (u32, u32), q: (u32, u32)) -> bool {
    ||| (p.1 == q.1 && (p.0 + 1 == q.0 || q.0 + 1 == p.0))
    ||| (p.0 == q.0 && (p.1 + 1 == q.1 || q.1 + 1 == p.1))
}

/// A walk over ink: each pixel holds ink and is adjacent to the next.
pub open spec fn is_path(img: Bitmap, path: Seq<(u32, u32)>) -> bool {
    &&& path.len() > 0
    &&& forall|i: int| 0 <= i < path.len() ==> ink_at(img, #[trigger] path[i])
    &&& forall|i: int| 0 <= i < path.len() - 1 ==> adjacent(#[trigger] path[i], path[i + 1])
}

/// There is a walk over ink from `p` to `q`.
pub open spec fn connected(img: Bitmap, p: (u32, u32), q: (u32, u32)) -> bool {
    exists|path: Seq<(u32, u32)>| #[trigger]
        is_path(img, path) && path[0] == p && path.last() == q
}

/// The pixels that a walk over ink from `p` reaches.
pub open spec fn component(img: Bitmap, p: (u32, u32)) -> Set<(u32, u32)> {
    Set::new(|q: (u32, u32)| connected(img, p, q))
}

/// With a pixel the set holds each ink pixel adjacent to it.
pub open spec fn closed(img: Bitmap, pixels: Set<(u32, u32)>) -> bool {
    forall|p: (u32, u32), q: (u32, u32)|
        pixels.contains(p) && #[trigger] adjacent(p, q) && ink_at(img, q) ==> pixels.contains(q)
}

/// `q` comes before `p` when the image is scanned row after row from the
/// top, each row from the left.
pub open spec fn scan_before(q: (u32, u32), p: (u32, u32)) -> bool {
    q.1 < p.1 || (q.1 == p.1 && q.0 < p.0)
}

/// `p` is the pixel at which the scan discovers a piece: it holds ink, and
/// no walk over ink reaches it from a pixel scanned before.
pub open spec fn is_seed(img: Bitmap, p: (u32, u32)) -> bool {
    ink_at(img, p) && forall|q: (u32, u32)| scan_before(q, p) ==> !#[trigger] connected(img, q, p)
}

/// The piece discovered at `p`: the pixels connected to `p`, with the
/// smallest rectangle around them, not drawn yet.
pub open spec fn piece_at(img: Bitmap, p: (u32, u32)) -> PieceModel {
    let pixels = component(img, p);
    PieceModel { area: bounding_area(pixels), pixels, img: None }
}

/// The pieces discovered in the first `n` pixels of row `y`.
pub open spec fn row_pieces(img: Bitmap, y: int, n: int) -> Seq<PieceModel>
    decreases n,
{
    if n <= 0 {
        Seq::empty()
    } else {
        let before = row_pieces(img, y, n - 1);
        if is_seed(img, ((n - 1) as u32, y as u32)) {
            before.push(piece_at(img, ((n - 1) as u32, y as u32)))
        } else {
            before
        }
    }
}

/// The pieces discovered in the first `rows` rows.
pub open spec fn image_pieces(img: Bitmap, rows: int) -> Seq<PieceModel>
    decreases rows,
{
    if rows <= 0 {
        Seq::empty()
    } else {
        image_pieces(img, rows - 1) + row_pieces(img, rows - 1, img.width)
    }
}

/// A pixel of the image is neither ink nor background.
pub open spec fn has_gray(img: Bitmap) -> bool {
    exists|x: int, y: int|
        img.inside(x, y) && #[trigger] img.pixel(x, y) != INK && img.pixel(x, y) != BACKGROUND
}

/// A pixel of the image holds ink.
pub open spec fn has_ink(img: Bitmap) -> bool {
    exists|x: int, y: int| #[trigger] img.is_ink(x, y)
}

/// An ink pixel is connected to itself.
pub proof fn lemma_connected_refl(img: Bitmap, p: (u32, u32))
    requires
        ink_at(img, p),
    ensures
        connected(img, p, p),
{
    let path = seq![p];
    assert(is_path(img, path) && path[0] == p && path.last() == p);
}

/// A walk that reaches a pixel reaches each ink pixel adjacent to it.
pub proof fn lemma_connected_step(img: Bitmap, p: (u32, u32), q: (u32, u32), r: (u32, u32))
    requires
        connected(img, p, q),
        adjacent(q, r),
        ink_at(img, r),
    ensures
        connected(img, p, r),
{
    let path = choose|path: Seq<(u32, u32)>| #[trigger]
        is_path(img, path) && path[0] == p && path.last() == q;
    let longer = path.push(r);
    assert forall|i: int| 0 <= i < longer.len() implies ink_at(img, #[trigger] longer[i]) by {
        if i < path.len() {
            assert(longer[i] == path[i]);
        }
    }
    assert forall|i: int| 0 <= i < longer.len() - 1 implies adjacent(
        #[trigger] longer[i],
        longer[i + 1],
    ) by {
        if i < path.len() - 1 {
            assert(longer[i] == path[i] && longer[i + 1] == path[i + 1]);
        } else {
            assert(longer[i] == q && longer[i + 1] == r);
        }
    }
    assert(is_path(img, longer) && longer[0] == p && longer.last() == r);
}

/// Walks can be walked backwards.
pub proof fn lemma_connected_symmetric(img: Bitmap, p: (u32, u32), q: (u32, u32))
    requires
        connected(img, p, q),
    ensures
        connected(img, q, p),
{
    let path = choose|path: Seq<(u32, u32)>| #[trigger]
        is_path(img, path) && path[0] == p && path.last() == q;
    let n = path.len() as int;
    let back = Seq::new(path.len(), |i: int| path[n - 1 - i]);
    assert forall|i: int| 0 <= i < back.len() - 1 implies adjacent(
        #[trigger] back[i],
        back[i + 1],
    ) by {
        assert(adjacent(path[n - 2 - i], path[n - 2 - i + 1]));
    }
    assert(is_path(img, back) && back[0] == q && back.last() == p);
}

/// Walks can be walked one after the other.
pub proof fn lemma_connected_transitive(
    img: Bitmap,
    p: (u32, u32),
    q: (u32, u32),
    r: (u32, u32),
)
    requires
        connected(img, p, q),
        connected(img, q, r),
    ensures
        connected(img, p, r),
{
    let first = choose|path: Seq<(u32, u32)>| #[trigger]
        is_path(img, path) && path[0] == p && path.last() == q;
    let second = choose|path: Seq<(u32, u32)>| #[trigger]
        is_path(img, path) && path[0] == q && path.last() == r;
    let whole = first + second.drop_first();
    let n = first.len() as int;
    assert forall|i: int| 0 <= i < whole.len() implies ink_at(img, #[trigger] whole[i]) by {
        if i < n {
            assert(whole[i] == first[i]);
        } else {
            assert(whole[i] == second[i - n + 1]);
        }
    }
    assert forall|i: int| 0 <= i < whole.len() - 1 implies adjacent(
        #[trigger] whole[i],
        whole[i + 1],
    ) by {
        if i < n - 1 {
            assert(whole[i] == first[i] && whole[i + 1] == first[i + 1]);
        } else if i == n - 1 {
            assert(whole[i] == second[0] && whole[i + 1] == second[1]);
        } else {
            assert(whole[i] == second[i - n + 1] && whole[i + 1] == second[i - n + 2]);
        }
    }
    if second.len() == 1 {
        assert(whole =~= first);
    } else {
        assert(whole.last() == second.last());
    }
    assert(is_path(img, whole) && whole[0] == p && whole.last() == r);
}

/// A walk that starts in a closed set stays in it.
pub proof fn lemma_closed_path(img: Bitmap, pixels: Set<(u32, u32)>, path: Seq<(u32, u32)>, i: int)
    requires
        closed(img, pixels),
        is_path(img, path),
        pixels.contains(path[0]),
        0 <= i < path.len(),
    ensures
        pixels.contains(path[i]),
    decreases i,
{
    if i > 0 {
        lemma_closed_path(img, pixels, path, i - 1);
        assert(adjacent(path[i - 1], path[i - 1 + 1]));
        assert(ink_at(img, path[i]));
    }
}

/// A closed set holds whatever is connected to one of its pixels.
pub proof fn lemma_closed_holds_component(img: Bitmap, pixels: Set<(u32, u32)>, p: (u32, u32))
    requires
        closed(img, pixels),
        pixels.contains(p),
    ensures
        component(img, p).subset_of(pixels),
{
    assert forall|q: (u32, u32)| component(img, p).contains(q) implies pixels.contains(q) by {
        let path = choose|path: Seq<(u32, u32)>| #[trigger]
            is_path(img, path) && path[0] == p && path.last() == q;
        lemma_closed_path(img, pixels, path, path.len() - 1);
    }
}

/// The pixels connected to a pixel form a closed set of ink pixels.
pub proof fn lemma_component_closed(img: Bitmap, p: (u32, u32))
    ensures
        closed(img, component(img, p)),
        forall|q: (u32, u32)| #[trigger] component(img, p).contains(q) ==> ink_at(img, q),
{
    assert forall|q: (u32, u32), r: (u32, u32)|
        component(img, p).contains(q) && #[trigger] adjacent(q, r) && ink_at(
            img,
            r,
        ) implies component(img, p).contains(r) by {
        lemma_connected_step(img, p, q, r);
    }
    assert forall|q: (u32, u32)| #[trigger] component(img, p).contains(q) implies ink_at(
        img,
        q,
    ) by {
        let path = choose|path: Seq<(u32, u32)>| #[trigger]
            is_path(img, path) && path[0] == p && path.last() == q;
        assert(ink_at(img, path[path.len() - 1]));
    }
}

/// A walk over the ink of one image is a walk over the ink of another that
/// has ink at each of its pixels.
pub proof fn lemma_path_transfer(from: Bitmap, to: Bitmap, path: Seq<(u32, u32)>)
    requires
        is_path(from, path),
        forall|i: int| 0 <= i < path.len() ==> ink_at(to, #[trigger] path[i]),
    ensures
        is_path(to, path),
{
}

/// Pixels that share a corner only are not adjacent, and no pixel is
/// adjacent to itself.
pub proof fn lemma_diagonal_not_adjacent(p: (u32, u32), q: (u32, u32))
    requires
        p.0 != q.0,
        p.1 != q.1,
    ensures
        !adjacent(p, q),
        !adjacent(p, p),
{
}

/// Each ink pixel is reached by a walk over ink from the pixel at which a
/// piece is discovered.
pub proof fn lemma_ink_has_seed(img: Bitmap, q: (u32, u32))
    requires
        ink_at(img, q),
    ensures
        exists|s: (u32, u32)| is_seed(img, s) && #[trigger] connected(img, s, q),
    decreases q.1, q.0,
{
    if is_seed(img, q) {
        lemma_connected_refl(img, q);
        assert(is_seed(img, q) && connected(img, q, q));
    } else {
        let before = choose|before: (u32, u32)|
            scan_before(before, q) && #[trigger] connected(img, before, q);
        lemma_connected_symmetric(img, before, q);
        lemma_component_closed(img, q);
        assert(component(img, q).contains(before));
        assert(ink_at(img, before));
        lemma_ink_has_seed(img, before);
        let s = choose|s: (u32, u32)| is_seed(img, s) && #[trigger] connected(img, s, before);
        lemma_connected_transitive(img, s, before, q);
        assert(is_seed(img, s) && connected(img, s, q));
    }
}

/// What is connected to one pixel at which a piece is discovered is not
/// connected to another.
pub proof fn lemma_seeds_apart(img: Bitmap, s: (u32, u32), t: (u32, u32), q: (u32, u32))
    requires
        is_seed(img, s),
        is_seed(img, t),
        connected(img, s, q),
        connected(img, t, q),
    ensures
        s == t,
{
    lemma_connected_symmetric(img, t, q);
    lemma_connected_transitive(img, s, q, t);
    lemma_connected_symmetric(img, s, t);
    if s != t {
        if scan_before(s, t) {
            assert(connected(img, s, t));
        } else {
            assert(scan_before(t, s));
            assert(connected(img, t, s));
        }
    }
}

/// `piece` is the piece discovered at one of the first `n` pixels of row `y`.
pub open spec fn found_in_row(img: Bitmap, piece: PieceModel, y: int, n: int) -> bool {
    exists|s: (u32, u32)|
        #![trigger piece_at(img, s)]
        is_seed(img, s) && s.1 == y && s.0 < n && piece == piece_at(img, s)
}

/// `piece` is the piece discovered at a pixel of the first `rows` rows.
pub open spec fn found_in_rows(img: Bitmap, piece: PieceModel, rows: int) -> bool {
    exists|s: (u32, u32)|
        #![trigger piece_at(img, s)]
        is_seed(img, s) && s.1 < rows && piece == piece_at(img, s)
}

/// The pieces discovered in the first `n` pixels of a row are those at the
/// pixels of the row at which a piece is discovered.
pub proof fn lemma_row_pieces(img: Bitmap, y: int, n: int)
    requires
        0 <= y <= u32::MAX,
        0 <= n <= u32::MAX + 1,
    ensures
        forall|k: int|
            0 <= k < row_pieces(img, y, n).len() ==> found_in_row(
                img,
                #[trigger] row_pieces(img, y, n)[k],
                y,
                n,
            ),
        forall|s: (u32, u32)|
            is_seed(img, s) && s.1 == y && s.0 < n ==> row_pieces(img, y, n).contains(
                #[trigger] piece_at(img, s),
            ),
    decreases n,
{
    if n > 0 {
        lemma_row_pieces(img, y, n - 1);
        let before = row_pieces(img, y, n - 1);
        let after = row_pieces(img, y, n);
        let here = ((n - 1) as u32, y as u32);
        assert forall|k: int| 0 <= k < after.len() implies found_in_row(
            img,
            #[trigger] after[k],
            y,
            n,
        ) by {
            if k < before.len() {
                assert(found_in_row(img, before[k], y, n - 1));
                let s = choose|s: (u32, u32)|
                    #![trigger piece_at(img, s)]
                    is_seed(img, s) && s.1 == y && s.0 < n - 1 && before[k] == piece_at(img, s);
                assert(is_seed(img, s) && s.1 == y && s.0 < n && after[k] == piece_at(img, s));
            } else {
                assert(is_seed(img, here) && here.1 == y && here.0 < n && after[k] == piece_at(
                    img,
                    here,
                ));
            }
        }
        assert forall|s: (u32, u32)| is_seed(img, s) && s.1 == y && s.0 < n implies after.contains(
            #[trigger] piece_at(img, s),
        ) by {
            if s == here {
                assert(after[before.len() as int] == piece_at(img, s));
            } else {
                assert(before.contains(piece_at(img, s)));
                let k = choose|k: int| 0 <= k < before.len() && before[k] == piece_at(img, s);
                assert(after[k] == piece_at(img, s));
            }
        }
    }
}

/// The pieces of the first `rows` rows are those at the pixels of these rows
/// at which a piece is discovered.
pub proof fn lemma_image_pieces(img: Bitmap, rows: int)
    requires
        0 <= rows <= u32::MAX + 1,
        0 <= img.width <= u32::MAX + 1,
    ensures
        forall|k: int|
            0 <= k < image_pieces(img, rows).len() ==> found_in_rows(
                img,
                #[trigger] image_pieces(img, rows)[k],
                rows,
            ),
        forall|s: (u32, u32)|
            is_seed(img, s) && s.1 < rows ==> image_pieces(img, rows).contains(
                #[trigger] piece_at(img, s),
            ),
    decreases rows,
{
    if rows > 0 {
        lemma_image_pieces(img, rows - 1);
        lemma_row_pieces(img, rows - 1, img.width);
        let before = image_pieces(img, rows - 1);
        let row = row_pieces(img, rows - 1, img.width);
        let after = image_pieces(img, rows);
        assert(after == before + row);
        assert forall|k: int| 0 <= k < after.len() implies found_in_rows(
            img,
            #[trigger] after[k],
            rows,
        ) by {
            if k < before.len() {
                assert(found_in_rows(img, before[k], rows - 1));
                let s = choose|s: (u32, u32)|
                    #![trigger piece_at(img, s)]
                    is_seed(img, s) && s.1 < rows - 1 && before[k] == piece_at(img, s);
                assert(is_seed(img, s) && s.1 < rows && after[k] == piece_at(img, s));
            } else {
                assert(found_in_row(img, row[k - before.len()], rows - 1, img.width));
                let s = choose|s: (u32, u32)|
                    #![trigger piece_at(img, s)]
                    is_seed(img, s) && s.1 == rows - 1 && s.0 < img.width && row[k
                        - before.len()] == piece_at(img, s);
                assert(is_seed(img, s) && s.1 < rows && after[k] == piece_at(img, s));
            }
        }
        assert forall|s: (u32, u32)| is_seed(img, s) && s.1 < rows implies after.contains(
            #[trigger] piece_at(img, s),
        ) by {
            if s.1 < rows - 1 {
                assert(before.contains(piece_at(img, s)));
                let k = choose|k: int| 0 <= k < before.len() && before[k] == piece_at(img, s);
                assert(after[k] == piece_at(img, s));
            } else {
                assert(ink_at(img, s));
                assert(row.contains(piece_at(img, s)));
                let k = choose|k: int| 0 <= k < row.len() && row[k] == piece_at(img, s);
                assert(after[before.len() + k] == piece_at(img, s));
            }
        }
    }
}

/// Each ink pixel of an image belongs to one of its pieces.
pub proof fn lemma_ink_is_in_a_piece(img: Bitmap, q: (u32, u32))
    requires
        0 <= img.width <= u32::MAX + 1,
        0 <= img.height <= u32::MAX + 1,
        ink_at(img, q),
    ensures
        exists|k: int|
            0 <= k < image_pieces(img, img.height).len() && (#[trigger] image_pieces(
                img,
                img.height,
            )[k]).pixels.contains(q),
{
    lemma_ink_has_seed(img, q);
    let s = choose|s: (u32, u32)| is_seed(img, s) && #[trigger] connected(img, s, q);
    lemma_image_pieces(img, img.height);
    assert(ink_at(img, s));
    let pieces = image_pieces(img, img.height);
    assert(pieces.contains(piece_at(img, s)));
    let k = choose|k: int| 0 <= k < pieces.len() && pieces[k] == piece_at(img, s);
    assert(pieces[k].pixels.contains(q));
}

/// Two pixels belong to the same piece of an image exactly when a walk over
/// ink leads from one to the other. Pixels that touch at a corner only, with
/// no other way between them, therefore belong to different pieces.
pub proof fn lemma_same_piece_iff_connected(img: Bitmap, k: int, p: (u32, u32), q: (u32, u32))
    requires
        0 <= img.width <= u32::MAX + 1,
        0 <= img.height <= u32::MAX + 1,
        0 <= k < image_pieces(img, img.height).len(),
        image_pieces(img, img.height)[k].pixels.contains(p),
    ensures
        image_pieces(img, img.height)[k].pixels.contains(q) <==> connected(img, p, q),
{
    lemma_image_pieces(img, img.height);
    let pieces = image_pieces(img, img.height);
    assert(found_in_rows(img, pieces[k], img.height));
    let s = choose|s: (u32, u32)|
        #![trigger piece_at(img, s)]
        is_seed(img, s) && s.1 < img.height && pieces[k] == piece_at(img, s);
    assert(connected(img, s, p));
    lemma_connected_symmetric(img, s, p);
    if pieces[k].pixels.contains(q) {
        assert(connected(img, s, q));
        lemma_connected_transitive(img, p, s, q);
    }
    if connected(img, p, q) {
        lemma_connected_transitive(img, s, p, q);
    }
}

/// No pixel belongs to two pieces of an image.
pub proof fn lemma_pieces_apart(img: Bitmap, k: int, l: int, q: (u32, u32))
    requires
        0 <= img.width <= u32::MAX + 1,
        0 <= img.height <= u32::MAX + 1,
        0 <= k < image_pieces(img, img.height).len(),
        0 <= l < image_pieces(img, img.height).len(),
        image_pieces(img, img.height)[k].pixels.contains(q),
        image_pieces(img, img.height)[l].pixels.contains(q),
    ensures
        image_pieces(img, img.height)[k] == image_pieces(img, img.height)[l],
{
    lemma_image_pieces(img, img.height);
    let pieces = image_pieces(img, img.height);
    assert(found_in_rows(img, pieces[k], img.height));
    assert(found_in_rows(img, pieces[l], img.height));
    let s = choose|s: (u32, u32)|
        #![trigger piece_at(img, s)]
        is_seed(img, s) && s.1 < img.height && pieces[k] == piece_at(img, s);
    let t = choose|t: (u32, u32)|
        #![trigger piece_at(img, t)]
        is_seed(img, t) && t.1 < img.height && pieces[l] == piece_at(img, t);
    lemma_seeds_apart(img, s, t, q);
}

} // verus!
