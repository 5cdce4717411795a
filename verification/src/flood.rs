//! Finding the pieces of an image: each connected group of ink pixels is cut
//! out of a working copy of the image.

use crate::connect::adjacent;
use crate::connect::closed;
use crate::connect::component;
use crate::connect::connected;
use crate::connect::has_gray;
use crate::connect::has_ink;
use crate::connect::image_pieces;
use crate::connect::ink_at;
use crate::connect::is_path;
use crate::connect::is_seed;
use crate::connect::lemma_closed_holds_component;
use crate::connect::lemma_closed_path;
use crate::connect::lemma_component_closed;
use crate::connect::lemma_connected_refl;
use crate::connect::lemma_connected_step;
use crate::connect::lemma_path_transfer;
use crate::connect::piece_at;
use crate::connect::row_pieces;
use crate::connect::scan_before;
use crate::ocs::piece_models;
use crate::ocs::Error;
use crate::ocs::Piece;
use crate::raster::lemma_offset_in_range;
use crate::raster::lemma_offset_injective;
use crate::raster::Bitmap;
use crate::raster::GrayBitmap;
use crate::raster::BACKGROUND;
use crate::raster::INK;
use vstd::prelude::*;

verus! {

/// The number of ink samples among the first `n`.
pub open spec fn ink_count(data: Seq<u8>, n: int) -> nat
    decreases n,
{
    if n <= 0 {
        0
    } else {
        ink_count(data, n - 1) + if data[n - 1] == INK {
            1nat
        } else {
            0nat
        }
    }
}

/// Turning one ink sample into background leaves one ink sample less.
pub proof fn lemma_ink_count_erase(data: Seq<u8>, n: int, at: int)
    requires
        0 <= at < n <= data.len(),
        data[at] == INK,
    ensures
        ink_count(data.update(at, BACKGROUND), n) + 1 == ink_count(data, n),
    decreases n,
{
    if at < n - 1 {
        lemma_ink_count_erase(data, n - 1, at);
    } else {
        lemma_ink_count_same(data, data.update(at, BACKGROUND), n - 1);
    }
}

/// The number of ink samples among the first `n` depends on these only.
pub proof fn lemma_ink_count_same(a: Seq<u8>, b: Seq<u8>, n: int)
    requires
        0 <= n <= a.len(),
        n <= b.len(),
        forall|i: int| 0 <= i < n ==> a[i] == b[i],
    ensures
        ink_count(a, n) == ink_count(b, n),
    decreases n,
{
    if n > 0 {
        lemma_ink_count_same(a, b, n - 1);
    }
}

/// `now` is `start` with the pixels of `erased` turned into background.
pub open spec fn erased_from(start: Bitmap, erased: Set<(u32, u32)>, now: Bitmap) -> bool {
    &&& start.wf()
    &&& start.width <= u32::MAX
    &&& start.height <= u32::MAX
    &&& now.width == start.width
    &&& now.height == start.height
    &&& now.data.len() == start.data.len()
    &&& forall|x: int, y: int|
        start.inside(x, y) ==> #[trigger] now.pixel(x, y) == if erased.contains(
            (x as u32, y as u32),
        ) {
            BACKGROUND
        } else {
            start.pixel(x, y)
        }
}

/// The state of cutting out the piece at `pixels[0]`: each pixel gathered
/// so far holds ink in `start` and is connected to the first, and `now` is
/// `start` without the pixels gathered.
pub open spec fn filling(start: Bitmap, pixels: Seq<(u32, u32)>, now: Bitmap) -> bool {
    &&& pixels.len() > 0
    &&& forall|k: int|
        0 <= k < pixels.len() ==> ink_at(start, #[trigger] pixels[k]) && connected(
            start,
            pixels[0],
            pixels[k],
        )
    &&& erased_from(start, pixels.to_set(), now)
}

/// Setting a pixel that holds ink to background erases that pixel and no
/// other.
pub proof fn lemma_erase_pixel(start: Bitmap, erased: Set<(u32, u32)>, now: Bitmap, x: u32, y: u32)
    requires
        erased_from(start, erased, now),
        start.inside(x as int, y as int),
    ensures
        erased_from(
            start,
            erased.insert((x, y)),
            now.with_pixel(x as int, y as int, BACKGROUND),
        ),
        0 <= now.offset(x as int, y as int) < now.width * now.height,
        now.offset(x as int, y as int) < now.data.len(),
{
    lemma_offset_in_range(start, x as int, y as int);
    let next = now.with_pixel(x as int, y as int, BACKGROUND);
    assert forall|a: int, b: int| start.inside(a, b) implies #[trigger] next.pixel(a, b)
        == if erased.insert((x, y)).contains((a as u32, b as u32)) {
        BACKGROUND
    } else {
        start.pixel(a, b)
    } by {
        lemma_offset_in_range(start, a, b);
        if a == x && b == y {
        } else {
            if now.offset(a, b) == now.offset(x as int, y as int) {
                lemma_offset_injective(now, a, b, x as int, y as int);
            }
            assert(next.pixel(a, b) == now.pixel(a, b));
        }
    }
}

/// Looks at the pixel `(x, y)`, which is adjacent to the gathered pixel
/// `from`: if it still holds ink it is gathered and erased.
fn visit(
    image: &mut GrayBitmap,
    pixels: &mut Vec<(u32, u32)>,
    x: u32,
    y: u32,
    Ghost(start): Ghost<Bitmap>,
    Ghost(from): Ghost<(u32, u32)>,
)
    requires
        filling(start, old(pixels)@, old(image)@),
        old(pixels)@.contains(from),
        adjacent(from, (x, y)),
        start.inside(x as int, y as int),
    ensures
        filling(start, final(pixels)@, final(image)@),
        old(pixels)@.len() <= final(pixels)@.len(),
        forall|k: int| 0 <= k < old(pixels)@.len() ==> final(pixels)@[k] == old(pixels)@[k],
        ink_at(start, (x, y)) ==> final(pixels)@.contains((x, y)),
        ink_count(final(image)@.data, start.width * start.height) + final(pixels)@.len()
            == ink_count(old(image)@.data, start.width * start.height) + old(pixels)@.len(),
{
    let ghost before = pixels@;
    let ghost now = image@;
    proof {
        lemma_offset_in_range(start, x as int, y as int);
    }
    if image.get_pixel(x, y) == INK {
        proof {
            assert(!before.to_set().contains((x, y)));
            assert(ink_at(start, (x, y)));
            lemma_connected_step(start, before[0], from, (x, y));
            lemma_erase_pixel(start, before.to_set(), now, x, y);
            lemma_ink_count_erase(
                now.data,
                start.width * start.height,
                now.offset(x as int, y as int),
            );
        }
        pixels.push((x, y));
        image.put_pixel(x, y, BACKGROUND);
        proof {
            assert(pixels@.to_set() =~= before.to_set().insert((x, y))) by {
                assert forall|p: (u32, u32)| pixels@.to_set().contains(p) == before.to_set().insert(
                    (x, y),
                ).contains(p) by {
                    if before.contains(p) {
                        let k = choose|k: int| 0 <= k < before.len() && before[k] == p;
                        assert(pixels@[k] == p);
                    }
                    if p == (x, y) {
                        assert(pixels@[before.len() as int] == p);
                    }
                    if pixels@.contains(p) {
                        let k = choose|k: int| 0 <= k < pixels@.len() && pixels@[k] == p;
                        if k < before.len() {
                            assert(before[k] == p);
                        }
                    }
                }
            }
            assert(pixels@[before.len() as int] == (x, y));
            assert forall|k: int| 0 <= k < pixels@.len() implies ink_at(
                start,
                #[trigger] pixels@[k],
            ) && connected(start, pixels@[0], pixels@[k]) by {
                if k < before.len() {
                    assert(pixels@[k] == before[k]);
                }
            }
        }
    } else {
        proof {
            if ink_at(start, (x, y)) {
                assert(before.to_set().contains((x, y)));
            }
        }
    }
}

/// Cuts the piece at `(x, y)` out of the image: gathers the ink pixels that
/// a walk over ink from `(x, y)` reaches, and erases them from the image.
pub fn cut_piece(x: u32, y: u32, image: &mut GrayBitmap) -> (r: Piece)
    requires
        old(image)@.is_ink(x as int, y as int),
        old(image)@.width <= 0x10000,
        old(image)@.height <= 0x10000,
    ensures
        r@ == piece_at(old(image)@, (x, y)),
        r@.wf(),
        erased_from(old(image)@, component(old(image)@, (x, y)), final(image)@),
{
    let (image_width, image_height) = image.dimensions();
    let ghost start = image@;
    let ghost cells: int = start.width * start.height;
    let mut piece_pixels: Vec<(u32, u32)> = Vec::new();
    piece_pixels.push((x, y));
    proof {
        lemma_connected_refl(start, (x, y));
        assert(erased_from(start, Set::empty(), start));
        lemma_erase_pixel(start, Set::empty(), start, x, y);
        assert(piece_pixels@.to_set() =~= Set::<(u32, u32)>::empty().insert((x, y))) by {
            assert(piece_pixels@[0] == (x, y));
        }
    }
    image.put_pixel(x, y, BACKGROUND);
    let mut cur_pix_idx: usize = 0;
    while cur_pix_idx < piece_pixels.len()
        invariant
            start == old(image)@,
            cells == start.width * start.height,
            image_width == start.width,
            image_height == start.height,
            start.width <= 0x10000,
            start.height <= 0x10000,
            filling(start, piece_pixels@, image@),
            piece_pixels@[0] == (x, y),
            cur_pix_idx <= piece_pixels@.len(),
            forall|k: int, q: (u32, u32)|
                0 <= k < cur_pix_idx && #[trigger] adjacent(piece_pixels@[k], q) && ink_at(
                    start,
                    q,
                ) ==> piece_pixels@.contains(q),
        decreases ink_count(image@.data, cells) + piece_pixels@.len() - cur_pix_idx,
    {
        let (px, py) = piece_pixels[cur_pix_idx];
        let ghost here = (px, py);
        let ghost gathered = piece_pixels@;
        assert(ink_at(start, piece_pixels@[cur_pix_idx as int]));
        if px > 0 {
            visit(image, &mut piece_pixels, px - 1, py, Ghost(start), Ghost(here));
        }
        let ghost after_left = piece_pixels@;
        if px < image_width - 1 {
            assert(after_left[cur_pix_idx as int] == here);
            visit(image, &mut piece_pixels, px + 1, py, Ghost(start), Ghost(here));
        }
        let ghost after_right = piece_pixels@;
        if py > 0 {
            assert(after_right[cur_pix_idx as int] == here);
            visit(image, &mut piece_pixels, px, py - 1, Ghost(start), Ghost(here));
        }
        let ghost after_up = piece_pixels@;
        if py < image_height - 1 {
            assert(after_up[cur_pix_idx as int] == here);
            visit(image, &mut piece_pixels, px, py + 1, Ghost(start), Ghost(here));
        }
        proof {
            let all = piece_pixels@;
            assert forall|p: (u32, u32)| after_left.contains(p) implies all.contains(p) by {
                let k = choose|k: int| 0 <= k < after_left.len() && after_left[k] == p;
                assert(after_right[k] == p);
                assert(after_up[k] == p);
                assert(all[k] == p);
            }
            assert forall|p: (u32, u32)| after_right.contains(p) implies all.contains(p) by {
                let k = choose|k: int| 0 <= k < after_right.len() && after_right[k] == p;
                assert(after_up[k] == p);
                assert(all[k] == p);
            }
            assert forall|p: (u32, u32)| after_up.contains(p) implies all.contains(p) by {
                let k = choose|k: int| 0 <= k < after_up.len() && after_up[k] == p;
                assert(all[k] == p);
            }
            assert forall|p: (u32, u32)| gathered.contains(p) implies all.contains(p) by {
                let k = choose|k: int| 0 <= k < gathered.len() && gathered[k] == p;
                assert(after_left[k] == p);
            }
            assert forall|k: int, q: (u32, u32)|
                0 <= k < cur_pix_idx + 1 && #[trigger] adjacent(all[k], q) && ink_at(
                    start,
                    q,
                ) implies all.contains(q) by {
                assert(all[k] == gathered[k]) by {
                    assert(after_left[k] == gathered[k]);
                    assert(after_right[k] == after_left[k]);
                    assert(after_up[k] == after_right[k]);
                }
                if k < cur_pix_idx {
                    assert(gathered.contains(q));
                } else {
                    assert(all[k] == here);
                    if q.1 == py && q.0 + 1 == px {
                        assert(after_left.contains(q));
                    } else if q.1 == py && px + 1 == q.0 {
                        assert(after_right.contains(q));
                    } else if q.0 == px && q.1 + 1 == py {
                        assert(after_up.contains(q));
                    } else {
                        assert(q.0 == px && py + 1 == q.1);
                    }
                }
            }
        }
        cur_pix_idx = cur_pix_idx + 1;
    }
    proof {
        let set = piece_pixels@.to_set();
        let whole = component(start, (x, y));
        assert(closed(start, set)) by {
            assert forall|p: (u32, u32), q: (u32, u32)|
                set.contains(p) && #[trigger] adjacent(p, q) && ink_at(
                    start,
                    q,
                ) implies set.contains(q) by {
                let k = choose|k: int| 0 <= k < piece_pixels@.len() && piece_pixels@[k] == p;
                assert(adjacent(piece_pixels@[k], q));
            }
        }
        assert(set.contains((x, y))) by {
            assert(piece_pixels@[0] == (x, y));
        }
        lemma_closed_holds_component(start, set, (x, y));
        assert forall|p: (u32, u32)| set.contains(p) implies whole.contains(p) by {
            let k = choose|k: int| 0 <= k < piece_pixels@.len() && piece_pixels@[k] == p;
            assert(connected(start, piece_pixels@[0], piece_pixels@[k]));
        }
        assert(set =~= whole);
        assert forall|k: int| 0 <= k < piece_pixels@.len() implies (#[trigger] piece_pixels@[k]).0
            <= u16::MAX && piece_pixels@[k].1 <= u16::MAX by {
            assert(ink_at(start, piece_pixels@[k]));
        }
    }
    Piece::new(piece_pixels)
}

/// The pixel `q` is scanned before the scan comes to column `x` of row `y`.
pub open spec fn comes_before(q: (u32, u32), x: int, y: int) -> bool {
    q.1 < y || (q.1 == y && q.0 < x)
}

/// Each of the pixels holds ink.
pub open spec fn all_ink(start: Bitmap, pixels: Set<(u32, u32)>) -> bool {
    forall|q: (u32, u32)| #[trigger] pixels.contains(q) ==> ink_at(start, q)
}

/// Each of the pixels is reached by a walk over ink from a pixel scanned
/// before the scan comes to column `x` of row `y`.
#[verifier::opaque]
pub open spec fn rooted(start: Bitmap, pixels: Set<(u32, u32)>, x: int, y: int) -> bool {
    forall|q: (u32, u32)| #[trigger]
        pixels.contains(q) ==> exists|s: (u32, u32)|
            comes_before(s, x, y) && #[trigger] connected(start, s, q)
}

/// Each ink pixel scanned before the scan comes to column `x` of row `y` is
/// among the pixels.
#[verifier::opaque]
pub open spec fn swept(start: Bitmap, pixels: Set<(u32, u32)>, x: int, y: int) -> bool {
    forall|q: (u32, u32)|
        #[trigger] ink_at(start, q) && comes_before(q, x, y) ==> pixels.contains(q)
}

/// No pixel scanned before the scan comes to column `x` of row `y` is grey.
#[verifier::opaque]
pub open spec fn clean(start: Bitmap, x: int, y: int) -> bool {
    forall|a: int, b: int|
        start.inside(a, b) && (b < y || (b == y && a < x)) ==> #[trigger] start.pixel(a, b) == INK
            || start.pixel(a, b) == BACKGROUND
}

/// The state of the scan when it comes to column `x` of row `y`. `now` is
/// `start` without the pixels of the pieces found, which are `erased`. Each
/// of these holds ink and is reached from a pixel scanned before, each ink
/// pixel scanned before is among them, and no pixel scanned before is grey.
pub open spec fn scanning(
    start: Bitmap,
    erased: Set<(u32, u32)>,
    now: Bitmap,
    x: int,
    y: int,
) -> bool {
    &&& erased_from(start, erased, now)
    &&& closed(start, erased)
    &&& all_ink(start, erased)
    &&& rooted(start, erased, x, y)
    &&& swept(start, erased, x, y)
    &&& clean(start, x, y)
}

/// A walk over ink that starts outside a closed set stays outside it.
pub proof fn lemma_path_avoids(
    img: Bitmap,
    pixels: Set<(u32, u32)>,
    path: Seq<(u32, u32)>,
    i: int,
)
    requires
        closed(img, pixels),
        is_path(img, path),
        !pixels.contains(path[0]),
        0 <= i < path.len(),
    ensures
        !pixels.contains(path[i]),
    decreases i,
{
    if i > 0 {
        lemma_path_avoids(img, pixels, path, i - 1);
        assert(adjacent(path[i - 1], path[i - 1 + 1]));
        assert(adjacent(path[i], path[i - 1]));
        assert(ink_at(img, path[i - 1]));
    }
}

/// What is connected to a pixel that was not erased, in an image from which
/// a closed set of ink pixels was erased, is what was connected to it before.
pub proof fn lemma_component_survives(
    start: Bitmap,
    erased: Set<(u32, u32)>,
    now: Bitmap,
    p: (u32, u32),
)
    requires
        erased_from(start, erased, now),
        closed(start, erased),
        ink_at(now, p),
    ensures
        component(now, p) == component(start, p),
        !erased.contains(p),
        ink_at(start, p),
{
    assert(!erased.contains(p));
    assert(now.pixel(p.0 as int, p.1 as int) == start.pixel(p.0 as int, p.1 as int));
    assert forall|q: (u32, u32)| component(now, p).contains(q) implies component(
        start,
        p,
    ).contains(q) by {
        let path = choose|path: Seq<(u32, u32)>| #[trigger]
            is_path(now, path) && path[0] == p && path.last() == q;
        assert forall|i: int| 0 <= i < path.len() implies ink_at(start, #[trigger] path[i]) by {
            assert(ink_at(now, path[i]));
            assert(now.pixel(path[i].0 as int, path[i].1 as int) == INK);
        }
        lemma_path_transfer(now, start, path);
    }
    assert forall|q: (u32, u32)| component(start, p).contains(q) implies component(
        now,
        p,
    ).contains(q) by {
        let path = choose|path: Seq<(u32, u32)>| #[trigger]
            is_path(start, path) && path[0] == p && path.last() == q;
        assert forall|i: int| 0 <= i < path.len() implies ink_at(now, #[trigger] path[i]) by {
            lemma_path_avoids(start, erased, path, i);
            assert(ink_at(start, path[i]));
            assert(now.pixel(path[i].0 as int, path[i].1 as int) == start.pixel(
                path[i].0 as int,
                path[i].1 as int,
            ));
        }
        lemma_path_transfer(start, now, path);
    }
    assert(component(now, p) =~= component(start, p));
}

/// An ink pixel that was not erased, while each ink pixel scanned before it
/// was, is the pixel at which its piece is discovered.
pub proof fn lemma_seed_found(start: Bitmap, erased: Set<(u32, u32)>, p: (u32, u32))
    requires
        closed(start, erased),
        swept(start, erased, p.0 as int, p.1 as int),
        ink_at(start, p),
        !erased.contains(p),
    ensures
        is_seed(start, p),
{
    reveal(swept);
    assert forall|q: (u32, u32)| scan_before(q, p) implies !#[trigger] connected(
        start,
        q,
        p,
    ) by {
        if connected(start, q, p) {
            let path = choose|path: Seq<(u32, u32)>| #[trigger]
                is_path(start, path) && path[0] == q && path.last() == p;
            assert(ink_at(start, path[0]));
            assert(comes_before(q, p.0 as int, p.1 as int));
            lemma_closed_path(start, erased, path, path.len() - 1);
        }
    }
}

/// A pixel that was erased is not the pixel at which a piece is discovered.
pub proof fn lemma_erased_no_seed(start: Bitmap, erased: Set<(u32, u32)>, p: (u32, u32))
    requires
        rooted(start, erased, p.0 as int, p.1 as int),
        erased.contains(p),
    ensures
        !is_seed(start, p),
{
    reveal(rooted);
    let s = choose|s: (u32, u32)|
        comes_before(s, p.0 as int, p.1 as int) && #[trigger] connected(start, s, p);
    assert(scan_before(s, p));
}

/// Erasing first one set of pixels and then another erases their union.
pub proof fn lemma_erased_twice(
    start: Bitmap,
    first: Set<(u32, u32)>,
    now: Bitmap,
    second: Set<(u32, u32)>,
    after: Bitmap,
)
    requires
        erased_from(start, first, now),
        erased_from(now, second, after),
    ensures
        erased_from(start, first.union(second), after),
{
    let both = first.union(second);
    assert forall|a: int, b: int| start.inside(a, b) implies #[trigger] after.pixel(a, b)
        == if both.contains((a as u32, b as u32)) {
        BACKGROUND
    } else {
        start.pixel(a, b)
    } by {
        assert(now.inside(a, b));
        let here = now.pixel(a, b);
    }
}

/// The union of two closed sets of ink pixels is one.
pub proof fn lemma_closed_union(start: Bitmap, first: Set<(u32, u32)>, second: Set<(u32, u32)>)
    requires
        closed(start, first),
        closed(start, second),
        all_ink(start, first),
        all_ink(start, second),
    ensures
        closed(start, first.union(second)),
        all_ink(start, first.union(second)),
{
}

/// Pixels rooted in what was scanned stay rooted as the scan goes on, and a
/// piece is rooted in the pixel at which it was discovered.
pub proof fn lemma_rooted_grows(
    start: Bitmap,
    erased: Set<(u32, u32)>,
    x: int,
    y: int,
    p: (u32, u32),
    next_x: int,
    next_y: int,
)
    requires
        rooted(start, erased, x, y),
        forall|s: (u32, u32)| comes_before(s, x, y) ==> comes_before(s, next_x, next_y),
        comes_before(p, next_x, next_y),
    ensures
        rooted(start, erased, next_x, next_y),
        rooted(start, erased.union(component(start, p)), next_x, next_y),
{
    reveal(rooted);
    let piece = component(start, p);
    let more = erased.union(piece);
    assert forall|q: (u32, u32)| #[trigger] more.contains(q) implies exists|s: (u32, u32)|
        comes_before(s, next_x, next_y) && #[trigger] connected(start, s, q) by {
        if erased.contains(q) {
            let s = choose|s: (u32, u32)|
                comes_before(s, x, y) && #[trigger] connected(start, s, q);
            assert(comes_before(s, next_x, next_y) && connected(start, s, q));
        } else {
            assert(piece.contains(q));
            assert(comes_before(p, next_x, next_y) && connected(start, p, q));
        }
    }
    assert forall|q: (u32, u32)| #[trigger] erased.contains(q) implies exists|s: (u32, u32)|
        comes_before(s, next_x, next_y) && #[trigger] connected(start, s, q) by {
        assert(more.contains(q));
    }
}

/// Once the pixel at column `x` of row `y` is dealt with, each ink pixel
/// scanned before the next column is among the pixels.
pub proof fn lemma_swept_next(
    start: Bitmap,
    erased: Set<(u32, u32)>,
    x: u32,
    y: u32,
    more: Set<(u32, u32)>,
)
    requires
        swept(start, erased, x as int, y as int),
        erased.subset_of(more),
        ink_at(start, (x, y)) ==> more.contains((x, y)),
    ensures
        swept(start, more, x + 1, y as int),
{
    reveal(swept);
    assert forall|q: (u32, u32)| #[trigger]
        ink_at(start, q) && comes_before(q, x + 1, y as int) implies more.contains(q) by {
        if q != (x, y) {
            assert(comes_before(q, x as int, y as int));
            assert(erased.contains(q));
        }
    }
}

/// Once the pixel at column `x` of row `y` is found to be ink or
/// background, no pixel scanned before the next column is grey.
pub proof fn lemma_clean_next(start: Bitmap, x: u32, y: u32)
    requires
        clean(start, x as int, y as int),
        start.pixel(x as int, y as int) == INK || start.pixel(x as int, y as int) == BACKGROUND,
    ensures
        clean(start, x + 1, y as int),
{
    reveal(clean);
}

/// After the piece at `(x, y)` was cut out, the scan goes on at the next
/// column with the piece's pixels erased as well.
pub proof fn lemma_scan_cut(
    start: Bitmap,
    erased: Set<(u32, u32)>,
    now: Bitmap,
    x: u32,
    y: u32,
    after: Bitmap,
)
    requires
        scanning(start, erased, now, x as int, y as int),
        start.inside(x as int, y as int),
        now.pixel(x as int, y as int) == INK,
        erased_from(now, component(now, (x, y)), after),
    ensures
        component(now, (x, y)) == component(start, (x, y)),
        is_seed(start, (x, y)),
        scanning(start, erased.union(component(start, (x, y))), after, x + 1, y as int),
{
    let p = (x, y);
    lemma_component_survives(start, erased, now, p);
    lemma_seed_found(start, erased, p);
    let piece = component(start, p);
    lemma_erased_twice(start, erased, now, piece, after);
    lemma_component_closed(start, p);
    lemma_closed_union(start, erased, piece);
    lemma_rooted_grows(start, erased, x as int, y as int, p, x + 1, y as int);
    lemma_connected_refl(start, p);
    assert(piece.contains(p));
    lemma_swept_next(start, erased, x, y, erased.union(piece));
    lemma_clean_next(start, x, y);
}

/// Where the scan meets background, nothing is discovered and the scan goes
/// on at the next column.
pub proof fn lemma_scan_background(
    start: Bitmap,
    erased: Set<(u32, u32)>,
    now: Bitmap,
    x: u32,
    y: u32,
)
    requires
        scanning(start, erased, now, x as int, y as int),
        start.inside(x as int, y as int),
        now.pixel(x as int, y as int) == BACKGROUND,
    ensures
        !is_seed(start, (x, y)),
        scanning(start, erased, now, x + 1, y as int),
{
    let p = (x, y);
    if ink_at(start, p) {
        assert(erased.contains(p));
        lemma_erased_no_seed(start, erased, p);
    }
    lemma_rooted_grows(start, erased, x as int, y as int, p, x + 1, y as int);
    lemma_swept_next(start, erased, x, y, erased);
    lemma_clean_next(start, x, y);
}

/// Where the scan meets a pixel that is neither ink nor background, the
/// image has such a pixel.
pub proof fn lemma_scan_gray(start: Bitmap, erased: Set<(u32, u32)>, now: Bitmap, x: u32, y: u32)
    requires
        erased_from(start, erased, now),
        start.inside(x as int, y as int),
        now.pixel(x as int, y as int) != INK,
        now.pixel(x as int, y as int) != BACKGROUND,
    ensures
        has_gray(start),
{
    assert(!erased.contains((x, y)));
    assert(start.pixel(x as int, y as int) == now.pixel(x as int, y as int));
}

/// Before the scan nothing is erased.
pub proof fn lemma_scan_start(start: Bitmap)
    requires
        start.wf(),
        start.width <= u32::MAX,
        start.height <= u32::MAX,
    ensures
        scanning(start, Set::empty(), start, 0, 0),
{
    reveal(rooted);
    reveal(swept);
    reveal(clean);
}

/// At the end of a row the scan goes on at the start of the next.
pub proof fn lemma_scan_next_row(start: Bitmap, erased: Set<(u32, u32)>, now: Bitmap, y: u32)
    requires
        scanning(start, erased, now, start.width, y as int),
    ensures
        scanning(start, erased, now, 0, y + 1),
{
    reveal(rooted);
    reveal(swept);
    reveal(clean);
    assert forall|q: (u32, u32)| #[trigger] erased.contains(q) implies exists|s: (u32, u32)|
        comes_before(s, 0, y + 1) && #[trigger] connected(start, s, q) by {
        let s = choose|s: (u32, u32)|
            comes_before(s, start.width, y as int) && #[trigger] connected(start, s, q);
        assert(comes_before(s, 0, y + 1) && connected(start, s, q));
    }
    assert forall|q: (u32, u32)| #[trigger]
        ink_at(start, q) && comes_before(q, 0, y + 1) implies erased.contains(q) by {
        assert(comes_before(q, start.width, y as int));
    }
}

/// After the scan of the whole image no pixel was found grey, and all ink
/// was erased.
pub proof fn lemma_scan_end(start: Bitmap, erased: Set<(u32, u32)>, now: Bitmap)
    requires
        scanning(start, erased, now, 0, start.height),
    ensures
        !has_gray(start),
        has_ink(start) <==> exists|q: (u32, u32)| erased.contains(q),
{
    reveal(swept);
    reveal(clean);
    if has_gray(start) {
        let (a, b) = choose|a: int, b: int|
            start.inside(a, b) && #[trigger] start.pixel(a, b) != INK && start.pixel(a, b)
                != BACKGROUND;
        assert(false);
    }
    if has_ink(start) {
        let (a, b) = choose|a: int, b: int| #[trigger] start.is_ink(a, b);
        assert(ink_at(start, (a as u32, b as u32)));
        assert(comes_before((a as u32, b as u32), 0, start.height));
        assert(erased.contains((a as u32, b as u32)));
    }
    if exists|q: (u32, u32)| erased.contains(q) {
        let q = choose|q: (u32, u32)| erased.contains(q);
        assert(ink_at(start, q));
        assert(start.is_ink(q.0 as int, q.1 as int));
    }
}

/// Cuts the image into its pieces, in the order in which a scan row after
/// row, each row from the left, discovers them. An image with a pixel that
/// is neither ink nor background has no pieces.
pub fn split_in_pieces(image: GrayBitmap) -> (r: Result<Vec<Piece>, Error>)
    requires
        image@.width <= 0x10000,
        image@.height <= 0x10000,
    ensures
        has_gray(image@) <==> r is Err,
        r matches Err(e) ==> e == Error::ImageWithGrayIsInvalid,
        r matches Ok(pieces) ==> {
            &&& piece_models(pieces@) == image_pieces(image@, image@.height)
            &&& pieces@.len() > 0 <==> has_ink(image@)
            &&& forall|k: int|
                0 <= k < pieces@.len() ==> (#[trigger] pieces@[k])@.wf() && pieces@[k]@.img is None
            &&& forall|k: int, p: (u32, u32)|
                0 <= k < pieces@.len() && #[trigger] pieces@[k]@.pixels.contains(p) ==> ink_at(
                    image@,
                    p,
                )
        },
{
    let ghost start = image@;
    let mut work = image;
    let (width, height) = work.dimensions();
    let mut pieces: Vec<Piece> = Vec::new();
    let ghost mut erased: Set<(u32, u32)> = Set::empty();
    let mut y: u32 = 0;
    proof {
        lemma_scan_start(start);
    }
    assert(piece_models(pieces@) == image_pieces(start, 0));
    while y < height
        invariant
            start.width <= 0x10000,
            start.height <= 0x10000,
            width == start.width,
            height == start.height,
            y <= height,
            start == image@,
            scanning(start, erased, work@, 0, y as int),
            piece_models(pieces@) == image_pieces(start, y as int),
            pieces@.len() > 0 <==> exists|q: (u32, u32)| erased.contains(q),
            forall|k: int|
                0 <= k < pieces@.len() ==> (#[trigger] pieces@[k])@.wf() && pieces@[k]@.img is None,
            forall|k: int, p: (u32, u32)|
                0 <= k < pieces@.len() && #[trigger] pieces@[k]@.pixels.contains(p) ==> ink_at(
                    start,
                    p,
                ),
        decreases height - y,
    {
        let mut x: u32 = 0;
        assert(piece_models(pieces@) == image_pieces(start, y as int) + row_pieces(
            start,
            y as int,
            0,
        ));
        while x < width
            invariant
                start.width <= 0x10000,
                start.height <= 0x10000,
                width == start.width,
                height == start.height,
                y < height,
                x <= width,
                start == image@,
                scanning(start, erased, work@, x as int, y as int),
                piece_models(pieces@) == image_pieces(start, y as int) + row_pieces(
                    start,
                    y as int,
                    x as int,
                ),
                pieces@.len() > 0 <==> exists|q: (u32, u32)| erased.contains(q),
                forall|k: int|
                    0 <= k < pieces@.len() ==> (#[trigger] pieces@[k])@.wf() && pieces@[k]@.img
                        is None,
                forall|k: int, p: (u32, u32)|
                    0 <= k < pieces@.len() && #[trigger] pieces@[k]@.pixels.contains(p)
                        ==> ink_at(start, p),
            decreases width - x,
        {
            let ghost now = work@;
            let ghost found = piece_models(pieces@);
            let ghost gone = erased;
            let pixel_color = work.get_pixel(x, y);
            if pixel_color == INK {
                let new_piece = cut_piece(x, y, &mut work);
                proof {
                    lemma_scan_cut(start, gone, now, x, y, work@);
                    lemma_component_closed(start, (x, y));
                    lemma_connected_refl(start, (x, y));
                    erased = gone.union(component(start, (x, y)));
                    assert(erased.contains((x, y)));
                }
                pieces.push(new_piece);
                assert(piece_models(pieces@) == found.push(piece_at(start, (x, y))));
            } else if pixel_color == BACKGROUND {
                proof {
                    lemma_scan_background(start, erased, now, x, y);
                }
            } else {
                proof {
                    lemma_scan_gray(start, erased, now, x, y);
                }
                return Err(Error::ImageWithGrayIsInvalid);
            }
            x = x + 1;
        }
        proof {
            lemma_scan_next_row(start, erased, work@, y);
        }
        y = y + 1;
    }
    proof {
        lemma_scan_end(start, erased, work@);
    }
    Ok(pieces)
}

} // verus!
