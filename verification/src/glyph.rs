//! Learned glyphs: their text form and the library that holds them.

use crate::glyph_image::decoded_rows;
use crate::glyph_image::encoded_rows;
use crate::glyph_image::lemma_rows_round_trip;
use crate::glyph_image::row_texts;
use crate::glyph_image::GlyphImage;
use crate::raster::Bitmap;
use crate::raster::GrayBitmap;
use vstd::prelude::*;

verus! {

/// Why a glyph image cannot be written as text or read back from it.
#[derive(Debug, Clone, Copy, PartialEq, Eq)]
pub enum Error {
    /// A pixel to write is neither ink nor background; its value is given.
    PixelSerializeInvalidValue(u8),
    /// A character to read stands for no pixel; the character is given.
    PixelsDeserializeInvalidValue(char),
    /// There is no row to read an image from.
    EmptyGlyphImage,
    /// The pixels read do not fill the image's width and height exactly.
    GlyphImageSize,
}

/// What a glyph is: an image, how far its ink reaches above and below the
/// baseline of its line, and the text it stands for, if it stands for any.
pub struct GlyphModel {
    pub img: Bitmap,
    pub orig_y: (i16, i16),
    pub characters: Option<Seq<char>>,
}

/// A bitmap that was recognised once, with the text it was recognised as.
#[derive(Debug)]
pub struct Glyph {
    img: GlyphImage,
    orig_y: (i16, i16),
    characters: Option<String>,
}

/// The text of a string that may be absent.
pub open spec fn text_of(text: Option<String>) -> Option<Seq<char>> {
    match text {
        Some(t) => Some(t@),
        None => None,
    }
}

/// The text of a borrowed string that may be absent.
pub open spec fn str_text(text: Option<&str>) -> Option<Seq<char>> {
    match text {
        Some(t) => Some(t@),
        None => None,
    }
}

impl View for Glyph {
    type V = GlyphModel;

    closed spec fn view(&self) -> GlyphModel {
        GlyphModel {
            img: self.img@,
            orig_y: self.orig_y,
            characters: text_of(self.characters),
        }
    }
}

impl Glyph {
    /// A glyph with the given image, offsets from the baseline and text.
    pub fn new(img: GrayBitmap, orig_y: (i16, i16), characters: Option<String>) -> (r: Glyph)
        ensures
            r@ == (GlyphModel { img: img@, orig_y, characters: text_of(characters) }),
    {
        Glyph { img: GlyphImage(img), orig_y, characters }
    }

    /// The text that the glyph stands for, if it stands for any.
    pub fn chars(&self) -> (r: Option<&String>)
        ensures
            r is Some <==> self@.characters is Some,
            r matches Some(t) ==> self@.characters == Some(t@),
    {
        self.characters.as_ref()
    }

    /// The glyph's image.
    pub fn img(&self) -> (r: &GlyphImage)
        ensures
            r@ == self@.img,
    {
        &self.img
    }

    /// How far the glyph's top lies from the top of the baseline, and its
    /// bottom from the bottom of the baseline.
    pub fn orig_y(&self) -> (r: (i16, i16))
        ensures
            r == self@.orig_y,
    {
        self.orig_y
    }
}

/// Whether two texts that may be absent are the same.
fn same_text(a: &Option<String>, b: &Option<String>) -> (r: bool)
    ensures
        r == (text_of(*a) == text_of(*b)),
{
    match (a, b) {
        (Some(x), Some(y)) => *x == *y,
        (None, None) => true,
        _ => false,
    }
}

impl PartialEq for Glyph {
    /// Two glyphs are equal when they have the same image, the same offsets
    /// and the same text.
    fn eq(&self, other: &Glyph) -> (r: bool) {
        let mine = self.img.0.dimensions();
        let theirs = other.img.0.dimensions();
        mine.0 == theirs.0 && mine.1 == theirs.1 && same_samples(
            self.img.0.as_raw(),
            other.img.0.as_raw(),
        ) && self.orig_y.0 == other.orig_y.0 && self.orig_y.1 == other.orig_y.1 && same_text(
            &self.characters,
            &other.characters,
        )
    }
}

impl vstd::std_specs::cmp::PartialEqSpecImpl for Glyph {
    open spec fn obeys_eq_spec() -> bool {
        true
    }

    open spec fn eq_spec(&self, other: &Glyph) -> bool {
        self@ == other@
    }
}

/// The number of positions among the first `n` at which the two runs hold
/// the same sample.
pub open spec fn agreement(a: Seq<u8>, b: Seq<u8>, n: int) -> nat
    decreases n,
{
    if n <= 0 {
        0
    } else {
        agreement(a, b, n - 1) + if a[n - 1] == b[n - 1] {
            1nat
        } else {
            0nat
        }
    }
}

/// How close a stored image is to a query: the number of samples, as far as
/// both have them, that are the same in both.
pub open spec fn proximity(stored: Bitmap, query: Bitmap) -> nat {
    agreement(
        stored.data,
        query.data,
        if stored.data.len() <= query.data.len() {
            stored.data.len() as int
        } else {
            query.data.len() as int
        },
    )
}

/// The stored image is the query: the same size and the same samples.
pub open spec fn same_image(stored: Bitmap, query: Bitmap) -> bool {
    stored.same_size(query) && stored.data == query.data
}

/// The position of the first of the first `n` glyphs whose image is the
/// query, if there is one.
pub open spec fn first_exact(glyphs: Seq<GlyphModel>, query: Bitmap, n: int) -> Option<int>
    decreases n,
{
    if n <= 0 {
        None
    } else {
        match first_exact(glyphs, query, n - 1) {
            Some(i) => Some(i),
            None => if same_image(glyphs[n - 1].img, query) {
                Some(n - 1)
            } else {
                None
            },
        }
    }
}

/// The text that an exact lookup of `query` gives: that of the first glyph
/// with this very image, if there is such a glyph and it has a text.
pub open spec fn exact_text(glyphs: Seq<GlyphModel>, query: Bitmap) -> Option<Seq<char>> {
    match first_exact(glyphs, query, glyphs.len() as int) {
        Some(i) => glyphs[i].characters,
        None => None,
    }
}

/// Glyph `i` comes before glyph `j` when ranked by closeness to the query:
/// it is closer, or as close and stored earlier.
pub open spec fn ranks_before(glyphs: Seq<GlyphModel>, query: Bitmap, i: int, j: int) -> bool {
    proximity(glyphs[i].img, query) > proximity(glyphs[j].img, query) || (proximity(
        glyphs[i].img,
        query,
    ) == proximity(glyphs[j].img, query) && i < j)
}

/// `order` lists the positions of exactly those of the first `n` glyphs that
/// have the query's size, the closest first, and of two that are as close
/// the one stored earlier first.
pub open spec fn is_ranking(
    glyphs: Seq<GlyphModel>,
    query: Bitmap,
    order: Seq<int>,
    n: int,
) -> bool {
    &&& forall|k: int|
        0 <= k < order.len() ==> 0 <= #[trigger] order[k] < n && glyphs[order[k]].img.same_size(
            query,
        )
    &&& forall|i: int|
        0 <= i < n && (#[trigger] glyphs[i]).img.same_size(query) ==> order.contains(i)
    &&& forall|k: int, l: int|
        0 <= k < l < order.len() ==> ranks_before(
            glyphs,
            query,
            #[trigger] order[k],
            #[trigger] order[l],
        )
}

/// `found` is the ranking of the glyphs by closeness to the query: each
/// entry gives a glyph of the query's size with its closeness, every such
/// glyph has its entry, and the entries stand in ranking order.
pub open spec fn is_closest_list(
    glyphs: Seq<GlyphModel>,
    query: Bitmap,
    found: Seq<(usize, &Glyph)>,
) -> bool {
    exists|order: Seq<int>|
        #![auto]
        is_ranking(glyphs, query, order, glyphs.len() as int) && order.len() == found.len()
            && forall|k: int|
            0 <= k < found.len() ==> found[k].0 == proximity(glyphs[order[k]].img, query)
                && found[k].1@ == glyphs[order[k]]
}

/// The position of the glyph that is closest to the query among the first
/// `n`: of the query's size, and ranked before every other such glyph.
pub open spec fn closest(glyphs: Seq<GlyphModel>, query: Bitmap, n: int) -> Option<int>
    decreases n,
{
    if n <= 0 {
        None
    } else {
        let before = closest(glyphs, query, n - 1);
        if !glyphs[n - 1].img.same_size(query) {
            before
        } else {
            match before {
                None => Some(n - 1),
                Some(b) => if proximity(glyphs[n - 1].img, query) > proximity(
                    glyphs[b].img,
                    query,
                ) {
                    Some(n - 1)
                } else {
                    Some(b)
                },
            }
        }
    }
}

/// The store of the glyphs learned so far, in the order in which they were
/// learned.
#[derive(Debug)]
pub struct GlyphLibrary {
    glyphs: Vec<Glyph>,
}

impl View for GlyphLibrary {
    type V = Seq<GlyphModel>;

    closed spec fn view(&self) -> Seq<GlyphModel> {
        Seq::new(self.glyphs@.len(), |i: int| self.glyphs@[i]@)
    }
}

/// Counts the positions at which two runs of samples agree, as far as both
/// reach.
fn count_agreement(a: &Vec<u8>, b: &Vec<u8>) -> (r: usize)
    ensures
        r == agreement(
            a@,
            b@,
            if a@.len() <= b@.len() {
                a@.len() as int
            } else {
                b@.len() as int
            },
        ),
{
    let n: usize = if a.len() <= b.len() {
        a.len()
    } else {
        b.len()
    };
    let mut sum: usize = 0;
    let mut i: usize = 0;
    while i < n
        invariant
            n <= a@.len(),
            n <= b@.len(),
            i <= n,
            sum <= i,
            sum == agreement(a@, b@, i as int),
        decreases n - i,
    {
        if a[i] == b[i] {
            sum = sum + 1;
        }
        i = i + 1;
    }
    sum
}

/// Whether two runs of samples are the same.
fn same_samples(a: &Vec<u8>, b: &Vec<u8>) -> (r: bool)
    ensures
        r == (a@ == b@),
{
    if a.len() != b.len() {
        return false;
    }
    let mut i: usize = 0;
    while i < a.len()
        invariant
            a@.len() == b@.len(),
            i <= a@.len(),
            forall|k: int| 0 <= k < i ==> a@[k] == b@[k],
        decreases a@.len() - i,
    {
        if a[i] != b[i] {
            return false;
        }
        i = i + 1;
    }
    assert(a@ =~= b@);
    true
}

impl GlyphLibrary {
    /// A library without glyphs.
    pub fn new() -> (r: GlyphLibrary)
        ensures
            r@.len() == 0,
    {
        GlyphLibrary { glyphs: Vec::new() }
    }

    /// The number of glyphs in the library.
    pub fn len(&self) -> (r: usize)
        ensures
            r == self@.len(),
    {
        self.glyphs.len()
    }

    /// The glyphs of the library in the order in which they were added.
    pub fn glyphs(&self) -> (r: &Vec<Glyph>)
        ensures
            r@.len() == self@.len(),
            forall|i: int| 0 <= i < r@.len() ==> (#[trigger] r@[i])@ == self@[i],
    {
        &self.glyphs
    }

    /// The text of the first glyph whose image is `glyph_img`: the same size
    /// and the same samples. Nothing if there is no such glyph, or if the
    /// first one has no text.
    pub fn find(&self, glyph_img: &GrayBitmap) -> (r: Option<&str>)
        ensures
            str_text(r) == exact_text(self@, glyph_img@),
    {
        let size = glyph_img.dimensions();
        let raw = glyph_img.as_raw();
        let mut i: usize = 0;
        while i < self.glyphs.len()
            invariant
                i <= self.glyphs@.len(),
                size.0 == glyph_img@.width,
                size.1 == glyph_img@.height,
                raw@ == glyph_img@.data,
                first_exact(self@, glyph_img@, i as int) is None,
            decreases self.glyphs@.len() - i,
        {
            let glyph = &self.glyphs[i];
            let stored = glyph.img.0.dimensions();
            if stored.0 == size.0 && stored.1 == size.1 && same_samples(glyph.img.0.as_raw(), raw) {
                proof {
                    assert(self@[i as int] == glyph@);
                    assert(same_image(self@[i as int].img, glyph_img@));
                    lemma_first_exact_stays(self@, glyph_img@, i + 1, self@.len() as int);
                }
                return match &glyph.characters {
                    Some(text) => Some(text.as_str()),
                    None => None,
                };
            }
            assert(self@[i as int] == glyph@);
            i = i + 1;
        }
        None
    }

    /// The glyphs of the same size as `glyph_img`, each with the number of
    /// samples it shares with `glyph_img`: the closest first, and of two
    /// that are as close the one added earlier first.
    pub fn find_closest(&self, glyph_img: &GrayBitmap) -> (r: Vec<(usize, &Glyph)>)
        ensures
            is_closest_list(self@, glyph_img@, r@),
    {
        let size = glyph_img.dimensions();
        let raw = glyph_img.as_raw();
        let mut found: Vec<(usize, &Glyph)> = Vec::new();
        let ghost mut order: Seq<int> = Seq::empty();
        let mut i: usize = 0;
        while i < self.glyphs.len()
            invariant
                i <= self.glyphs@.len(),
                size.0 == glyph_img@.width,
                size.1 == glyph_img@.height,
                raw@ == glyph_img@.data,
                is_ranking(self@, glyph_img@, order, i as int),
                order.len() == found@.len(),
                forall|k: int|
                    0 <= k < found@.len() ==> (#[trigger] found@[k]).0 == proximity(
                        self@[order[k]].img,
                        glyph_img@,
                    ) && found@[k].1@ == self@[order[k]],
            decreases self.glyphs@.len() - i,
        {
            let glyph = &self.glyphs[i];
            assert(self@[i as int] == glyph@);
            let stored = glyph.img.0.dimensions();
            if stored.0 == size.0 && stored.1 == size.1 {
                let sum = count_agreement(glyph.img.0.as_raw(), raw);
                let mut at: usize = 0;
                while at < found.len() && found[at].0 >= sum
                    invariant
                        at <= found@.len(),
                        forall|k: int| 0 <= k < at ==> (#[trigger] found@[k]).0 >= sum,
                    decreases found@.len() - at,
                {
                    at = at + 1;
                }
                let ghost old_order = order;
                let ghost old_found = found@;
                found.insert(at, (sum, glyph));
                proof {
                    order = old_order.insert(at as int, i as int);
                    assert forall|k: int| 0 <= k < at implies proximity(
                        self@[#[trigger] old_order[k]].img,
                        glyph_img@,
                    ) >= sum by {
                        assert(old_found[k].0 >= sum);
                    }
                    if at < old_order.len() {
                        assert(old_found[at as int].0 < sum);
                    }
                    lemma_ranking_insert(
                        self@,
                        glyph_img@,
                        old_order,
                        i as int,
                        at as int,
                    );
                    assert forall|k: int| 0 <= k < found@.len() implies (#[trigger] found@[k]).0
                        == proximity(self@[order[k]].img, glyph_img@) && found@[k].1@
                        == self@[order[k]] by {
                        if k < at {
                            assert(found@[k] == old_found[k]);
                        } else if k > at {
                            assert(found@[k] == old_found[k - 1]);
                        }
                    }
                }
            } else {
                proof {
                    lemma_ranking_skip(self@, glyph_img@, order, i as int);
                }
            }
            i = i + 1;
        }
        found
    }

    /// Adds a glyph at the end of the library.
    pub fn add_glyph(&mut self, glyph: Glyph)
        ensures
            final(self)@ == old(self)@.push(glyph@),
    {
        self.glyphs.push(glyph);
        assert(self@ =~= old(self)@.push(glyph@));
    }
}

/// An exact match among the first `n` glyphs is still the first among more.
pub proof fn lemma_first_exact_stays(glyphs: Seq<GlyphModel>, query: Bitmap, n: int, m: int)
    requires
        0 <= n <= m,
        first_exact(glyphs, query, n) is Some,
    ensures
        first_exact(glyphs, query, m) == first_exact(glyphs, query, n),
    decreases m - n,
{
    if n < m {
        lemma_first_exact_stays(glyphs, query, n, m - 1);
    }
}

/// A ranking of the first `n` glyphs is one of the first `n + 1` when glyph
/// `n` has another size than the query.
pub proof fn lemma_ranking_skip(glyphs: Seq<GlyphModel>, query: Bitmap, order: Seq<int>, n: int)
    requires
        0 <= n < glyphs.len(),
        is_ranking(glyphs, query, order, n),
        !glyphs[n].img.same_size(query),
    ensures
        is_ranking(glyphs, query, order, n + 1),
{
}

/// Putting glyph `n`, which has the query's size, behind the entries that
/// are at least as close and before those that are less close turns a
/// ranking of the first `n` glyphs into one of the first `n + 1`.
pub proof fn lemma_ranking_insert(
    glyphs: Seq<GlyphModel>,
    query: Bitmap,
    order: Seq<int>,
    n: int,
    at: int,
)
    requires
        0 <= n < glyphs.len(),
        is_ranking(glyphs, query, order, n),
        glyphs[n].img.same_size(query),
        0 <= at <= order.len(),
        forall|k: int|
            0 <= k < at ==> proximity(glyphs[#[trigger] order[k]].img, query) >= proximity(
                glyphs[n].img,
                query,
            ),
        at < order.len() ==> proximity(glyphs[order[at]].img, query) < proximity(
            glyphs[n].img,
            query,
        ),
    ensures
        is_ranking(glyphs, query, order.insert(at, n), n + 1),
{
    let next = order.insert(at, n);
    assert forall|k: int| 0 <= k < next.len() implies 0 <= #[trigger] next[k] < n + 1
        && glyphs[next[k]].img.same_size(query) by {
        if k < at {
            assert(next[k] == order[k]);
        } else if k > at {
            assert(next[k] == order[k - 1]);
        }
    }
    assert forall|i: int| 0 <= i < n + 1 && (#[trigger] glyphs[i]).img.same_size(
        query,
    ) implies next.contains(i) by {
        if i == n {
            assert(next[at] == n);
        } else {
            assert(order.contains(i));
            let k = choose|k: int| 0 <= k < order.len() && order[k] == i;
            if k < at {
                assert(next[k] == i);
            } else {
                assert(next[k + 1] == i);
            }
        }
    }
    assert forall|k: int, l: int| 0 <= k < l < next.len() implies ranks_before(
        glyphs,
        query,
        #[trigger] next[k],
        #[trigger] next[l],
    ) by {
        if l < at {
            assert(next[k] == order[k] && next[l] == order[l]);
        } else if l == at {
            assert(next[k] == order[k]);
        } else if k == at {
            assert(next[l] == order[l - 1]);
            if l - 1 > at {
                assert(ranks_before(glyphs, query, order[at], order[l - 1]));
            }
        } else if k < at {
            assert(next[k] == order[k] && next[l] == order[l - 1]);
        } else {
            assert(next[k] == order[k - 1] && next[l] == order[l - 1]);
        }
    }
}

/// The closest of the first `n` glyphs has the query's size and ranks before
/// every other of them that has; there is none only if none has that size.
pub proof fn lemma_closest_is_best(glyphs: Seq<GlyphModel>, query: Bitmap, n: int)
    requires
        0 <= n <= glyphs.len(),
    ensures
        match closest(glyphs, query, n) {
            None => forall|i: int| 0 <= i < n ==> !(#[trigger] glyphs[i]).img.same_size(query),
            Some(b) => 0 <= b < n && glyphs[b].img.same_size(query) && forall|j: int|
                0 <= j < n && j != b && (#[trigger] glyphs[j]).img.same_size(query)
                    ==> ranks_before(glyphs, query, b, j),
        },
    decreases n,
{
    if n > 0 {
        lemma_closest_is_best(glyphs, query, n - 1);
    }
}

/// The ranking by closeness begins with the closest glyph, and is empty only
/// if no glyph has the query's size.
pub proof fn lemma_ranking_head(glyphs: Seq<GlyphModel>, query: Bitmap, order: Seq<int>)
    requires
        is_ranking(glyphs, query, order, glyphs.len() as int),
    ensures
        order.len() == 0 ==> closest(glyphs, query, glyphs.len() as int) is None,
        order.len() > 0 ==> closest(glyphs, query, glyphs.len() as int) == Some(order[0]),
{
    let n = glyphs.len() as int;
    lemma_closest_is_best(glyphs, query, n);
    match closest(glyphs, query, n) {
        None => {
            if order.len() > 0 {
                assert(glyphs[order[0]].img.same_size(query));
            }
        },
        Some(b) => {
            assert(glyphs[b].img.same_size(query));
            assert(order.contains(b));
            let k = choose|k: int| 0 <= k < order.len() && order[k] == b;
            if k > 0 {
                assert(ranks_before(glyphs, query, order[0], order[k]));
                assert(glyphs[order[0]].img.same_size(query));
            }
        },
    }
}

/// In the ranking by closeness a glyph that shares more samples with the
/// query stands before one that shares fewer.
pub proof fn lemma_closer_ranks_first(
    glyphs: Seq<GlyphModel>,
    query: Bitmap,
    order: Seq<int>,
    k: int,
    l: int,
)
    requires
        is_ranking(glyphs, query, order, glyphs.len() as int),
        0 <= k < order.len(),
        0 <= l < order.len(),
        proximity(glyphs[order[k]].img, query) > proximity(glyphs[order[l]].img, query),
    ensures
        k < l,
{
    if l < k {
        assert(ranks_before(glyphs, query, order[l], order[k]));
    }
}

/// The glyphs have one ranking by closeness to a query and no other.
pub proof fn lemma_ranking_unique(
    glyphs: Seq<GlyphModel>,
    query: Bitmap,
    first: Seq<int>,
    second: Seq<int>,
    n: int,
)
    requires
        0 <= n <= glyphs.len(),
        is_ranking(glyphs, query, first, n),
        is_ranking(glyphs, query, second, n),
    ensures
        first == second,
    decreases first.len(),
{
    if first.len() == 0 {
        if second.len() > 0 {
            assert(glyphs[second[0]].img.same_size(query));
            assert(first.contains(second[0]));
        }
        assert(first =~= second);
    } else {
        assert(glyphs[first[0]].img.same_size(query));
        assert(second.contains(first[0]));
        let at = choose|k: int| 0 <= k < second.len() && second[k] == first[0];
        if at > 0 {
            assert(glyphs[second[0]].img.same_size(query));
            assert(first.contains(second[0]));
            let back = choose|k: int| 0 <= k < first.len() && first[k] == second[0];
            assert(ranks_before(glyphs, query, second[0], second[at]));
            if back > 0 {
                assert(ranks_before(glyphs, query, first[0], first[back]));
            }
        }
        let head = first[0];
        let rest_first = first.drop_first();
        let rest_second = second.drop_first();
        // Both tails rank the glyphs other than the head; to reuse the
        // statement, rank them among glyphs in which the head has no size.
        let hidden = glyphs.update(
            head,
            GlyphModel {
                img: Bitmap { width: query.width + 1, ..glyphs[head].img },
                ..glyphs[head]
            },
        );
        assert forall|k: int| 0 <= k < rest_first.len() implies 0 <= #[trigger] rest_first[k] < n
            && hidden[rest_first[k]].img.same_size(query) by {
            assert(rest_first[k] == first[k + 1]);
            assert(ranks_before(glyphs, query, first[0], first[k + 1]));
        }
        assert forall|k: int| 0 <= k < rest_second.len() implies 0
            <= #[trigger] rest_second[k] < n && hidden[rest_second[k]].img.same_size(query) by {
            assert(rest_second[k] == second[k + 1]);
            assert(ranks_before(glyphs, query, second[0], second[k + 1]));
        }
        assert forall|i: int| 0 <= i < n && (#[trigger] hidden[i]).img.same_size(
            query,
        ) implies rest_first.contains(i) && rest_second.contains(i) by {
            assert(i != head);
            assert(glyphs[i].img.same_size(query));
            assert(first.contains(i));
            let k = choose|k: int| 0 <= k < first.len() && first[k] == i;
            assert(rest_first[k - 1] == i);
            assert(second.contains(i));
            let l = choose|l: int| 0 <= l < second.len() && second[l] == i;
            assert(rest_second[l - 1] == i);
        }
        assert forall|k: int, l: int| 0 <= k < l < rest_first.len() implies ranks_before(
            hidden,
            query,
            #[trigger] rest_first[k],
            #[trigger] rest_first[l],
        ) by {
            assert(rest_first[k] == first[k + 1] && rest_first[l] == first[l + 1]);
            assert(ranks_before(glyphs, query, first[k + 1], first[l + 1]));
            assert(ranks_before(glyphs, query, first[0], first[k + 1]));
            assert(ranks_before(glyphs, query, first[0], first[l + 1]));
        }
        assert forall|k: int, l: int| 0 <= k < l < rest_second.len() implies ranks_before(
            hidden,
            query,
            #[trigger] rest_second[k],
            #[trigger] rest_second[l],
        ) by {
            assert(rest_second[k] == second[k + 1] && rest_second[l] == second[l + 1]);
            assert(ranks_before(glyphs, query, second[k + 1], second[l + 1]));
            assert(ranks_before(glyphs, query, second[0], second[k + 1]));
            assert(ranks_before(glyphs, query, second[0], second[l + 1]));
        }
        lemma_ranking_unique(hidden, query, rest_first, rest_second, n);
        assert(first =~= seq![head] + rest_first);
        assert(second =~= seq![head] + rest_second);
    }
}

/// A glyph added to a library that did not hold its image is found by that
/// image, with its text; a query of another size finds what it found before.
pub proof fn lemma_added_glyph_is_found(glyphs: Seq<GlyphModel>, glyph: GlyphModel, query: Bitmap)
    ensures
        first_exact(glyphs, glyph.img, glyphs.len() as int) is None ==> exact_text(
            glyphs.push(glyph),
            glyph.img,
        ) == glyph.characters,
        !glyph.img.same_size(query) ==> exact_text(glyphs.push(glyph), query) == exact_text(
            glyphs,
            query,
        ),
{
    let more = glyphs.push(glyph);
    lemma_first_exact_local(glyphs, more, glyph.img, glyphs.len() as int);
    lemma_first_exact_local(glyphs, more, query, glyphs.len() as int);
    lemma_first_exact_in_range(glyphs, query, glyphs.len() as int);
    assert(more[glyphs.len() as int] == glyph);
}

/// The first exact match among the first `n` glyphs depends on these only.
pub proof fn lemma_first_exact_local(
    a: Seq<GlyphModel>,
    b: Seq<GlyphModel>,
    query: Bitmap,
    n: int,
)
    requires
        0 <= n <= a.len(),
        n <= b.len(),
        forall|i: int| 0 <= i < n ==> a[i] == b[i],
    ensures
        first_exact(a, query, n) == first_exact(b, query, n),
    decreases n,
{
    if n > 0 {
        lemma_first_exact_local(a, b, query, n - 1);
    }
}

/// The first exact match among the first `n` glyphs is one of them, its
/// image is the query, and no glyph before it has that image.
pub proof fn lemma_first_exact_in_range(glyphs: Seq<GlyphModel>, query: Bitmap, n: int)
    ensures
        match first_exact(glyphs, query, n) {
            Some(i) => 0 <= i < n && same_image(glyphs[i].img, query) && forall|j: int|
                0 <= j < i ==> !same_image((#[trigger] glyphs[j]).img, query),
            None => forall|j: int| 0 <= j < n ==> !same_image((#[trigger] glyphs[j]).img, query),
        },
    decreases n,
{
    if n > 0 {
        lemma_first_exact_in_range(glyphs, query, n - 1);
    }
}

/// A glyph as it is stored: its image in the readable text form, its offsets
/// and its text.
#[derive(Debug)]
pub struct GlyphRecord {
    pub img: Vec<String>,
    pub orig_y: (i16, i16),
    pub characters: Option<String>,
}

/// What a stored glyph holds.
pub struct RecordModel {
    pub img: Seq<Seq<char>>,
    pub orig_y: (i16, i16),
    pub characters: Option<Seq<char>>,
}

impl View for GlyphRecord {
    type V = RecordModel;

    open spec fn view(&self) -> RecordModel {
        RecordModel {
            img: row_texts(self.img@),
            orig_y: self.orig_y,
            characters: text_of(self.characters),
        }
    }
}

/// The record that stores a glyph; there is none when a pixel of the image
/// is neither ink nor background.
pub open spec fn glyph_record(glyph: GlyphModel) -> Result<RecordModel, Error> {
    match encoded_rows(glyph.img) {
        Ok(rows) => Ok(
            RecordModel { img: rows, orig_y: glyph.orig_y, characters: glyph.characters },
        ),
        Err(e) => Err(e),
    }
}

/// The glyph that a record stores; there is none when the record's rows
/// spell no image.
pub open spec fn record_glyph(record: RecordModel) -> Result<GlyphModel, Error> {
    match decoded_rows(record.img) {
        Ok(img) => Ok(GlyphModel { img, orig_y: record.orig_y, characters: record.characters }),
        Err(e) => Err(e),
    }
}

/// The records that store the first `n` glyphs, or the error of the first
/// glyph that cannot be stored.
pub open spec fn saved(glyphs: Seq<GlyphModel>, n: int) -> Result<Seq<RecordModel>, Error>
    decreases n,
{
    if n <= 0 {
        Ok(Seq::empty())
    } else {
        match saved(glyphs, n - 1) {
            Err(e) => Err(e),
            Ok(records) => match glyph_record(glyphs[n - 1]) {
                Ok(record) => Ok(records.push(record)),
                Err(e) => Err(e),
            },
        }
    }
}

/// The glyphs that the first `n` records store, or the error of the first
/// record that stores none.
pub open spec fn loaded(records: Seq<RecordModel>, n: int) -> Result<Seq<GlyphModel>, Error>
    decreases n,
{
    if n <= 0 {
        Ok(Seq::empty())
    } else {
        match loaded(records, n - 1) {
            Err(e) => Err(e),
            Ok(glyphs) => match record_glyph(records[n - 1]) {
                Ok(glyph) => Ok(glyphs.push(glyph)),
                Err(e) => Err(e),
            },
        }
    }
}

/// What each record holds.
pub open spec fn record_views(records: Seq<GlyphRecord>) -> Seq<RecordModel> {
    Seq::new(records.len(), |i: int| records[i]@)
}

/// The glyph can be stored and read back: its image has at least one pixel,
/// its samples cover its pixels exactly, and each pixel is ink or background.
pub open spec fn storable(glyph: GlyphModel) -> bool {
    &&& glyph.img.exact()
    &&& 0 < glyph.img.width <= u32::MAX
    &&& 0 < glyph.img.height <= u32::MAX
    &&& encoded_rows(glyph.img) is Ok
}

/// A copy of a text that may be absent.
fn copy_text(text: &Option<String>) -> (r: Option<String>)
    ensures
        text_of(r) == text_of(*text),
{
    match text {
        Some(t) => Some(t.clone()),
        None => None,
    }
}

impl Glyph {
    /// The record that stores the glyph.
    pub fn to_record(&self) -> (r: Result<GlyphRecord, Error>)
        ensures
            match glyph_record(self@) {
                Ok(record) => r matches Ok(made) && made@ == record,
                Err(e) => r matches Err(f) && f == e,
            },
    {
        match self.img.to_rows() {
            Ok(rows) => Ok(
                GlyphRecord {
                    img: rows,
                    orig_y: self.orig_y,
                    characters: copy_text(&self.characters),
                },
            ),
            Err(e) => Err(e),
        }
    }

    /// The glyph that a record stores.
    pub fn from_record(record: &GlyphRecord) -> (r: Result<Glyph, Error>)
        ensures
            match record_glyph(record@) {
                Ok(glyph) => r matches Ok(made) && made@ == glyph,
                Err(e) => r matches Err(f) && f == e,
            },
    {
        match GlyphImage::from_rows(&record.img) {
            Ok(img) => Ok(
                Glyph { img, orig_y: record.orig_y, characters: copy_text(&record.characters) },
            ),
            Err(e) => Err(e),
        }
    }
}

impl GlyphLibrary {
    /// The records that store the library, one per glyph and in the glyphs'
    /// order; the error of the first glyph that cannot be stored.
    pub fn save(&self) -> (r: Result<Vec<GlyphRecord>, Error>)
        ensures
            match saved(self@, self@.len() as int) {
                Ok(records) => r matches Ok(made) && record_views(made@) == records,
                Err(e) => r matches Err(f) && f == e,
            },
    {
        let mut records: Vec<GlyphRecord> = Vec::new();
        let mut i: usize = 0;
        while i < self.glyphs.len()
            invariant
                i <= self.glyphs@.len(),
                saved(self@, i as int) is Ok,
                saved(self@, i as int)->Ok_0 == record_views(records@),
            decreases self.glyphs@.len() - i,
        {
            assert(self@[i as int] == self.glyphs@[i as int]@);
            match self.glyphs[i].to_record() {
                Ok(record) => {
                    let ghost before = record_views(records@);
                    records.push(record);
                    assert(record_views(records@) == before.push(record@));
                },
                Err(e) => {
                    proof {
                        lemma_saved_error_stays(self@, i + 1, self@.len() as int);
                    }
                    return Err(e);
                },
            }
            i = i + 1;
        }
        Ok(records)
    }

    /// Fills an empty library with the glyphs that the records store. If a
    /// record stores no glyph, the library stays empty and the error of the
    /// first such record is returned.
    pub fn load(&mut self, records: &Vec<GlyphRecord>) -> (r: Result<(), Error>)
        requires
            old(self)@.len() == 0,
        ensures
            match loaded(record_views(records@), records@.len() as int) {
                Ok(glyphs) => r is Ok && final(self)@ == glyphs,
                Err(e) => r == Err::<(), Error>(e) && final(self)@ == old(self)@,
            },
    {
        let ghost views = record_views(records@);
        let mut glyphs: Vec<Glyph> = Vec::new();
        let mut i: usize = 0;
        while i < records.len()
            invariant
                i <= records@.len(),
                views == record_views(records@),
                loaded(views, i as int) is Ok,
                loaded(views, i as int)->Ok_0 == Seq::new(glyphs@.len(), |k: int| glyphs@[k]@),
            decreases records@.len() - i,
        {
            assert(views[i as int] == records@[i as int]@);
            match Glyph::from_record(&records[i]) {
                Ok(glyph) => {
                    let ghost before = Seq::new(glyphs@.len(), |k: int| glyphs@[k]@);
                    glyphs.push(glyph);
                    assert(Seq::new(glyphs@.len(), |k: int| glyphs@[k]@) == before.push(glyph@));
                },
                Err(e) => {
                    proof {
                        lemma_loaded_error_stays(views, i + 1, views.len() as int);
                    }
                    return Err(e);
                },
            }
            i = i + 1;
        }
        self.glyphs = glyphs;
        Ok(())
    }
}

/// A glyph that cannot be stored among the first `n` fails the saving of
/// more glyphs in the same way.
pub proof fn lemma_saved_error_stays(glyphs: Seq<GlyphModel>, n: int, m: int)
    requires
        0 <= n <= m,
        saved(glyphs, n) is Err,
    ensures
        saved(glyphs, m) == saved(glyphs, n),
    decreases m - n,
{
    if n < m {
        lemma_saved_error_stays(glyphs, n, m - 1);
    }
}

/// A record that stores no glyph among the first `n` fails the loading of
/// more records in the same way.
pub proof fn lemma_loaded_error_stays(records: Seq<RecordModel>, n: int, m: int)
    requires
        0 <= n <= m,
        loaded(records, n) is Err,
    ensures
        loaded(records, m) == loaded(records, n),
    decreases m - n,
{
    if n < m {
        lemma_loaded_error_stays(records, n, m - 1);
    }
}

/// Loading depends on the records read only.
pub proof fn lemma_loaded_local(a: Seq<RecordModel>, b: Seq<RecordModel>, n: int)
    requires
        0 <= n <= a.len(),
        n <= b.len(),
        forall|i: int| 0 <= i < n ==> a[i] == b[i],
    ensures
        loaded(a, n) == loaded(b, n),
    decreases n,
{
    if n > 0 {
        lemma_loaded_local(a, b, n - 1);
    }
}

/// Saving glyphs that can all be stored and loading the records again gives
/// the same glyphs: the same images, offsets and texts, in the same order.
pub proof fn lemma_library_round_trip(glyphs: Seq<GlyphModel>, n: int)
    requires
        0 <= n <= glyphs.len(),
        forall|i: int| 0 <= i < n ==> storable(#[trigger] glyphs[i]),
    ensures
        saved(glyphs, n) is Ok,
        saved(glyphs, n)->Ok_0.len() == n,
        loaded(saved(glyphs, n)->Ok_0, n) == Ok::<Seq<GlyphModel>, Error>(glyphs.take(n)),
    decreases n,
{
    if n > 0 {
        lemma_library_round_trip(glyphs, n - 1);
        let glyph = glyphs[n - 1];
        assert(storable(glyph));
        lemma_rows_round_trip(glyph.img);
        let before = saved(glyphs, n - 1)->Ok_0;
        let record = glyph_record(glyph)->Ok_0;
        let records = before.push(record);
        assert(saved(glyphs, n) == Ok::<Seq<RecordModel>, Error>(records));
        lemma_loaded_local(before, records, n - 1);
        assert(record_glyph(record) == Ok::<GlyphModel, Error>(glyph));
        assert(glyphs.take(n - 1).push(glyph) =~= glyphs.take(n));
    } else {
        assert(glyphs.take(n) =~= Seq::<GlyphModel>::empty());
    }
}

/// The number of positions among the first `n` at which the two runs hold
/// different samples.
pub open spec fn differences(a: Seq<u8>, b: Seq<u8>, n: int) -> nat
    decreases n,
{
    if n <= 0 {
        0
    } else {
        differences(a, b, n - 1) + if a[n - 1] != b[n - 1] {
            1nat
        } else {
            0nat
        }
    }
}

/// At each position two runs agree or differ.
pub proof fn lemma_agreement_and_differences(a: Seq<u8>, b: Seq<u8>, n: int)
    requires
        0 <= n,
    ensures
        agreement(a, b, n) + differences(a, b, n) == n,
    decreases n,
{
    if n > 0 {
        lemma_agreement_and_differences(a, b, n - 1);
    }
}

/// Of two stored glyphs with as many samples as the query, the one that
/// differs from the query in fewer pixels stands before the other in the
/// ranking by closeness.
pub proof fn lemma_fewer_differences_rank_first(
    glyphs: Seq<GlyphModel>,
    query: Bitmap,
    order: Seq<int>,
    k: int,
    l: int,
)
    requires
        is_ranking(glyphs, query, order, glyphs.len() as int),
        0 <= k < order.len(),
        0 <= l < order.len(),
        glyphs[order[k]].img.data.len() == query.data.len(),
        glyphs[order[l]].img.data.len() == query.data.len(),
        differences(glyphs[order[k]].img.data, query.data, query.data.len() as int) < differences(
            glyphs[order[l]].img.data,
            query.data,
            query.data.len() as int,
        ),
    ensures
        k < l,
{
    lemma_agreement_and_differences(
        glyphs[order[k]].img.data,
        query.data,
        query.data.len() as int,
    );
    lemma_agreement_and_differences(
        glyphs[order[l]].img.data,
        query.data,
        query.data.len() as int,
    );
    lemma_closer_ranks_first(glyphs, query, order, k, l);
}

} // verus!
