//! Maximal-rectangles bin packing: the free space is kept as the list of all
//! maximal free rectangles, which may overlap, so cuts may stop anywhere.
use crate::bin::{kept_by, rect_of, removed_by, Bin};
use crate::geometry::{
    contains_id, copy_vec, fits_in, inside_bin, lemma_fit_none, lemma_fit_places_inside,
    lemma_placed_demanded, piece_ok, placed_piece, placed_rect, rect_within, spec_fit, CutPieceWithId, Fit,
    PatternDirection, Rect, ResultCutPiece, ResultStockPiece, StockPiece, UsedCutPiece, MAX_DIM,
};
use crate::guillotine::{abs_diff, all_inside, covered, lemma_push_piece_inside, pieces_inside, RotateCutPieceHeuristic};
use crate::random::gen_range;
use rand::rngs::StdRng;
use vstd::prelude::*;

verus! {

/// Heuristics for deciding which of the free rectangles to place the piece in.
#[derive(Copy, Clone, Debug, PartialEq, Eq, Structural)]
pub enum FreeRectChoiceHeuristic {
    BestShortSideFit,
    BestLongSideFit,
    BestAreaFit,
    BottomLeftRule,
    ContactPointRule,
}

/// A bin whose free space is the list of its maximal free rectangles.
#[derive(Debug)]
pub struct MaxRectsBin {
    pub width: usize,
    pub length: usize,
    pub blade_width: usize,
    pub pattern_direction: PatternDirection,
    pub cut_pieces: Vec<UsedCutPiece>,
    pub free_rects: Vec<Rect>,
    pub price: usize,
}

/// No free rectangle meets a placed piece grown by the kerf.
pub open spec fn free_clear(pieces: Seq<UsedCutPiece>, free: Seq<Rect>, kerf: usize, bin_width: usize, bin_length: usize) -> bool {
    forall|a: int, f: int|
        0 <= a < pieces.len() && 0 <= f < free.len() ==> !intersects(
            kerf_expanded(#[trigger] pieces[a].rect, kerf, bin_width, bin_length),
            #[trigger] free[f],
        )
}

/// No placed piece meets another placed piece grown by the kerf.
pub open spec fn pieces_apart(pieces: Seq<UsedCutPiece>, kerf: usize, bin_width: usize, bin_length: usize) -> bool {
    forall|a: int, b: int|
        0 <= a < pieces.len() && 0 <= b < pieces.len() && a != b ==> !intersects(
            kerf_expanded(#[trigger] pieces[a].rect, kerf, bin_width, bin_length),
            #[trigger] pieces[b].rect,
        )
}

/// A rectangle within one that a grown rectangle does not meet is not met either.
pub proof fn lemma_within_clear(x: Rect, f: Rect, s: Rect)
    requires
        rect_within(s, f),
        !intersects(x, f),
    ensures
        !intersects(x, s),
{
}

/// Meeting another rectangle when grown by the kerf is symmetric for a
/// rectangle inside the bin with sides of at least 1.
pub proof fn lemma_grown_meet_symmetric(a: Rect, b: Rect, kerf: usize, bin_width: usize, bin_length: usize)
    requires
        inside_bin(a, bin_width, bin_length),
        inside_bin(b, bin_width, bin_length),
        a.width >= 1,
        a.length >= 1,
        kerf <= MAX_DIM,
        bin_width <= MAX_DIM,
        bin_length <= MAX_DIM,
        intersects(kerf_expanded(a, kerf, bin_width, bin_length), b),
    ensures
        intersects(kerf_expanded(b, kerf, bin_width, bin_length), a),
{
}

/// Free rectangles that each lie within one of a list clear of the pieces are
/// clear of them too.
pub proof fn lemma_clear_of_covered(pieces: Seq<UsedCutPiece>, old_free: Seq<Rect>, new_free: Seq<Rect>, kerf: usize, bin_width: usize, bin_length: usize)
    requires
        free_clear(pieces, old_free, kerf, bin_width, bin_length),
        forall|m: int| 0 <= m < new_free.len() ==> covered(#[trigger] new_free[m], old_free),
    ensures
        free_clear(pieces, new_free, kerf, bin_width, bin_length),
{
    reveal(covered);
    assert forall|a: int, f: int| 0 <= a < pieces.len() && 0 <= f < new_free.len() implies !intersects(
        kerf_expanded(#[trigger] pieces[a].rect, kerf, bin_width, bin_length),
        #[trigger] new_free[f],
    ) by {
        assert(covered(new_free[f], old_free));
        let t = choose|t: int| 0 <= t < old_free.len() && rect_within(new_free[f], #[trigger] old_free[t]);
        lemma_within_clear(kerf_expanded(pieces[a].rect, kerf, bin_width, bin_length), old_free[t], new_free[f]);
    }
}

/// A piece placed within a free rectangle clear of the placed pieces keeps
/// all of them apart.
pub proof fn lemma_push_apart(pieces: Seq<UsedCutPiece>, free: Rect, u: UsedCutPiece, kerf: usize, bin_width: usize, bin_length: usize)
    requires
        pieces_apart(pieces, kerf, bin_width, bin_length),
        forall|a: int| 0 <= a < pieces.len() ==> !intersects(kerf_expanded(#[trigger] pieces[a].rect, kerf, bin_width, bin_length), free),
        rect_within(u.rect, free),
        inside_bin(u.rect, bin_width, bin_length),
        u.rect.width >= 1,
        u.rect.length >= 1,
        forall|a: int| 0 <= a < pieces.len() ==> inside_bin(#[trigger] pieces[a].rect, bin_width, bin_length),
        kerf <= MAX_DIM,
        bin_width <= MAX_DIM,
        bin_length <= MAX_DIM,
    ensures
        pieces_apart(pieces.push(u), kerf, bin_width, bin_length),
{
    let s = pieces.push(u);
    let n = pieces.len() as int;
    assert forall|a: int, b: int| 0 <= a < s.len() && 0 <= b < s.len() && a != b implies !intersects(
        kerf_expanded(#[trigger] s[a].rect, kerf, bin_width, bin_length),
        #[trigger] s[b].rect,
    ) by {
        if a < n && b < n {
            assert(s[a] == pieces[a] && s[b] == pieces[b]);
        } else if b == n {
            assert(s[a] == pieces[a] && s[b] == u);
            lemma_within_clear(kerf_expanded(pieces[a].rect, kerf, bin_width, bin_length), free, u.rect);
        } else {
            assert(s[a] == u && s[b] == pieces[b]);
            lemma_within_clear(kerf_expanded(pieces[b].rect, kerf, bin_width, bin_length), free, u.rect);
            if intersects(kerf_expanded(u.rect, kerf, bin_width, bin_length), pieces[b].rect) {
                lemma_grown_meet_symmetric(u.rect, pieces[b].rect, kerf, bin_width, bin_length);
            }
        }
    }
}

/// Free space clear of the placed pieces and of a new one is clear of all.
pub proof fn lemma_push_clear(pieces: Seq<UsedCutPiece>, free: Seq<Rect>, u: UsedCutPiece, kerf: usize, bin_width: usize, bin_length: usize)
    requires
        free_clear(pieces, free, kerf, bin_width, bin_length),
        forall|m: int| 0 <= m < free.len() ==> !intersects(kerf_expanded(u.rect, kerf, bin_width, bin_length), #[trigger] free[m]),
    ensures
        free_clear(pieces.push(u), free, kerf, bin_width, bin_length),
{
    let s = pieces.push(u);
    assert forall|a: int, f: int| 0 <= a < s.len() && 0 <= f < free.len() implies !intersects(
        kerf_expanded(#[trigger] s[a].rect, kerf, bin_width, bin_length),
        #[trigger] free[f],
    ) by {
        if a < pieces.len() {
            assert(s[a] == pieces[a]);
        } else {
            assert(s[a] == u);
        }
    }
}

/// Length of the overlap of two intervals, 0 when they are apart.
pub open spec fn common_interval(start1: int, end1: int, start2: int, end2: int) -> int {
    if end1 < start2 || end2 < start1 {
        0
    } else {
        (if end1 <= end2 { end1 } else { end2 }) - (if start1 >= start2 { start1 } else { start2 })
    }
}

/// How much of the edge of a placed piece `u` the rectangle (x, y, w, l) touches.
pub open spec fn piece_contact(u: UsedCutPiece, x: int, y: int, w: int, l: int) -> int {
    let r = u.rect;
    (if r.x == x + w || r.x + r.width == x {
        common_interval(r.y as int, r.y + r.length, y, y + l)
    } else {
        0
    }) + (if r.y == y + l || r.y + r.length == y {
        common_interval(r.x as int, r.x + r.width, x, x + w)
    } else {
        0
    })
}

/// The contact with all the placed pieces of `s`.
pub open spec fn neighbours_contact(s: Seq<UsedCutPiece>, x: int, y: int, w: int, l: int) -> int
    decreases s.len(),
{
    if s.len() == 0 {
        0
    } else {
        neighbours_contact(s.drop_last(), x, y, w, l) + piece_contact(s.last(), x, y, w, l)
    }
}

/// The contact score of the rectangle (x, y, w, l) in a bin: the edges it shares
/// with the bin's sides, then those it shares with placed pieces.
pub open spec fn contact_score(
    s: Seq<UsedCutPiece>,
    bin_width: int,
    bin_length: int,
    x: int,
    y: int,
    w: int,
    l: int,
) -> int {
    (if x == 0 || x + w == bin_width { l } else { 0 }) + (if y == 0 || y + l == bin_length { w } else { 0 })
        + neighbours_contact(s, x, y, w, l)
}

/// The key by which the choice rule ranks a fit: the least key wins, the first
/// one among equals.
pub open spec fn placement_key(
    s: Seq<UsedCutPiece>,
    bin_width: int,
    bin_length: int,
    free: Rect,
    p: CutPieceWithId,
    fit: Fit,
    choice: FreeRectChoiceHeuristic,
) -> (int, int) {
    let pr = placed_rect(free, p, fit.spec_is_rotated());
    let dw = abs_diff(free.width, pr.width);
    let dl = abs_diff(free.length, pr.length);
    let short = if dw <= dl { dw } else { dl };
    let long = if dw <= dl { dl } else { dw };
    match choice {
        FreeRectChoiceHeuristic::BottomLeftRule => (free.y + pr.length, free.x as int),
        FreeRectChoiceHeuristic::BestShortSideFit => (short, long),
        FreeRectChoiceHeuristic::BestLongSideFit => (long, short),
        FreeRectChoiceHeuristic::BestAreaFit => (free.width * free.length - p.width * p.length, short),
        FreeRectChoiceHeuristic::ContactPointRule => (
            -contact_score(s, bin_width, bin_length, free.x as int, free.y as int, pr.width as int, pr.length as int),
            0,
        ),
    }
}

pub open spec fn lex_less(a: (int, int), b: (int, int)) -> bool {
    a.0 < b.0 || (a.0 == b.0 && a.1 < b.1)
}

/// `k` is the free rectangle that the choice rule picks for `p` in `bin`.
pub open spec fn chosen_placement(
    bin: MaxRectsBin,
    p: CutPieceWithId,
    prefer: bool,
    choice: FreeRectChoiceHeuristic,
    k: int,
) -> bool {
    let fr = bin.free_rects@;
    let d = bin.pattern_direction;
    let key = |j: int|
        placement_key(
            bin.cut_pieces@,
            bin.width as int,
            bin.length as int,
            fr[j],
            p,
            spec_fit(fr[j], d, p, prefer),
            choice,
        );
    &&& 0 <= k < fr.len()
    &&& spec_fit(fr[k], d, p, prefer) != Fit::NoFit
    &&& forall|j: int|
        0 <= j < fr.len() && #[trigger] spec_fit(fr[j], d, p, prefer) != Fit::NoFit ==> !lex_less(key(j), key(k))
    &&& forall|j: int|
        0 <= j < k && #[trigger] spec_fit(fr[j], d, p, prefer) != Fit::NoFit ==> lex_less(key(k), key(j))
}

/// The rectangle `rect` grown by the kerf on every side, clipped to the bin.
pub open spec fn kerf_expanded(rect: Rect, kerf: usize, bin_width: usize, bin_length: usize) -> Rect {
    let x: int = if rect.x >= kerf { rect.x - kerf } else { 0 };
    let y: int = if rect.y >= kerf { rect.y - kerf } else { 0 };
    let w0: int = rect.width + rect.x - x + kerf;
    let l0: int = rect.length + rect.y - y + kerf;
    let w: int = if x + w0 > bin_width { bin_width - x } else { w0 };
    let l: int = if y + l0 > bin_length { bin_length - y } else { l0 };
    Rect { x: x as usize, y: y as usize, width: w as usize, length: l as usize }
}

pub open spec fn intersects(a: Rect, b: Rect) -> bool {
    !(a.x >= b.x + b.width || a.x + a.width <= b.x || a.y >= b.y + b.length || a.y + a.length <= b.y)
}

/// The strips of `free` left around `rect`, which overlaps it: above, below,
/// left and right, each where there is room.
pub open spec fn residual_strips(free: Rect, rect: Rect) -> Seq<Rect> {
    let above = if rect.y > free.y && rect.y < free.y + free.length {
        seq![Rect { length: (rect.y - free.y) as usize, ..free }]
    } else {
        Seq::<Rect>::empty()
    };
    let below = if rect.y + rect.length < free.y + free.length {
        seq![Rect { y: (rect.y + rect.length) as usize, length: (free.y + free.length - rect.y - rect.length) as usize, ..free }]
    } else {
        Seq::<Rect>::empty()
    };
    let left = if rect.x > free.x && rect.x < free.x + free.width {
        seq![Rect { width: (rect.x - free.x) as usize, ..free }]
    } else {
        Seq::<Rect>::empty()
    };
    let right = if rect.x + rect.width < free.x + free.width {
        seq![Rect { x: (rect.x + rect.width) as usize, width: (free.x + free.width - rect.x - rect.width) as usize, ..free }]
    } else {
        Seq::<Rect>::empty()
    };
    above + below + left + right
}

/// The free list once the free rectangle at `i` has been cut by `rect` grown by
/// the kerf: unchanged if they do not meet, otherwise the strips are appended
/// and the last rectangle takes the place of the one at `i`.
pub open spec fn split_result(free: Seq<Rect>, i: int, rect: Rect, kerf: usize, bin_width: usize, bin_length: usize) -> Seq<Rect> {
    let e = kerf_expanded(rect, kerf, bin_width, bin_length);
    if !intersects(e, free[i]) {
        free
    } else {
        let s = free + residual_strips(free[i], e);
        s.update(i, s.last()).drop_last()
    }
}

/// The disjointing pass cuts one of two free rectangles by the other: the
/// smaller (or `a` at equal area) by the larger grown by the kerf, if they meet.
pub open spec fn overlap_pair(a: Rect, b: Rect, kerf: usize, width: usize, length: usize) -> bool {
    if a.width * a.length > b.width * b.length {
        intersects(kerf_expanded(a, kerf, width, length), b)
    } else {
        intersects(kerf_expanded(b, kerf, width, length), a)
    }
}

/// Some pair of `s`, the lower one first, is cut by the disjointing pass.
pub open spec fn has_overlapping_pair(s: Seq<Rect>, kerf: usize, width: usize, length: usize) -> bool {
    exists|f: int, g: int| 0 <= f < g < s.len() && #[trigger] overlap_pair(s[f], s[g], kerf, width, length)
}

/// One of the two rectangles lies within the other.
pub open spec fn nested(a: Rect, b: Rect) -> bool {
    rect_within(a, b) || rect_within(b, a)
}

/// Some rectangle of `s` lies within another one.
pub open spec fn has_contained_pair(s: Seq<Rect>) -> bool {
    exists|f: int, g: int| 0 <= f < s.len() && 0 <= g < s.len() && f != g && #[trigger] rect_within(s[f], s[g])
}

/// Each rectangle of `b` is one of `a`.
pub open spec fn drawn_from(b: Seq<Rect>, a: Seq<Rect>) -> bool {
    forall|k: int| 0 <= k < b.len() ==> a.contains(#[trigger] b[k])
}


/// Dropping the rectangle at `i`, which the one at `j` contains, by moving the
/// last one into its place leaves everything covered.
proof fn lemma_cover_after_drop(cur: Seq<Rect>, i: int, j: int, x: Rect)
    requires
        0 <= i < cur.len(),
        0 <= j < cur.len(),
        i != j,
        rect_within(cur[i], cur[j]),
        covered(x, cur),
    ensures
        covered(x, cur.update(i, cur.last()).drop_last()),
{
    reveal(covered);
    let s2 = cur.update(i, cur.last()).drop_last();
    let t = choose|t: int| 0 <= t < cur.len() && rect_within(x, #[trigger] cur[t]);
    let t2 = if t == i { j } else { t };
    assert(rect_within(x, cur[t2]));
    if t2 == cur.len() - 1 {
        assert(s2[i] == cur[t2]);
        assert(rect_within(x, s2[i]));
    } else {
        assert(s2[t2] == cur[t2]);
        assert(rect_within(x, s2[t2]));
    }
}

/// Dropping a free rectangle that another one contains, by moving the last one
/// into its place, keeps the list drawn from `origin`, covering it, and inside
/// the bin.
proof fn lemma_drop_contained(before: Seq<Rect>, i: int, j: int, origin: Seq<Rect>, width: usize, length: usize)
    requires
        0 <= i < before.len(),
        0 <= j < before.len(),
        i != j,
        rect_within(before[i], before[j]),
        drawn_from(before, origin),
        forall|k: int| 0 <= k < origin.len() ==> covered(#[trigger] origin[k], before),
        all_inside(before, width, length),
    ensures
        drawn_from(before.update(i, before.last()).drop_last(), origin),
        forall|k: int| 0 <= k < origin.len() ==> covered(#[trigger] origin[k], before.update(i, before.last()).drop_last()),
        all_inside(before.update(i, before.last()).drop_last(), width, length),
{
    let after = before.update(i, before.last()).drop_last();
    assert forall|k: int| 0 <= k < origin.len() implies covered(#[trigger] origin[k], after) by {
        lemma_cover_after_drop(before, i, j, origin[k]);
    }
    assert forall|k: int| 0 <= k < after.len() implies origin.contains(#[trigger] after[k]) && inside_bin(after[k], width, length) by {
        if k == i {
            assert(after[k] == before[before.len() - 1]);
        } else {
            assert(after[k] == before[k]);
        }
    }
}

/// A rectangle inside the bin, grown by the kerf and clipped, stays inside it.
proof fn lemma_expanded_inside(rect: Rect, kerf: usize, bin_width: usize, bin_length: usize)
    requires
        inside_bin(rect, bin_width, bin_length),
        kerf <= MAX_DIM,
        bin_width <= MAX_DIM,
        bin_length <= MAX_DIM,
    ensures
        inside_bin(kerf_expanded(rect, kerf, bin_width, bin_length), bin_width, bin_length),
{
}

/// The strips left of `free` around `rect` do not meet `rect`.
proof fn lemma_strips_apart(free: Rect, rect: Rect)
    requires
        free.x + free.width <= MAX_DIM,
        free.y + free.length <= MAX_DIM,
        rect.x + rect.width <= MAX_DIM,
        rect.y + rect.length <= MAX_DIM,
    ensures
        forall|m: int| 0 <= m < residual_strips(free, rect).len() ==> !intersects(rect, #[trigger] residual_strips(free, rect)[m]),
{
    let s = residual_strips(free, rect);
    assert forall|m: int| 0 <= m < s.len() implies !intersects(rect, #[trigger] s[m]) by {
    }
}

/// After the free rectangle at `i` is cut by `rect` grown by the kerf, the
/// rectangles from `i` on that did not meet the grown rectangle still do not,
/// and neither does the one now at `i`.
proof fn lemma_split_keeps_apart(free: Seq<Rect>, i: int, rect: Rect, kerf: usize, bin_width: usize, bin_length: usize)
    requires
        0 <= i < free.len(),
        bin_width <= MAX_DIM,
        bin_length <= MAX_DIM,
        all_inside(free, bin_width, bin_length),
        inside_bin(kerf_expanded(rect, kerf, bin_width, bin_length), bin_width, bin_length),
        forall|m: int| i < m < free.len() ==> !intersects(kerf_expanded(rect, kerf, bin_width, bin_length), #[trigger] free[m]),
    ensures
        forall|m: int| i <= m < split_result(free, i, rect, kerf, bin_width, bin_length).len() ==> !intersects(
            kerf_expanded(rect, kerf, bin_width, bin_length),
            #[trigger] split_result(free, i, rect, kerf, bin_width, bin_length)[m],
        ),
{
    let e = kerf_expanded(rect, kerf, bin_width, bin_length);
    if intersects(e, free[i]) {
        let strips = residual_strips(free[i], e);
        assert(inside_bin(free[i], bin_width, bin_length));
        lemma_strips_apart(free[i], e);
        let s = free + strips;
        let r = s.update(i, s.last()).drop_last();
        assert forall|m: int| i <= m < r.len() implies !intersects(e, #[trigger] r[m]) by {
            if m == i {
                assert(r[m] == s[s.len() - 1]);
                if strips.len() > 0 {
                    assert(s[s.len() - 1] == strips[strips.len() - 1]);
                } else {
                    assert(s[s.len() - 1] == free[free.len() - 1]);
                }
            } else if m < free.len() {
                assert(r[m] == free[m]);
            } else {
                assert(r[m] == strips[m - free.len()]);
            }
        }
    }
}

/// Length of the overlap of two intervals, or 0 if they are apart.
pub fn common_interval_length(start1: usize, end1: usize, start2: usize, end2: usize) -> (r: usize)
    requires
        start1 <= end1,
        start2 <= end2,
    ensures
        r == common_interval(start1 as int, end1 as int, start2 as int, end2 as int),
{
    if end1 < start2 || end2 < start1 {
        0
    } else {
        let lo = if start1 >= start2 { start1 } else { start2 };
        let hi = if end1 <= end2 { end1 } else { end2 };
        hi - lo
    }
}

proof fn lemma_piece_contact_bounds(u: UsedCutPiece, x: int, y: int, w: int, l: int)
    requires
        0 <= w <= MAX_DIM,
        0 <= l <= MAX_DIM,
    ensures
        0 <= piece_contact(u, x, y, w, l) <= 2 * MAX_DIM,
{
}

impl MaxRectsBin {
    /// Dimensions within bounds; free rectangles and placed pieces inside the
    /// bin; placed pieces with the bin's direction.
    pub open spec fn inv(&self) -> bool {
        &&& self.width <= MAX_DIM
        &&& self.length <= MAX_DIM
        &&& self.blade_width <= MAX_DIM
        &&& all_inside(self.free_rects@, self.width, self.length)
        &&& pieces_inside(self.cut_pieces@, self.width, self.length, self.pattern_direction)
        &&& free_clear(self.cut_pieces@, self.free_rects@, self.blade_width, self.width, self.length)
        &&& pieces_apart(self.cut_pieces@, self.blade_width, self.width, self.length)
    }

    /// The 10 heuristics: each choice rule, first upright then turned.
    pub fn heuristics() -> (r: Vec<(FreeRectChoiceHeuristic, RotateCutPieceHeuristic)>)
        ensures
            r@ == seq![
                (FreeRectChoiceHeuristic::BestShortSideFit, RotateCutPieceHeuristic::PreferUpright),
                (FreeRectChoiceHeuristic::BestLongSideFit, RotateCutPieceHeuristic::PreferUpright),
                (FreeRectChoiceHeuristic::BestAreaFit, RotateCutPieceHeuristic::PreferUpright),
                (FreeRectChoiceHeuristic::BottomLeftRule, RotateCutPieceHeuristic::PreferUpright),
                (FreeRectChoiceHeuristic::ContactPointRule, RotateCutPieceHeuristic::PreferUpright),
                (FreeRectChoiceHeuristic::BestShortSideFit, RotateCutPieceHeuristic::PreferRotated),
                (FreeRectChoiceHeuristic::BestLongSideFit, RotateCutPieceHeuristic::PreferRotated),
                (FreeRectChoiceHeuristic::BestAreaFit, RotateCutPieceHeuristic::PreferRotated),
                (FreeRectChoiceHeuristic::BottomLeftRule, RotateCutPieceHeuristic::PreferRotated),
                (FreeRectChoiceHeuristic::ContactPointRule, RotateCutPieceHeuristic::PreferRotated),
            ],
    {
        vec![
            (FreeRectChoiceHeuristic::BestShortSideFit, RotateCutPieceHeuristic::PreferUpright),
            (FreeRectChoiceHeuristic::BestLongSideFit, RotateCutPieceHeuristic::PreferUpright),
            (FreeRectChoiceHeuristic::BestAreaFit, RotateCutPieceHeuristic::PreferUpright),
            (FreeRectChoiceHeuristic::BottomLeftRule, RotateCutPieceHeuristic::PreferUpright),
            (FreeRectChoiceHeuristic::ContactPointRule, RotateCutPieceHeuristic::PreferUpright),
            (FreeRectChoiceHeuristic::BestShortSideFit, RotateCutPieceHeuristic::PreferRotated),
            (FreeRectChoiceHeuristic::BestLongSideFit, RotateCutPieceHeuristic::PreferRotated),
            (FreeRectChoiceHeuristic::BestAreaFit, RotateCutPieceHeuristic::PreferRotated),
            (FreeRectChoiceHeuristic::BottomLeftRule, RotateCutPieceHeuristic::PreferRotated),
            (FreeRectChoiceHeuristic::ContactPointRule, RotateCutPieceHeuristic::PreferRotated),
        ]
    }

    /// The contact score of placing a `width` by `length` rectangle at (x, y).
    pub fn contact_point_score(&self, x: usize, y: usize, width: usize, length: usize) -> (r: i128)
        requires
            self.inv(),
            x + width <= self.width,
            y + length <= self.length,
        ensures
            r == contact_score(self.cut_pieces@, self.width as int, self.length as int, x as int, y as int, width as int, length as int),
            0 <= r,
    {
        let mut score: i128 = 0;
        if x == 0 || x + width == self.width {
            score = score + length as i128;
        }
        if y == 0 || y + length == self.length {
            score = score + width as i128;
        }
        let ghost edge = score;
        let ghost s = self.cut_pieces@;
        let mut i: usize = 0;
        while i < self.cut_pieces.len()
            invariant
                self.inv(),
                s == self.cut_pieces@,
                x + width <= self.width,
                y + length <= self.length,
                i <= s.len(),
                0 <= edge <= 2 * MAX_DIM,
                score == edge + neighbours_contact(s.subrange(0, i as int), x as int, y as int, width as int, length as int),
                0 <= score <= (2 + 2 * i) * MAX_DIM,
            decreases s.len() - i,
        {
            let rect = self.cut_pieces[i].rect;
            proof {
                assert(inside_bin(s[i as int].rect, self.width, self.length));
                assert(s.subrange(0, i + 1).drop_last() =~= s.subrange(0, i as int));
                assert(s.subrange(0, i + 1).last() == s[i as int]);
                lemma_piece_contact_bounds(s[i as int], x as int, y as int, width as int, length as int);
            }
            let mut c: usize = 0;
            if rect.x == x + width || rect.x + rect.width == x {
                c = common_interval_length(rect.y, rect.y + rect.length, y, y + length);
            }
            let mut c2: usize = 0;
            if rect.y == y + length || rect.y + rect.length == y {
                c2 = common_interval_length(rect.x, rect.x + rect.width, x, x + width);
            }
            proof {
                assert((2 + 2 * i) * MAX_DIM + 2 * MAX_DIM == (2 + 2 * (i + 1)) * MAX_DIM) by (nonlinear_arith);
                assert((2 + 2 * (i + 1)) * MAX_DIM <= (2 + 2 * 0x1_0000_0000_0000_0000int) * MAX_DIM) by (nonlinear_arith)
                    requires i < 0x1_0000_0000_0000_0000int;
            }
            score = score + c as i128 + c2 as i128;
            i += 1;
        }
        proof {
            assert(s.subrange(0, s.len() as int) =~= s);
        }
        score
    }

    /// The key of placing the piece into `free_rect` with the given fit.
    fn placement_key_of(&self, free_rect: &Rect, cut_piece: &CutPieceWithId, fit: Fit, rect_choice: FreeRectChoiceHeuristic) -> (r: (i128, i128))
        requires
            self.inv(),
            inside_bin(*free_rect, self.width, self.length),
            fit == spec_fit(*free_rect, self.pattern_direction, *cut_piece, false) || fit == spec_fit(*free_rect, self.pattern_direction, *cut_piece, true),
            fit != Fit::NoFit,
        ensures
            r.0 == placement_key(self.cut_pieces@, self.width as int, self.length as int, *free_rect, *cut_piece, fit, rect_choice).0,
            r.1 == placement_key(self.cut_pieces@, self.width as int, self.length as int, *free_rect, *cut_piece, fit, rect_choice).1,
    {
        proof {
            lemma_fit_places_inside(*free_rect, self.pattern_direction, *cut_piece, false);
            lemma_fit_places_inside(*free_rect, self.pattern_direction, *cut_piece, true);
        }
        let rotated = fit.is_rotated();
        let (w, l) = if rotated {
            (cut_piece.length, cut_piece.width)
        } else {
            (cut_piece.width, cut_piece.length)
        };
        let dw = free_rect.width - w;
        let dl = free_rect.length - l;
        let short = if dw <= dl { dw } else { dl };
        let long = if dw <= dl { dl } else { dw };
        match rect_choice {
            FreeRectChoiceHeuristic::BottomLeftRule => ((free_rect.y + l) as i128, free_rect.x as i128),
            FreeRectChoiceHeuristic::BestShortSideFit => (short as i128, long as i128),
            FreeRectChoiceHeuristic::BestLongSideFit => (long as i128, short as i128),
            FreeRectChoiceHeuristic::BestAreaFit => {
                proof {
                    assert(free_rect.width * free_rect.length <= MAX_DIM * MAX_DIM) by (nonlinear_arith)
                        requires free_rect.width <= MAX_DIM, free_rect.length <= MAX_DIM;
                    assert(cut_piece.width * cut_piece.length <= MAX_DIM * MAX_DIM) by (nonlinear_arith)
                        requires cut_piece.width <= MAX_DIM, cut_piece.length <= MAX_DIM;
                }
                let free_area = free_rect.width as i128 * free_rect.length as i128;
                let piece_area = cut_piece.width as i128 * cut_piece.length as i128;
                (free_area - piece_area, short as i128)
            },
            FreeRectChoiceHeuristic::ContactPointRule => {
                let score = self.contact_point_score(free_rect.x, free_rect.y, w, l);
                (-score, 0)
            },
        }
    }

    /// Finds where the piece goes by the choice rule: the first free rectangle
    /// of least key, and whether the piece is turned.
    pub fn find_placement_for_cut_piece(
        &self,
        cut_piece: &CutPieceWithId,
        rect_choice: FreeRectChoiceHeuristic,
        prefer_rotated: bool,
    ) -> (r: Option<(Rect, bool)>)
        requires
            self.inv(),
        ensures
            r.is_none() == (forall|j: int|
                0 <= j < self.free_rects@.len() ==> !fits_in(#[trigger] self.free_rects@[j], self.pattern_direction, *cut_piece)),
            r matches Some((rect, rot)) ==> exists|k: int|
                chosen_placement(*self, *cut_piece, prefer_rotated, rect_choice, k)
                && rot == spec_fit(self.free_rects@[k], self.pattern_direction, *cut_piece, prefer_rotated).spec_is_rotated()
                && rect == placed_rect(self.free_rects@[k], *cut_piece, rot),
    {
        let ghost fr = self.free_rects@;
        let ghost d = self.pattern_direction;
        let ghost p = *cut_piece;
        let ghost key = |j: int|
            placement_key(self.cut_pieces@, self.width as int, self.length as int, fr[j], p, spec_fit(fr[j], d, p, prefer_rotated), rect_choice);
        let mut best: Option<(usize, (i128, i128))> = None;
        let mut i: usize = 0;
        while i < self.free_rects.len()
            invariant
                self.inv(),
                fr == self.free_rects@,
                d == self.pattern_direction,
                p == *cut_piece,
                key == (|j: int|
                    placement_key(self.cut_pieces@, self.width as int, self.length as int, fr[j], p, spec_fit(fr[j], d, p, prefer_rotated), rect_choice)),
                i <= fr.len(),
                best.is_none() ==> forall|j: int| 0 <= j < i ==> #[trigger] spec_fit(fr[j], d, p, prefer_rotated) == Fit::NoFit,
                best matches Some((k, bk)) ==> k < i && spec_fit(fr[k as int], d, p, prefer_rotated) != Fit::NoFit
                    && bk.0 == key(k as int).0 && bk.1 == key(k as int).1
                    && (forall|j: int| 0 <= j < i && #[trigger] spec_fit(fr[j], d, p, prefer_rotated) != Fit::NoFit ==> !lex_less(key(j), key(k as int)))
                    && (forall|j: int| 0 <= j < k && #[trigger] spec_fit(fr[j], d, p, prefer_rotated) != Fit::NoFit ==> lex_less(key(k as int), key(j))),
            decreases fr.len() - i,
        {
            let free_rect = self.free_rects[i];
            let fit = free_rect.fit_cut_piece(self.pattern_direction, cut_piece, prefer_rotated);
            proof {
                assert(inside_bin(fr[i as int], self.width, self.length));
            }
            if fit != Fit::NoFit {
                let k = self.placement_key_of(&free_rect, cut_piece, fit, rect_choice);
                let better = match best {
                    None => true,
                    Some((_, bk)) => k.0 < bk.0 || (k.0 == bk.0 && k.1 < bk.1),
                };
                if better {
                    best = Some((i, k));
                }
            }
            i += 1;
        }
        proof {
            assert forall|j: int| 0 <= j < fr.len() implies
                (spec_fit(fr[j], d, p, prefer_rotated) == Fit::NoFit) == !fits_in(#[trigger] fr[j], d, p) by {
                lemma_fit_none(fr[j], d, p, prefer_rotated);
            }
        }
        match best {
            Some((index, _)) => {
                let free_rect = self.free_rects[index];
                let fit = free_rect.fit_cut_piece(self.pattern_direction, cut_piece, prefer_rotated);
                let is_rotated = fit.is_rotated();
                let rect = if is_rotated {
                    Rect { x: free_rect.x, y: free_rect.y, width: cut_piece.length, length: cut_piece.width }
                } else {
                    Rect { x: free_rect.x, y: free_rect.y, width: cut_piece.width, length: cut_piece.length }
                };
                proof {
                    assert(chosen_placement(*self, *cut_piece, prefer_rotated, rect_choice, index as int));
                }
                Some((rect, is_rotated))
            },
            None => None,
        }
    }
}



/// The strips of `free_rect` left around `rect`.
fn residual_strips_of(free_rect: &Rect, rect: &Rect) -> (r: Vec<Rect>)
    requires
        free_rect.x + free_rect.width <= MAX_DIM,
        free_rect.y + free_rect.length <= MAX_DIM,
        rect.x + rect.width <= MAX_DIM,
        rect.y + rect.length <= MAX_DIM,
        intersects(*rect, *free_rect),
    ensures
        r@ == residual_strips(*free_rect, *rect),
        forall|m: int| 0 <= m < r@.len() ==> rect_within(#[trigger] r@[m], *free_rect),
{
    let mut r: Vec<Rect> = Vec::new();
    if rect.y > free_rect.y && rect.y < free_rect.y + free_rect.length {
        r.push(Rect { length: rect.y - free_rect.y, ..*free_rect });
    }
    if rect.y + rect.length < free_rect.y + free_rect.length {
        r.push(Rect {
            y: rect.y + rect.length,
            length: free_rect.y + free_rect.length - rect.y - rect.length,
            ..*free_rect
        });
    }
    if rect.x > free_rect.x && rect.x < free_rect.x + free_rect.width {
        r.push(Rect { width: rect.x - free_rect.x, ..*free_rect });
    }
    if rect.x + rect.width < free_rect.x + free_rect.width {
        r.push(Rect {
            x: rect.x + rect.width,
            width: free_rect.x + free_rect.width - rect.x - rect.width,
            ..*free_rect
        });
    }
    proof {
        assert(r@ =~= residual_strips(*free_rect, *rect));
    }
    r
}

impl MaxRectsBin {
    /// `rect` grown by the kerf on every side and clipped to the bin.
    fn expanded_rect(&self, rect: &Rect) -> (r: Rect)
        requires
            self.inv(),
            inside_bin(*rect, self.width, self.length),
        ensures
            r == kerf_expanded(*rect, self.blade_width, self.width, self.length),
            inside_bin(r, self.width, self.length),
    {
        let x = if rect.x >= self.blade_width {
            rect.x - self.blade_width
        } else {
            0
        };
        let y = if rect.y >= self.blade_width {
            rect.y - self.blade_width
        } else {
            0
        };
        let mut width = rect.width + rect.x - x + self.blade_width;
        if x + width > self.width {
            width = self.width - x;
        }
        let mut length = rect.length + rect.y - y + self.blade_width;
        if y + length > self.length {
            length = self.length - y;
        }
        Rect { x, y, width, length }
    }
}

impl MaxRectsBin {
    /// Cuts the free rectangle at `free_rect_index` by `rect` grown by the kerf
    /// (clipped to the bin): if they meet, it gives way to its residual strips.
    pub fn split_free_rect(&mut self, free_rect_index: usize, rect: &Rect) -> (split: bool)
        requires
            old(self).inv(),
            free_rect_index < old(self).free_rects@.len(),
            inside_bin(*rect, old(self).width, old(self).length),
        ensures
            split == intersects(
                kerf_expanded(*rect, old(self).blade_width, old(self).width, old(self).length),
                old(self).free_rects@[free_rect_index as int],
            ),
            final(self).inv(),
            final(self).free_rects@ == split_result(
                old(self).free_rects@,
                free_rect_index as int,
                *rect,
                old(self).blade_width,
                old(self).width,
                old(self).length,
            ),
            final(self).cut_pieces == old(self).cut_pieces,
            final(self).width == old(self).width,
            final(self).length == old(self).length,
            final(self).blade_width == old(self).blade_width,
            final(self).pattern_direction == old(self).pattern_direction,
            final(self).price == old(self).price,
    {
        let ghost start = self.free_rects@;
        let free_rect = self.free_rects[free_rect_index];
        proof {
            assert(inside_bin(start[free_rect_index as int], self.width, self.length));
        }
        let rect = self.expanded_rect(rect);

        if rect.x >= free_rect.x + free_rect.width || rect.x + rect.width <= free_rect.x || rect.y
            >= free_rect.y + free_rect.length || rect.y + rect.length <= free_rect.y {
            return false;
        }
        let strips = residual_strips_of(&free_rect, &rect);
        let mut k: usize = 0;
        while k < strips.len()
            invariant
                k <= strips@.len(),
                strips@ == residual_strips(free_rect, rect),
                forall|m: int| 0 <= m < strips@.len() ==> rect_within(#[trigger] strips@[m], free_rect),
                inside_bin(free_rect, self.width, self.length),
                free_rect_index < start.len(),
                start[free_rect_index as int] == free_rect,
                self.free_rects@ == start + strips@.subrange(0, k as int),
                self.cut_pieces == old(self).cut_pieces,
                self.width == old(self).width,
                self.length == old(self).length,
                self.blade_width == old(self).blade_width,
                self.pattern_direction == old(self).pattern_direction,
                self.price == old(self).price,
                self.inv(),
            decreases strips@.len() - k,
        {
            proof {
                assert(rect_within(strips@[k as int], free_rect));
            }
            let ghost before = self.free_rects@;
            self.free_rects.push(strips[k]);
            proof {
                reveal(covered);
                assert forall|m: int| 0 <= m < self.free_rects@.len() implies covered(#[trigger] self.free_rects@[m], before) by {
                    if m < before.len() {
                        assert(rect_within(self.free_rects@[m], before[m]));
                    } else {
                        assert(before[free_rect_index as int] == free_rect);
                        assert(rect_within(self.free_rects@[m], before[free_rect_index as int]));
                    }
                }
                lemma_clear_of_covered(self.cut_pieces@, before, self.free_rects@, self.blade_width, self.width, self.length);
            }
            k += 1;
            proof {
                assert(self.free_rects@ =~= start + strips@.subrange(0, k as int));
            }
        }
        let ghost strips = strips@;
        proof {
            assert(self.free_rects@ =~= start + strips);
            assert(all_inside(self.free_rects@, self.width, self.length));
        }
        let ghost pushed = self.free_rects@;
        self.free_rects.swap_remove(free_rect_index);
        proof {
            reveal(covered);
            assert forall|m: int| 0 <= m < self.free_rects@.len() implies covered(#[trigger] self.free_rects@[m], pushed) by {
                if m == free_rect_index as int {
                    assert(rect_within(self.free_rects@[m], pushed[pushed.len() - 1]));
                } else {
                    assert(rect_within(self.free_rects@[m], pushed[m]));
                }
            }
            lemma_clear_of_covered(self.cut_pieces@, pushed, self.free_rects@, self.blade_width, self.width, self.length);
            assert(self.free_rects@ =~= pushed.update(free_rect_index as int, pushed.last()).drop_last());
            assert forall|j: int| 0 <= j < self.free_rects@.len() implies inside_bin(
                #[trigger] self.free_rects@[j],
                self.width,
                self.length,
            ) by {
                if j == free_rect_index as int {
                    assert(self.free_rects@[j] == pushed[pushed.len() - 1]);
                } else {
                    assert(self.free_rects@[j] == pushed[j]);
                }
            }
        }
        true
    }

    /// Removes the free rectangles that another free rectangle contains.
    pub fn prune_free_rects(&mut self)
        requires
            old(self).inv(),
        ensures
            final(self).inv(),
            drawn_from(final(self).free_rects@, old(self).free_rects@),
            has_contained_pair(old(self).free_rects@) ==> final(self).free_rects@.len() < old(self).free_rects@.len(),
            final(self).free_rects@.len() == old(self).free_rects@.len() ==> final(self).free_rects@ == old(self).free_rects@,
            forall|k: int| 0 <= k < old(self).free_rects@.len() ==> covered(#[trigger] old(self).free_rects@[k], final(self).free_rects@),
            final(self).cut_pieces == old(self).cut_pieces,
            final(self).width == old(self).width,
            final(self).length == old(self).length,
            final(self).blade_width == old(self).blade_width,
            final(self).pattern_direction == old(self).pattern_direction,
            final(self).price == old(self).price,
    {
        let ghost start = *self;
        proof {
            assert forall|k: int| 0 <= k < start.free_rects@.len() implies covered(#[trigger] start.free_rects@[k], self.free_rects@) by {
                reveal(covered);
                assert(rect_within(start.free_rects@[k], self.free_rects@[k]));
            }
        }
        let ghost mut removed_any = false;
        let mut i: usize = self.free_rects.len();
        while i > 0
            invariant
                !removed_any ==> self.free_rects@ == start.free_rects@,
                !removed_any ==> forall|f: int, g: int|
                    i <= f < g < start.free_rects@.len() ==> !#[trigger] nested(start.free_rects@[f], start.free_rects@[g]),
                removed_any ==> self.free_rects@.len() < start.free_rects@.len(),
                self.inv(),
                i <= self.free_rects@.len(),
                drawn_from(self.free_rects@, start.free_rects@),
                forall|k: int| 0 <= k < start.free_rects@.len() ==> covered(#[trigger] start.free_rects@[k], self.free_rects@),
                self.cut_pieces == start.cut_pieces,
                self.width == start.width,
                self.length == start.length,
                self.blade_width == start.blade_width,
                self.pattern_direction == start.pattern_direction,
                self.price == start.price,
            decreases i,
        {
            i -= 1;
            let mut j: usize = self.free_rects.len();
            while j > i + 1
                invariant
                    !removed_any ==> self.free_rects@ == start.free_rects@,
                    !removed_any ==> forall|f: int, g: int|
                        i < f < g < start.free_rects@.len() ==> !#[trigger] nested(start.free_rects@[f], start.free_rects@[g]),
                    !removed_any ==> forall|g: int|
                        j <= g < start.free_rects@.len() ==> !#[trigger] nested(start.free_rects@[i as int], start.free_rects@[g]),
                    removed_any ==> self.free_rects@.len() < start.free_rects@.len(),
                    self.inv(),
                    i + 1 <= j <= self.free_rects@.len(),
                    drawn_from(self.free_rects@, start.free_rects@),
                    forall|k: int| 0 <= k < start.free_rects@.len() ==> covered(#[trigger] start.free_rects@[k], self.free_rects@),
                forall|k: int| 0 <= k < start.free_rects@.len() ==> covered(#[trigger] start.free_rects@[k], self.free_rects@),
                    self.cut_pieces == start.cut_pieces,
                    self.width == start.width,
                    self.length == start.length,
                    self.blade_width == start.blade_width,
                    self.pattern_direction == start.pattern_direction,
                    self.price == start.price,
                decreases j,
            {
                j -= 1;
                let r = self.prune_pair(i, j, Ghost(start.free_rects@));
                proof {
                    if r {
                        removed_any = true;
                    }
                }
            }
        }
        proof {
            if !removed_any {
                assert forall|f: int, g: int|
                    0 <= f < start.free_rects@.len() && 0 <= g < start.free_rects@.len() && f != g implies !#[trigger] rect_within(
                        start.free_rects@[f],
                        start.free_rects@[g],
                    ) by {
                    if f < g {
                        assert(!nested(start.free_rects@[f], start.free_rects@[g]));
                    } else {
                        assert(!nested(start.free_rects@[g], start.free_rects@[f]));
                    }
                }
            }
        }
    }

    /// Drops the rectangle at `i` if the one at `j` contains it, or else the
    /// one at `j` if the one at `i` contains it.
    fn prune_pair(&mut self, i: usize, j: usize, Ghost(origin): Ghost<Seq<Rect>>) -> (removed: bool)
        requires
            old(self).inv(),
            i < j < old(self).free_rects@.len(),
            drawn_from(old(self).free_rects@, origin),
            forall|k: int| 0 <= k < origin.len() ==> covered(#[trigger] origin[k], old(self).free_rects@),
        ensures
            removed == nested(old(self).free_rects@[i as int], old(self).free_rects@[j as int]),
            removed ==> final(self).free_rects@.len() == old(self).free_rects@.len() - 1,
            !removed ==> final(self).free_rects@ == old(self).free_rects@,
            final(self).inv(),
            drawn_from(final(self).free_rects@, origin),
            forall|k: int| 0 <= k < origin.len() ==> covered(#[trigger] origin[k], final(self).free_rects@),
            old(self).free_rects@.len() - 1 <= final(self).free_rects@.len() <= old(self).free_rects@.len(),
            final(self).cut_pieces == old(self).cut_pieces,
            final(self).width == old(self).width,
            final(self).length == old(self).length,
            final(self).blade_width == old(self).blade_width,
            final(self).pattern_direction == old(self).pattern_direction,
            final(self).price == old(self).price,
    {
        let a = self.free_rects[i];
        let b = self.free_rects[j];
        let ghost before = self.free_rects@;
        if b.contains(&a) {
            self.free_rects.swap_remove(i);
            proof {
                lemma_drop_contained(before, i as int, j as int, origin, self.width, self.length);
            }
            true
        } else if a.contains(&b) {
            self.free_rects.swap_remove(j);
            proof {
                lemma_drop_contained(before, j as int, i as int, origin, self.width, self.length);
            }
            true
        } else {
            false
        }
    }

    /// Splits overlapping free rectangles until they are disjoint, cutting the
    /// smaller of each pair by the larger.
    pub fn make_free_rects_disjoint(&mut self) -> (split_any: bool)
        requires
            old(self).inv(),
        ensures
            final(self).inv(),
            split_any == has_overlapping_pair(old(self).free_rects@, old(self).blade_width, old(self).width, old(self).length),
            !split_any ==> final(self).free_rects@ == old(self).free_rects@,
            final(self).cut_pieces == old(self).cut_pieces,
            final(self).width == old(self).width,
            final(self).length == old(self).length,
            final(self).blade_width == old(self).blade_width,
            final(self).pattern_direction == old(self).pattern_direction,
            final(self).price == old(self).price,
    {
        let ghost start = *self;
        let ghost sf = start.free_rects@;
        let ghost (k, w, l) = (start.blade_width, start.width, start.length);
        let length = self.free_rects.len();
        let mut split_any = false;
        let mut stop = false;
        let mut i: usize = length;
        while i > 0 && !stop
            invariant
                self.inv(),
                i <= length,
                length == sf.len(),
                !split_any ==> self.free_rects@ == sf && !stop,
                !split_any ==> forall|f: int, g: int| i <= f < g < sf.len() ==> !#[trigger] overlap_pair(sf[f], sf[g], k, w, l),
                split_any ==> has_overlapping_pair(sf, k, w, l),
                sf == start.free_rects@,
                k == start.blade_width,
                w == start.width,
                l == start.length,
                self.cut_pieces == start.cut_pieces,
                self.width == start.width,
                self.length == start.length,
                self.blade_width == start.blade_width,
                self.pattern_direction == start.pattern_direction,
                self.price == start.price,
            decreases i,
        {
            i -= 1;
            let mut j: usize = length;
            let mut stop_inner = false;
            while j > i + 1 && !stop_inner
                invariant
                    self.inv(),
                    i + 1 <= j <= length,
                    length == sf.len(),
                    !split_any ==> self.free_rects@ == sf && !stop && !stop_inner,
                    !split_any ==> forall|f: int, g: int| i < f < g < sf.len() ==> !#[trigger] overlap_pair(sf[f], sf[g], k, w, l),
                    !split_any ==> forall|g: int| j <= g < sf.len() ==> !#[trigger] overlap_pair(sf[i as int], sf[g], k, w, l),
                    split_any ==> has_overlapping_pair(sf, k, w, l),
                    sf == start.free_rects@,
                    k == start.blade_width,
                    w == start.width,
                    l == start.length,
                    self.cut_pieces == start.cut_pieces,
                    self.width == start.width,
                    self.length == start.length,
                    self.blade_width == start.blade_width,
                    self.pattern_direction == start.pattern_direction,
                    self.price == start.price,
                decreases j,
            {
                j -= 1;
                if j >= self.free_rects.len() {
                    stop_inner = true;
                } else if i >= self.free_rects.len() {
                    stop_inner = true;
                    stop = true;
                } else {
                    let a = self.free_rects[i];
                    let b = self.free_rects[j];
                    proof {
                        assert(inside_bin(self.free_rects@[i as int], self.width, self.length));
                        assert(inside_bin(self.free_rects@[j as int], self.width, self.length));
                        assert(a.width * a.length <= MAX_DIM * MAX_DIM) by (nonlinear_arith)
                            requires a.width <= MAX_DIM, a.length <= MAX_DIM;
                        assert(b.width * b.length <= MAX_DIM * MAX_DIM) by (nonlinear_arith)
                            requires b.width <= MAX_DIM, b.length <= MAX_DIM;
                    }
                    let ghost was_split = split_any;
                    let did = if a.width as u128 * a.length as u128 > b.width as u128 * b.length as u128 {
                        self.split_free_rect(j, &a)
                    } else {
                        self.split_free_rect(i, &b)
                    };
                    proof {
                        if !was_split {
                            assert(did == overlap_pair(sf[i as int], sf[j as int], k, w, l));
                        }
                    }
                    if did {
                        split_any = true;
                    }
                }
            }
        }
        proof {
            if !split_any {
                assert(!has_overlapping_pair(sf, k, w, l));
            }
        }
        split_any
    }

    /// Removes the placed pieces whose ids are listed and appends their
    /// rectangles to the free list, in order; the free list is not merged, as
    /// its rectangles may overlap. Says how many were removed.
    pub fn remove_pieces_by_id(&mut self, ids: &Vec<usize>) -> (r: usize)
        requires
            old(self).inv(),
        ensures
            final(self).inv(),
            final(self).cut_pieces@ == old(self).cut_pieces@.filter(kept_by(ids@)),
            final(self).free_rects@ == old(self).free_rects@ + old(self).cut_pieces@.filter(removed_by(ids@)).map_values(
                |u: UsedCutPiece| rect_of(u),
            ),
            final(self).free_rects@.len() == old(self).free_rects@.len() + old(self).cut_pieces@.filter(removed_by(ids@)).len(),
            forall|m: int|
                0 <= m < old(self).cut_pieces@.filter(removed_by(ids@)).len() ==> final(self).free_rects@[old(self).free_rects@.len() + m]
                    == (#[trigger] old(self).cut_pieces@.filter(removed_by(ids@))[m]).rect,
            r == old(self).cut_pieces@.len() - final(self).cut_pieces@.len(),
            final(self).width == old(self).width,
            final(self).length == old(self).length,
            final(self).blade_width == old(self).blade_width,
            final(self).pattern_direction == old(self).pattern_direction,
            final(self).price == old(self).price,
    {
        let ghost start = *self;
        let ghost pieces = self.cut_pieces@;
        let ghost f = kept_by(ids@);
        let ghost g = removed_by(ids@);
        let ghost h = |u: UsedCutPiece| rect_of(u);
        let ghost mut from: Seq<int> = Seq::empty();
        let ghost mut rfrom: Seq<int> = Seq::empty();
        let mut kept: Vec<UsedCutPiece> = Vec::new();
        let mut i: usize = 0;
        while i < self.cut_pieces.len()
            invariant
                start.inv(),
                pieces == start.cut_pieces@,
                self.cut_pieces == start.cut_pieces,
                self.width == start.width,
                self.length == start.length,
                self.blade_width == start.blade_width,
                self.pattern_direction == start.pattern_direction,
                self.price == start.price,
                f == kept_by(ids@),
                g == removed_by(ids@),
                h == (|u: UsedCutPiece| rect_of(u)),
                i <= pieces.len(),
                kept@ == pieces.subrange(0, i as int).filter(f),
                self.free_rects@ == start.free_rects@ + pieces.subrange(0, i as int).filter(g).map_values(h),
                kept@.len() <= i,
                from.len() == kept@.len(),
                forall|m: int| 0 <= m < from.len() ==> 0 <= #[trigger] from[m] < i && kept@[m] == pieces[from[m]] && !ids@.contains(pieces[from[m]].id),
                forall|a: int, b: int| 0 <= a < b < from.len() ==> #[trigger] from[a] < #[trigger] from[b],
                self.free_rects@.len() == start.free_rects@.len() + rfrom.len(),
                forall|t: int| 0 <= t < rfrom.len() ==> 0 <= #[trigger] rfrom[t] < i && self.free_rects@[start.free_rects@.len() + t]
                    == pieces[rfrom[t]].rect && ids@.contains(pieces[rfrom[t]].id),
            decreases pieces.len() - i,
        {
            let u = self.cut_pieces[i];
            proof {
                assert(pieces.subrange(0, i + 1) =~= pieces.subrange(0, i as int).push(u));
                pieces.subrange(0, i as int).lemma_filter_push(u, f);
                pieces.subrange(0, i as int).lemma_filter_push(u, g);
                pieces.subrange(0, i as int).filter(g).lemma_push_map_commute(h, u);
            }
            if contains_id(ids, u.id) {
                self.free_rects.push(u.rect);
                proof {
                    rfrom = rfrom.push(i as int);
                    assert(self.free_rects@ =~= start.free_rects@ + pieces.subrange(0, i + 1).filter(g).map_values(h));
                }
            } else {
                kept.push(u);
                proof {
                    from = from.push(i as int);
                    assert(self.free_rects@ =~= start.free_rects@ + pieces.subrange(0, i + 1).filter(g).map_values(h));
                }
            }
            i += 1;
        }
        proof {
            assert(pieces.subrange(0, pieces.len() as int) =~= pieces);
        }
        let old_len = self.cut_pieces.len();
        self.cut_pieces = kept;
        proof {
            let w = self.width;
            let l = self.length;
            let k = self.blade_width;
            let fr = self.free_rects@;
            let n0 = start.free_rects@.len();
            assert forall|a: int| 0 <= a < self.cut_pieces@.len() implies inside_bin(#[trigger] self.cut_pieces@[a].rect, w, l)
                && self.cut_pieces@[a].pattern_direction == self.pattern_direction && self.cut_pieces@[a].rect.width >= 1
                && self.cut_pieces@[a].rect.length >= 1 by {
                assert(self.cut_pieces@[a] == pieces[from[a]]);
            }
            assert forall|m: int| 0 <= m < fr.len() implies inside_bin(#[trigger] fr[m], w, l) by {
                if m >= n0 {
                    assert(fr[m] == pieces[rfrom[m - n0]].rect);
                    assert(inside_bin(pieces[rfrom[m - n0]].rect, w, l));
                } else {
                    assert(fr[m] == start.free_rects@[m]);
                }
            }
            assert forall|a: int, m: int| 0 <= a < self.cut_pieces@.len() && 0 <= m < fr.len() implies !intersects(
                kerf_expanded(#[trigger] self.cut_pieces@[a].rect, k, w, l),
                #[trigger] fr[m],
            ) by {
                assert(self.cut_pieces@[a] == pieces[from[a]]);
                if m >= n0 {
                    let q = rfrom[m - n0];
                    assert(fr[m] == pieces[q].rect);
                    assert(from[a] != q);
                    assert(!intersects(kerf_expanded(pieces[from[a]].rect, k, w, l), pieces[q].rect));
                } else {
                    assert(fr[m] == start.free_rects@[m]);
                    assert(!intersects(kerf_expanded(pieces[from[a]].rect, k, w, l), start.free_rects@[m]));
                }
            }
            assert forall|a: int, b: int| 0 <= a < self.cut_pieces@.len() && 0 <= b < self.cut_pieces@.len() && a != b implies !intersects(
                kerf_expanded(#[trigger] self.cut_pieces@[a].rect, k, w, l),
                #[trigger] self.cut_pieces@[b].rect,
            ) by {
                assert(self.cut_pieces@[a] == pieces[from[a]]);
                assert(self.cut_pieces@[b] == pieces[from[b]]);
                if a < b {
                    assert(from[a] < from[b]);
                } else {
                    assert(from[b] < from[a]);
                }
            }
        }
        proof {
            let mv = pieces.filter(g);
            assert(self.free_rects@ == start.free_rects@ + mv.map_values(h));
            assert forall|m: int| 0 <= m < mv.len() implies self.free_rects@[start.free_rects@.len() + m] == (#[trigger] mv[m]).rect by {
                assert(mv.map_values(h)[m] == h(mv[m]));
            }
        }
        old_len - self.cut_pieces.len()
    }

    /// Inserts the piece by the choice and turn rules if some free rectangle
    /// takes it: the free list is cut by the placed piece and pruned.
    pub fn insert_with_heuristics(
        &mut self,
        cut_piece: &CutPieceWithId,
        rect_choice: FreeRectChoiceHeuristic,
        rotate_preference: RotateCutPieceHeuristic,
    ) -> (r: bool)
        requires
            old(self).inv(),
            piece_ok(*cut_piece),
        ensures
            final(self).inv(),
            r == exists|j: int| 0 <= j < old(self).free_rects@.len() && fits_in(
                #[trigger] old(self).free_rects@[j],
                old(self).pattern_direction,
                *cut_piece,
            ),
            final(self).width == old(self).width,
            final(self).length == old(self).length,
            final(self).blade_width == old(self).blade_width,
            final(self).pattern_direction == old(self).pattern_direction,
            final(self).price == old(self).price,
            r ==> exists|k: int| chosen_placement(
                *old(self),
                *cut_piece,
                rotate_preference == RotateCutPieceHeuristic::PreferRotated,
                rect_choice,
                k,
            ) && final(self).cut_pieces@ == old(self).cut_pieces@.push(
                placed_piece(
                    old(self).free_rects@[k],
                    *cut_piece,
                    spec_fit(
                        old(self).free_rects@[k],
                        old(self).pattern_direction,
                        *cut_piece,
                        rotate_preference == RotateCutPieceHeuristic::PreferRotated,
                    ).spec_is_rotated(),
                ),
            ),
            !r ==> *final(self) == *old(self),
            r ==> forall|m: int| 0 <= m < final(self).free_rects@.len() ==> !intersects(
                kerf_expanded(final(self).cut_pieces@.last().rect, final(self).blade_width, final(self).width, final(self).length),
                #[trigger] final(self).free_rects@[m],
            ),
    {
        let prefer_rotated = rotate_preference == RotateCutPieceHeuristic::PreferRotated;
        let found = self.find_placement_for_cut_piece(cut_piece, rect_choice, prefer_rotated);
        match found {
            Some((best_rect, is_rotated)) => {
                let ghost start = *self;
                let ghost k = choose|k: int|
                    chosen_placement(*self, *cut_piece, prefer_rotated, rect_choice, k)
                    && is_rotated == spec_fit(self.free_rects@[k], self.pattern_direction, *cut_piece, prefer_rotated).spec_is_rotated()
                    && best_rect == placed_rect(self.free_rects@[k], *cut_piece, is_rotated);
                proof {
                    lemma_fit_places_inside(start.free_rects@[k], self.pattern_direction, *cut_piece, prefer_rotated);
                    assert(inside_bin(start.free_rects@[k], self.width, self.length));
                    assert(inside_bin(best_rect, self.width, self.length));
                    lemma_expanded_inside(best_rect, self.blade_width, self.width, self.length);
                }
                let mut i: usize = self.free_rects.len();
                while i > 0
                    invariant
                        self.inv(),
                        i <= self.free_rects@.len(),
                        inside_bin(best_rect, self.width, self.length),
                        inside_bin(kerf_expanded(best_rect, self.blade_width, self.width, self.length), self.width, self.length),
                        forall|m: int| i <= m < self.free_rects@.len() ==> !intersects(
                            kerf_expanded(best_rect, self.blade_width, self.width, self.length),
                            #[trigger] self.free_rects@[m],
                        ),
                        self.cut_pieces == start.cut_pieces,
                        self.width == start.width,
                        self.length == start.length,
                        self.blade_width == start.blade_width,
                        self.pattern_direction == start.pattern_direction,
                        self.price == start.price,
                    decreases i,
                {
                    i -= 1;
                    let ghost before = self.free_rects@;
                    let _ = self.split_free_rect(i, &best_rect);
                    proof {
                        lemma_split_keeps_apart(before, i as int, best_rect, self.blade_width, self.width, self.length);
                    }
                }
                let ghost pre = self.free_rects@;
                self.prune_free_rects();
                proof {
                    let e = kerf_expanded(best_rect, self.blade_width, self.width, self.length);
                    assert forall|m: int| 0 <= m < self.free_rects@.len() implies !intersects(e, #[trigger] self.free_rects@[m]) by {
                        let t = choose|t: int| 0 <= t < pre.len() && pre[t] == self.free_rects@[m];
                        assert(!intersects(e, pre[t]));
                    }
                }
                let pattern_direction = if is_rotated {
                    cut_piece.pattern_direction.rotated()
                } else {
                    cut_piece.pattern_direction
                };
                let used = UsedCutPiece {
                    id: cut_piece.id,
                    external_id: cut_piece.external_id,
                    rect: best_rect,
                    can_rotate: cut_piece.can_rotate,
                    pattern_direction,
                    is_rotated,
                };
                proof {
                    assert(used == placed_piece(start.free_rects@[k], *cut_piece, is_rotated));
                    assert(used.pattern_direction == self.pattern_direction);
                }
                let ghost before = self.cut_pieces@;
                self.cut_pieces.push(used);
                proof {
                    lemma_push_piece_inside(before, used, self.width, self.length, self.pattern_direction);
                    assert(self.cut_pieces@ == before.push(used));
                    assert forall|a: int| 0 <= a < before.len() implies !intersects(
                        kerf_expanded(#[trigger] before[a].rect, self.blade_width, self.width, self.length),
                        start.free_rects@[k],
                    ) by {
                    }
                    assert forall|a: int| 0 <= a < before.len() implies inside_bin(#[trigger] before[a].rect, self.width, self.length) by {
                    }
                    lemma_push_apart(before, start.free_rects@[k], used, self.blade_width, self.width, self.length);
                    lemma_push_clear(before, self.free_rects@, used, self.blade_width, self.width, self.length);
                    assert(pieces_inside(self.cut_pieces@, self.width, self.length, self.pattern_direction));
                }
                true
            },
            None => false,
        }
    }
}

impl Bin for MaxRectsBin {
    type Heuristic = (FreeRectChoiceHeuristic, RotateCutPieceHeuristic);

    open spec fn wf(&self) -> bool {
        self.inv()
    }

    open spec fn spec_width(&self) -> usize {
        self.width
    }

    open spec fn spec_length(&self) -> usize {
        self.length
    }

    open spec fn spec_direction(&self) -> PatternDirection {
        self.pattern_direction
    }

    open spec fn spec_price(&self) -> usize {
        self.price
    }

    open spec fn spec_blade(&self) -> usize {
        self.blade_width
    }

    open spec fn spec_free(&self) -> Seq<Rect> {
        self.free_rects@
    }

    open spec fn spec_pieces(&self) -> Seq<UsedCutPiece> {
        self.cut_pieces@
    }

    open spec fn spec_heuristic_count() -> nat {
        10
    }

    /// Each choice rule, first upright then turned.
    open spec fn spec_heuristics() -> Seq<Self::Heuristic> {
        seq![
            (FreeRectChoiceHeuristic::BestShortSideFit, RotateCutPieceHeuristic::PreferUpright),
            (FreeRectChoiceHeuristic::BestLongSideFit, RotateCutPieceHeuristic::PreferUpright),
            (FreeRectChoiceHeuristic::BestAreaFit, RotateCutPieceHeuristic::PreferUpright),
            (FreeRectChoiceHeuristic::BottomLeftRule, RotateCutPieceHeuristic::PreferUpright),
            (FreeRectChoiceHeuristic::ContactPointRule, RotateCutPieceHeuristic::PreferUpright),
            (FreeRectChoiceHeuristic::BestShortSideFit, RotateCutPieceHeuristic::PreferRotated),
            (FreeRectChoiceHeuristic::BestLongSideFit, RotateCutPieceHeuristic::PreferRotated),
            (FreeRectChoiceHeuristic::BestAreaFit, RotateCutPieceHeuristic::PreferRotated),
            (FreeRectChoiceHeuristic::BottomLeftRule, RotateCutPieceHeuristic::PreferRotated),
            (FreeRectChoiceHeuristic::ContactPointRule, RotateCutPieceHeuristic::PreferRotated),
        ]
    }

    open spec fn spec_can_place(&self, p: CutPieceWithId) -> bool {
        exists|j: int| 0 <= j < self.free_rects@.len() && fits_in(#[trigger] self.free_rects@[j], self.pattern_direction, p)
    }

    fn new(
        width: usize,
        length: usize,
        blade_width: usize,
        pattern_direction: PatternDirection,
        price: usize,
    ) -> (r: Self) {
        let free_rect = Rect { x: 0, y: 0, width, length };
        let mut free_rects: Vec<Rect> = Vec::new();
        free_rects.push(free_rect);
        let r = MaxRectsBin {
            width,
            length,
            free_rects,
            blade_width,
            pattern_direction,
            cut_pieces: Vec::new(),
            price,
        };
        proof {
            assert(r.free_rects@[0] == free_rect);
            assert forall|p: CutPieceWithId| r.spec_can_place(p) == fits_in(free_rect, pattern_direction, p) by {
                if fits_in(free_rect, pattern_direction, p) {
                    assert(fits_in(r.free_rects@[0], pattern_direction, p));
                }
            }
        }
        r
    }

    fn price(&self) -> (r: usize) {
        self.price
    }

    fn remove_cut_pieces(&mut self, ids: &Vec<usize>) -> (r: usize) {
        let ghost old_pieces = self.cut_pieces@;
        let ghost old_free = self.free_rects@;
        let r = self.remove_pieces_by_id(ids);
        proof {
            reveal(covered);
            let g = removed_by(ids@);
            let moved = old_pieces.filter(g);
            assert forall|k: int| 0 <= k < old_free.len() implies covered(#[trigger] old_free[k], self.free_rects@) by {
                assert(self.free_rects@[k] == old_free[k]);
                assert(rect_within(old_free[k], self.free_rects@[k]));
            }
            assert forall|k: int| 0 <= k < old_pieces.len() && ids@.contains(old_pieces[k].id) implies covered(
                #[trigger] old_pieces[k].rect,
                self.free_rects@,
            ) by {
                assert(old_pieces.contains(old_pieces[k]));
                old_pieces.lemma_filter_contains_rev(g, old_pieces[k]);
                let m = choose|m: int| 0 <= m < moved.len() && moved[m] == old_pieces[k];
                assert(moved == old_pieces.filter(removed_by(ids@)));
                assert(0 <= m < old_pieces.filter(removed_by(ids@)).len());
                assert(self.free_rects@[old_free.len() + m] == old_pieces.filter(removed_by(ids@))[m].rect);
                assert(rect_within(old_pieces[k].rect, self.free_rects@[old_free.len() + m]));
            }
        }
        r
    }

    fn cut_pieces(&self) -> (r: &[UsedCutPiece]) {
        &self.cut_pieces
    }

    fn possible_heuristics() -> (r: Vec<Self::Heuristic>) {
        Self::heuristics()
    }

    fn insert_cut_piece_with_heuristic(&mut self, cut_piece: &CutPieceWithId, heuristic: &Self::Heuristic) -> (r: bool) {
        let r = self.insert_with_heuristics(cut_piece, heuristic.0, heuristic.1);
        proof {
            if r {
                let prefer = heuristic.1 == RotateCutPieceHeuristic::PreferRotated;
                let k = choose|k: int| chosen_placement(*old(self), *cut_piece, prefer, heuristic.0, k)
                    && self.cut_pieces@ == old(self).cut_pieces@.push(
                    placed_piece(
                        old(self).free_rects@[k],
                        *cut_piece,
                        spec_fit(old(self).free_rects@[k], old(self).pattern_direction, *cut_piece, prefer).spec_is_rotated(),
                    ),
                );
                lemma_placed_demanded(
                    old(self).free_rects@[k],
                    *cut_piece,
                    spec_fit(old(self).free_rects@[k], old(self).pattern_direction, *cut_piece, prefer).spec_is_rotated(),
                );
                assert(self.cut_pieces@.drop_last() =~= old(self).cut_pieces@);
            }
        }
        r
    }

    fn insert_cut_piece_random_heuristic(&mut self, cut_piece: &CutPieceWithId, rng: &mut StdRng) -> (r: bool) {
        let c = gen_range(rng, 0, 4);
        let rect_choice = if c == 0 {
            FreeRectChoiceHeuristic::BestShortSideFit
        } else if c == 1 {
            FreeRectChoiceHeuristic::BestLongSideFit
        } else if c == 2 {
            FreeRectChoiceHeuristic::BestAreaFit
        } else if c == 3 {
            FreeRectChoiceHeuristic::BottomLeftRule
        } else {
            FreeRectChoiceHeuristic::ContactPointRule
        };
        let t = gen_range(rng, 0, 1);
        let rotate = if t == 0 {
            RotateCutPieceHeuristic::PreferUpright
        } else {
            RotateCutPieceHeuristic::PreferRotated
        };
        self.insert_cut_piece_with_heuristic(cut_piece, &(rect_choice, rotate))
    }

    fn matches_stock_piece(&self, stock_piece: &StockPiece) -> (r: bool) {
        self.width == stock_piece.width && self.length == stock_piece.length && self.pattern_direction
            == stock_piece.pattern_direction && self.price == stock_piece.price
    }

    fn copy(&self) -> (r: Self) {
        let r = MaxRectsBin {
            width: self.width,
            length: self.length,
            blade_width: self.blade_width,
            pattern_direction: self.pattern_direction,
            cut_pieces: copy_vec(&self.cut_pieces),
            free_rects: copy_vec(&self.free_rects),
            price: self.price,
        };
        proof {
            assert(r.free_rects@ == self.free_rects@);
            assert forall|p: CutPieceWithId| r.spec_can_place(p) == self.spec_can_place(p) by {
                if r.spec_can_place(p) {
                    let j = choose|j: int| 0 <= j < r.free_rects@.len() && fits_in(#[trigger] r.free_rects@[j], r.pattern_direction, p);
                    assert(fits_in(self.free_rects@[j], self.pattern_direction, p));
                }
                if self.spec_can_place(p) {
                    let j = choose|j: int| 0 <= j < self.free_rects@.len() && fits_in(#[trigger] self.free_rects@[j], self.pattern_direction, p);
                    assert(fits_in(r.free_rects@[j], r.pattern_direction, p));
                }
            }
        }
        r
    }

    fn into_result(self) -> (r: ResultStockPiece) {
        let mut bin = self;
        let _ = bin.make_free_rects_disjoint();
        let mut cut_pieces: Vec<ResultCutPiece> = Vec::new();
        let mut i: usize = 0;
        while i < bin.cut_pieces.len()
            invariant
                i <= bin.cut_pieces@.len(),
                cut_pieces@.len() == i,
                forall|j: int| 0 <= j < i ==> cut_pieces@[j] == bin.cut_pieces@[j].spec_result(),
            decreases bin.cut_pieces@.len() - i,
        {
            cut_pieces.push(bin.cut_pieces[i].to_result());
            i += 1;
        }
        ResultStockPiece {
            width: bin.width,
            length: bin.length,
            pattern_direction: bin.pattern_direction,
            cut_pieces,
            waste_pieces: bin.free_rects,
            price: bin.price,
        }
    }

    proof fn lemma_pieces_inside(&self) {
        MaxRectsBin::lemma_pieces_do_not_overlap(*self);
    }
}

impl MaxRectsBin {
    /// No placed piece of a valid nested bin meets another grown by the kerf;
    /// so no two placed pieces overlap, whatever the kerf, and none contains
    /// another.
    pub proof fn lemma_pieces_do_not_overlap(bin: MaxRectsBin)
        requires
            bin.inv(),
        ensures
            forall|a: int, b: int|
                0 <= a < bin.cut_pieces@.len() && 0 <= b < bin.cut_pieces@.len() && a != b ==> !intersects(
                    kerf_expanded(#[trigger] bin.cut_pieces@[a].rect, bin.blade_width, bin.width, bin.length),
                    #[trigger] bin.cut_pieces@[b].rect,
                ),
            forall|a: int, b: int|
                0 <= a < bin.cut_pieces@.len() && 0 <= b < bin.cut_pieces@.len() && a != b ==> !intersects(
                    #[trigger] bin.cut_pieces@[a].rect,
                    #[trigger] bin.cut_pieces@[b].rect,
                ) && !rect_within(bin.cut_pieces@[a].rect, bin.cut_pieces@[b].rect),
    {
        assert forall|a: int, b: int|
            0 <= a < bin.cut_pieces@.len() && 0 <= b < bin.cut_pieces@.len() && a != b implies !intersects(
                #[trigger] bin.cut_pieces@[a].rect,
                #[trigger] bin.cut_pieces@[b].rect,
            ) && !rect_within(bin.cut_pieces@[a].rect, bin.cut_pieces@[b].rect) by {
            let p = bin.cut_pieces@[a].rect;
            let q = bin.cut_pieces@[b].rect;
            assert(inside_bin(p, bin.width, bin.length));
            assert(inside_bin(q, bin.width, bin.length));
            let e = kerf_expanded(p, bin.blade_width, bin.width, bin.length);
            assert(rect_within(p, e));
            assert(!intersects(e, q));
            lemma_within_clear(q, e, p);
        }
    }
}

} // verus!
