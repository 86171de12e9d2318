//! Guillotine bin packing: every cut runs from one side of a free rectangle to
//! the other, so the free space stays a list of disjoint rectangles.
use crate::bin::{kept_by, Bin};
use crate::geometry::{
    contains_id, fits_in, inside_bin, lemma_fit_none, lemma_fit_places_inside,
    lemma_placed_demanded, piece_ok, placed_piece, rect_within, spec_fit, CutPieceWithId, Fit,
    PatternDirection, Rect, ResultCutPiece, ResultStockPiece, StockPiece, UsedCutPiece, MAX_DIM,
};
use crate::lists::{
    copy_pieces, copy_rects, new_pieces, new_rects, piece_at, piece_list, pieces_as_slice, pieces_from_vec,
    pieces_len, push_piece, push_rect, rect_at, rect_list, rects_into_vec, rects_len, set_rect, swap_remove_rect,
    PieceList, RectList,
};
use crate::maxrects::{
    free_clear, intersects, kerf_expanded, lemma_grown_meet_symmetric, lemma_push_apart, lemma_push_clear, lemma_within_clear,
    pieces_apart,
};
use crate::random::gen_range;
use rand::rngs::StdRng;
use vstd::prelude::*;

verus! {

/// Heuristics for deciding which of the free rectangles to place the piece in.
#[derive(Copy, Clone, Debug, PartialEq, Eq, Structural)]
pub enum FreeRectChoiceHeuristic {
    BestAreaFit,
    BestShortSideFit,
    BestLongSideFit,
    WorstAreaFit,
    WorstShortSideFit,
    WorstLongSideFit,
    SmallestY,
}

/// Heuristic for subdividing the free space that remains after placing a piece.
#[derive(Copy, Clone, Debug, PartialEq, Eq, Structural)]
pub enum SplitHeuristic {
    ShorterLeftoverAxis,
    LongerLeftoverAxis,
    MinimizeArea,
    MaximizeArea,
    ShorterAxis,
    LongerAxis,
}

/// Heuristic for whether to prefer turning pieces.
#[derive(Copy, Clone, Debug, PartialEq, Eq, Structural)]
pub enum RotateCutPieceHeuristic {
    PreferUpright,
    PreferRotated,
}

/// Direction of the cut that splits the L-shaped leftover.
#[derive(Copy, Clone, Debug, PartialEq, Eq, Structural)]
pub enum SplitAxis {
    Horizontal,
    Vertical,
}

/// A bin whose free space is a list of rectangles cut off edge to edge.
#[derive(Debug)]
pub struct GuillotineBin {
    pub width: usize,
    pub length: usize,
    pub blade_width: usize,
    pub pattern_direction: PatternDirection,
    pub cut_pieces: PieceList,
    pub free_rects: RectList,
    pub price: usize,
}

pub open spec fn abs_diff(a: usize, b: usize) -> int {
    if a >= b { a - b } else { b - a }
}

/// The score of placing a `width` by `length` piece into `free`: lower is better.
pub open spec fn spec_score(width: usize, length: usize, free: Rect, choice: FreeRectChoiceHeuristic) -> int {
    let short = if abs_diff(free.width, width) <= abs_diff(free.length, length) {
        abs_diff(free.width, width)
    } else {
        abs_diff(free.length, length)
    };
    let long = if abs_diff(free.width, width) <= abs_diff(free.length, length) {
        abs_diff(free.length, length)
    } else {
        abs_diff(free.width, width)
    };
    let area = free.width * free.length - width * length;
    match choice {
        FreeRectChoiceHeuristic::BestAreaFit => area,
        FreeRectChoiceHeuristic::BestShortSideFit => short,
        FreeRectChoiceHeuristic::BestLongSideFit => long,
        FreeRectChoiceHeuristic::WorstAreaFit => -area,
        FreeRectChoiceHeuristic::WorstShortSideFit => -short,
        FreeRectChoiceHeuristic::WorstLongSideFit => -long,
        FreeRectChoiceHeuristic::SmallestY => free.y as int,
    }
}

/// The score of a fit, with the piece turned when the fit is.
pub open spec fn fit_score(free: Rect, p: CutPieceWithId, fit: Fit, choice: FreeRectChoiceHeuristic) -> int {
    if fit.spec_is_rotated() {
        spec_score(p.length, p.width, free, choice)
    } else {
        spec_score(p.width, p.length, free, choice)
    }
}

pub open spec fn is_exact(f: Fit) -> bool {
    f == Fit::UprightExact || f == Fit::RotatedExact
}

/// `k` is the free rectangle that the choice rule picks among `free`: the first
/// exact fit if there is one, otherwise the first of least score.
pub open spec fn chosen_rect(
    free: Seq<Rect>,
    d: PatternDirection,
    p: CutPieceWithId,
    prefer: bool,
    choice: FreeRectChoiceHeuristic,
    k: int,
) -> bool {
    &&& 0 <= k < free.len()
    &&& spec_fit(free[k], d, p, prefer) != Fit::NoFit
    &&& (exists|j: int| 0 <= j < free.len() && is_exact(#[trigger] spec_fit(free[j], d, p, prefer)))
        ==> is_exact(spec_fit(free[k], d, p, prefer)) && forall|j: int|
        0 <= j < k ==> !is_exact(#[trigger] spec_fit(free[j], d, p, prefer))
    &&& !(exists|j: int| 0 <= j < free.len() && is_exact(#[trigger] spec_fit(free[j], d, p, prefer)))
        ==> (forall|j: int|
        0 <= j < free.len() && #[trigger] spec_fit(free[j], d, p, prefer) != Fit::NoFit ==> fit_score(
            free[k],
            p,
            spec_fit(free[k], d, p, prefer),
            choice,
        ) <= fit_score(free[j], p, spec_fit(free[j], d, p, prefer), choice)) && (forall|j: int|
        0 <= j < k && #[trigger] spec_fit(free[j], d, p, prefer) != Fit::NoFit ==> fit_score(
            free[k],
            p,
            spec_fit(free[k], d, p, prefer),
            choice,
        ) < fit_score(free[j], p, spec_fit(free[j], d, p, prefer), choice))
}

/// Whether the split rule cuts horizontally, so that the low part spans the
/// free rectangle's width.
pub open spec fn spec_split_horizontal(free: Rect, rect: Rect, method: SplitHeuristic) -> bool {
    let w = free.width - rect.width;
    let h = free.length - rect.length;
    match method {
        SplitHeuristic::ShorterLeftoverAxis => w <= h,
        SplitHeuristic::LongerLeftoverAxis => w > h,
        SplitHeuristic::MinimizeArea => rect.width * h > w * rect.length,
        SplitHeuristic::MaximizeArea => rect.width * h <= w * rect.length,
        SplitHeuristic::ShorterAxis => free.width <= free.length,
        SplitHeuristic::LongerAxis => free.width > free.length,
    }
}

/// The free rectangles left of `free` once `rect` is cut from its low corner:
/// the part beyond the piece's length, then the part beyond its width, each
/// less the kerf and dropped when empty.
pub open spec fn split_parts(free: Rect, rect: Rect, axis: SplitAxis, kerf: usize) -> Seq<Rect> {
    let bottom_width = if axis == SplitAxis::Horizontal { free.width } else { rect.width };
    let right_length = if axis == SplitAxis::Horizontal { rect.length } else { free.length };
    let h = free.length - rect.length;
    let w = free.width - rect.width;
    let bottom_length: int = if h > kerf { h - kerf } else { 0 };
    let right_width: int = if w > kerf { w - kerf } else { 0 };
    let bottom = Rect {
        x: free.x,
        y: (free.y + rect.length + kerf) as usize,
        width: bottom_width,
        length: bottom_length as usize,
    };
    let right = Rect {
        x: (free.x + rect.width + kerf) as usize,
        y: free.y,
        width: right_width as usize,
        length: right_length,
    };
    let s1 = if bottom_width > 0 && bottom_length > 0 { seq![bottom] } else { Seq::<Rect>::empty() };
    let s2 = if right_width > 0 && right_length > 0 { seq![right] } else { Seq::<Rect>::empty() };
    s1 + s2
}

/// The choice rule numbered `i` among those drawn at random.
pub open spec fn random_choice(i: usize) -> FreeRectChoiceHeuristic {
    if i == 0 {
        FreeRectChoiceHeuristic::BestAreaFit
    } else if i == 1 {
        FreeRectChoiceHeuristic::BestShortSideFit
    } else {
        FreeRectChoiceHeuristic::BestLongSideFit
    }
}

/// Both sides of a rectangle are at least 1.
pub open spec fn positive(r: Rect) -> bool {
    r.width >= 1 && r.length >= 1
}

/// `x` grown by the kerf meets no rectangle of `s`.
pub open spec fn grown_clear(x: Rect, s: Seq<Rect>, kerf: usize, width: usize, length: usize) -> bool {
    forall|f: int| 0 <= f < s.len() ==> !intersects(kerf_expanded(x, kerf, width, length), #[trigger] s[f])
}

/// Placed pieces and free rectangles are kept apart by the kerf: none, grown
/// by the kerf, meets another; free rectangles have sides of at least 1.
pub open spec fn layout_apart(pieces: Seq<UsedCutPiece>, free: Seq<Rect>, kerf: usize, width: usize, length: usize) -> bool {
    &&& pieces_apart(pieces, kerf, width, length)
    &&& free_clear(pieces, free, kerf, width, length)
    &&& forall|f: int, g: int|
        0 <= f < free.len() && 0 <= g < free.len() && f != g ==> !intersects(
            kerf_expanded(#[trigger] free[f], kerf, width, length),
            #[trigger] free[g],
        )
    &&& forall|f: int| 0 <= f < free.len() ==> positive(#[trigger] free[f])
}

/// The join of `a` and `b` when they line up across one kerf, tried as the
/// merge pass tries them: along the width when they share x and width,
/// otherwise along the length when they share y and length.
pub open spec fn merge_of(a: Rect, b: Rect, kerf: usize) -> Option<Rect> {
    if a.width == b.width && a.x == b.x {
        if a.y == b.y + b.length + kerf {
            Some(Rect { x: a.x, y: b.y, width: a.width, length: (a.length + b.length + kerf) as usize })
        } else if a.y + a.length + kerf == b.y {
            Some(Rect { x: a.x, y: a.y, width: a.width, length: (a.length + b.length + kerf) as usize })
        } else {
            None
        }
    } else if a.length == b.length && a.y == b.y {
        if a.x == b.x + b.width + kerf {
            Some(Rect { x: b.x, y: a.y, width: (a.width + b.width + kerf) as usize, length: a.length })
        } else if a.x + a.width + kerf == b.x {
            Some(Rect { x: a.x, y: a.y, width: (a.width + b.width + kerf) as usize, length: a.length })
        } else {
            None
        }
    } else {
        None
    }
}

/// Some pair of `s`, the lower one first, can be merged.
pub open spec fn has_mergeable_pair(s: Seq<Rect>, kerf: usize) -> bool {
    exists|f: int, g: int| 0 <= f < g < s.len() && (#[trigger] merge_of(s[f], s[g], kerf)) is Some
}

/// `m` is `a` and `b` joined along a shared edge across one kerf.
pub open spec fn joined_across(a: Rect, b: Rect, m: Rect, kerf: usize) -> bool {
    ||| (a.x == b.x && a.width == b.width && a.y == b.y + b.length + kerf && m == Rect { x: a.x, y: b.y, width: a.width, length: (a.length + b.length + kerf) as usize })
    ||| (a.x == b.x && a.width == b.width && a.y + a.length + kerf == b.y && m == Rect { x: a.x, y: a.y, width: a.width, length: (a.length + b.length + kerf) as usize })
    ||| (a.y == b.y && a.length == b.length && a.x == b.x + b.width + kerf && m == Rect { x: b.x, y: a.y, width: (a.width + b.width + kerf) as usize, length: a.length })
    ||| (a.y == b.y && a.length == b.length && a.x + a.width + kerf == b.x && m == Rect { x: a.x, y: a.y, width: (a.width + b.width + kerf) as usize, length: a.length })
}

/// A rectangle inside the bin with sides of at least 1 whose grown copy meets
/// neither of two joined rectangles does not meet their join either: the
/// kerf between them is too thin to hold it.
pub proof fn lemma_joined_clear(a: Rect, b: Rect, m: Rect, x: Rect, kerf: usize, width: usize, length: usize)
    requires
        joined_across(a, b, m, kerf),
        positive(x),
        positive(a),
        positive(b),
        inside_bin(a, width, length),
        inside_bin(b, width, length),
        inside_bin(x, width, length),
        kerf <= MAX_DIM,
        width <= MAX_DIM,
        length <= MAX_DIM,
        !intersects(crate::maxrects::kerf_expanded(x, kerf, width, length), a),
        !intersects(crate::maxrects::kerf_expanded(x, kerf, width, length), b),
    ensures
        !intersects(crate::maxrects::kerf_expanded(x, kerf, width, length), m),
{
}

/// After a merge step, anything inside the bin with sides of at least 1 whose
/// grown copy met none of the old free rectangles meets none of the new ones.
proof fn lemma_merge_keeps_clear(cur: Seq<Rect>, i: int, j: int, m: Rect, x: Rect, kerf: usize, width: usize, length: usize)
    requires
        0 <= i < j < cur.len(),
        joined_across(cur[i], cur[j], m, kerf),
        positive(cur[i]),
        positive(cur[j]),
        inside_bin(cur[i], width, length),
        inside_bin(cur[j], width, length),
        positive(x),
        inside_bin(x, width, length),
        grown_clear(x, cur, kerf, width, length),
        kerf <= MAX_DIM,
        width <= MAX_DIM,
        length <= MAX_DIM,
    ensures
        grown_clear(x, cur.update(i, m).update(j, cur.update(i, m).last()).drop_last(), kerf, width, length),
{
    let s1 = cur.update(i, m);
    let new = s1.update(j, s1.last()).drop_last();
    let n = cur.len() as int;
    assert forall|f: int| 0 <= f < new.len() implies !intersects(kerf_expanded(x, kerf, width, length), #[trigger] new[f]) by {
        if f == i {
            assert(new[f] == m);
            assert(!intersects(kerf_expanded(x, kerf, width, length), cur[i]));
            assert(!intersects(kerf_expanded(x, kerf, width, length), cur[j]));
            lemma_joined_clear(cur[i], cur[j], m, x, kerf, width, length);
        } else if f == j {
            assert(new[f] == cur[n - 1]);
            assert(!intersects(kerf_expanded(x, kerf, width, length), cur[n - 1]));
        } else {
            assert(new[f] == cur[f]);
            assert(!intersects(kerf_expanded(x, kerf, width, length), cur[f]));
        }
    }
}

/// A free rectangle apart from two joined ones is apart from their join, both ways.
proof fn lemma_join_apart_from(a: Rect, b: Rect, m: Rect, o: Rect, kerf: usize, width: usize, length: usize)
    requires
        joined_across(a, b, m, kerf),
        positive(a),
        positive(b),
        positive(o),
        inside_bin(a, width, length),
        inside_bin(b, width, length),
        inside_bin(o, width, length),
        inside_bin(m, width, length),
        !intersects(kerf_expanded(o, kerf, width, length), a),
        !intersects(kerf_expanded(o, kerf, width, length), b),
        kerf <= MAX_DIM,
        width <= MAX_DIM,
        length <= MAX_DIM,
    ensures
        !intersects(kerf_expanded(o, kerf, width, length), m),
        !intersects(kerf_expanded(m, kerf, width, length), o),
{
    lemma_joined_clear(a, b, m, o, kerf, width, length);
    if intersects(kerf_expanded(m, kerf, width, length), o) {
        lemma_grown_meet_symmetric(m, o, kerf, width, length);
    }
}

/// After a merge step the free rectangles are still apart from each other
/// and have sides of at least 1.
proof fn lemma_merge_free_apart(cur: Seq<Rect>, i: int, j: int, m: Rect, kerf: usize, width: usize, length: usize)
    requires
        0 <= i < j < cur.len(),
        joined_across(cur[i], cur[j], m, kerf),
        inside_bin(m, width, length),
        all_inside(cur, width, length),
        forall|f: int, g: int|
            0 <= f < cur.len() && 0 <= g < cur.len() && f != g ==> !intersects(
                kerf_expanded(#[trigger] cur[f], kerf, width, length),
                #[trigger] cur[g],
            ),
        forall|f: int| 0 <= f < cur.len() ==> positive(#[trigger] cur[f]),
        kerf <= MAX_DIM,
        width <= MAX_DIM,
        length <= MAX_DIM,
    ensures
        forall|f: int, g: int|
            0 <= f < cur.update(i, m).update(j, cur.update(i, m).last()).drop_last().len() && 0 <= g
                < cur.update(i, m).update(j, cur.update(i, m).last()).drop_last().len() && f != g ==> !intersects(
                kerf_expanded(#[trigger] cur.update(i, m).update(j, cur.update(i, m).last()).drop_last()[f], kerf, width, length),
                #[trigger] cur.update(i, m).update(j, cur.update(i, m).last()).drop_last()[g],
            ),
        forall|f: int|
            0 <= f < cur.update(i, m).update(j, cur.update(i, m).last()).drop_last().len() ==> positive(
                #[trigger] cur.update(i, m).update(j, cur.update(i, m).last()).drop_last()[f],
            ),
{
    let s1 = cur.update(i, m);
    let new = s1.update(j, s1.last()).drop_last();
    let n = cur.len() as int;
    assert(inside_bin(cur[i], width, length) && inside_bin(cur[j], width, length));
    assert(positive(cur[i]) && positive(cur[j]));
    assert forall|f: int| 0 <= f < new.len() implies #[trigger] new[f] == if f == i { m } else if f == j { cur[n - 1] } else { cur[f] } by {
    }
    assert forall|f: int, g: int| 0 <= f < new.len() && 0 <= g < new.len() && f != g implies !intersects(
        kerf_expanded(#[trigger] new[f], kerf, width, length),
        #[trigger] new[g],
    ) by {
        let sf = if f == j { n - 1 } else { f };
        let sg = if g == j { n - 1 } else { g };
        if f == i {
            assert(sg != i && sg != j);
            lemma_join_apart_from(cur[i], cur[j], m, cur[sg], kerf, width, length);
        } else if g == i {
            assert(sf != i && sf != j);
            lemma_join_apart_from(cur[i], cur[j], m, cur[sf], kerf, width, length);
        } else {
            assert(new[f] == cur[sf] && new[g] == cur[sg] && sf != sg);
        }
    }
}

/// Replacing the free rectangle at `i` by its join `m` with the one at `j`,
/// and dropping the one at `j`, keeps the layout apart; anything whose grown
/// copy met none of the old free rectangles meets none of the new ones.
proof fn lemma_merge_keeps_apart(
    pieces: Seq<UsedCutPiece>,
    cur: Seq<Rect>,
    i: int,
    j: int,
    m: Rect,
    kerf: usize,
    width: usize,
    length: usize,
)
    requires
        0 <= i < j < cur.len(),
        layout_apart(pieces, cur, kerf, width, length),
        joined_across(cur[i], cur[j], m, kerf),
        inside_bin(m, width, length),
        all_inside(cur, width, length),
        forall|a: int| 0 <= a < pieces.len() ==> inside_bin(#[trigger] pieces[a].rect, width, length) && positive(pieces[a].rect),
        kerf <= MAX_DIM,
        width <= MAX_DIM,
        length <= MAX_DIM,
    ensures
        layout_apart(pieces, cur.update(i, m).update(j, cur.update(i, m).last()).drop_last(), kerf, width, length),
        forall|x: Rect|
            positive(x) && inside_bin(x, width, length) && #[trigger] grown_clear(x, cur, kerf, width, length) ==> grown_clear(
                x,
                cur.update(i, m).update(j, cur.update(i, m).last()).drop_last(),
                kerf,
                width,
                length,
            ),
{
    let s1 = cur.update(i, m);
    let new = s1.update(j, s1.last()).drop_last();
    assert(inside_bin(cur[i], width, length) && inside_bin(cur[j], width, length));
    assert(positive(cur[i]) && positive(cur[j]));
    assert forall|x: Rect|
        positive(x) && inside_bin(x, width, length) && #[trigger] grown_clear(x, cur, kerf, width, length) implies grown_clear(
            x,
            new,
            kerf,
            width,
            length,
        ) by {
        lemma_merge_keeps_clear(cur, i, j, m, x, kerf, width, length);
    }
    assert forall|p: int, f: int| 0 <= p < pieces.len() && 0 <= f < new.len() implies !intersects(
        kerf_expanded(#[trigger] pieces[p].rect, kerf, width, length),
        #[trigger] new[f],
    ) by {
        assert(grown_clear(pieces[p].rect, cur, kerf, width, length));
        lemma_merge_keeps_clear(cur, i, j, m, pieces[p].rect, kerf, width, length);
    }
    lemma_merge_free_apart(cur, i, j, m, kerf, width, length);
}

/// The parts left of `free` once `rect` is cut from its low corner lie within
/// `free`, have sides of at least 1, are not met by `rect` grown by the kerf,
/// and are not met by each other grown by it.
proof fn lemma_parts_apart(free: Rect, rect: Rect, axis: SplitAxis, kerf: usize, width: usize, length: usize)
    requires
        rect_within(rect, free),
        rect.x == free.x,
        rect.y == free.y,
        inside_bin(free, width, length),
        kerf <= MAX_DIM,
        width <= MAX_DIM,
        length <= MAX_DIM,
    ensures
        forall|m: int| 0 <= m < split_parts(free, rect, axis, kerf).len() ==> rect_within(#[trigger] split_parts(free, rect, axis, kerf)[m], free)
            && positive(split_parts(free, rect, axis, kerf)[m]) && !intersects(
            kerf_expanded(rect, kerf, width, length),
            split_parts(free, rect, axis, kerf)[m],
        ),
        forall|m: int, n: int| 0 <= m < split_parts(free, rect, axis, kerf).len() && 0 <= n < split_parts(free, rect, axis, kerf).len() && m != n
            ==> !intersects(
            kerf_expanded(#[trigger] split_parts(free, rect, axis, kerf)[m], kerf, width, length),
            #[trigger] split_parts(free, rect, axis, kerf)[n],
        ),
{
}

/// Adding, to a layout kept apart, parts that lie within a rectangle that no
/// grown piece or free rectangle meets, and that are apart from each other and
/// from a rectangle `rect` within it, keeps the layout apart; `rect` grown by
/// the kerf then meets no free rectangle.
proof fn lemma_add_parts(
    pieces: Seq<UsedCutPiece>,
    free: Seq<Rect>,
    outer: Rect,
    rect: Rect,
    parts: Seq<Rect>,
    kerf: usize,
    width: usize,
    length: usize,
)
    requires
        layout_apart(pieces, free, kerf, width, length),
        all_inside(free, width, length),
        forall|g: int| 0 <= g < free.len() ==> !intersects(kerf_expanded(#[trigger] free[g], kerf, width, length), outer),
        forall|a: int| 0 <= a < pieces.len() ==> !intersects(kerf_expanded(#[trigger] pieces[a].rect, kerf, width, length), outer),
        rect_within(rect, outer),
        inside_bin(outer, width, length),
        positive(rect),
        forall|m: int| 0 <= m < parts.len() ==> rect_within(#[trigger] parts[m], outer) && positive(parts[m]) && !intersects(
            kerf_expanded(rect, kerf, width, length),
            parts[m],
        ),
        forall|m: int, n: int| 0 <= m < parts.len() && 0 <= n < parts.len() && m != n ==> !intersects(
            kerf_expanded(#[trigger] parts[m], kerf, width, length),
            #[trigger] parts[n],
        ),
        kerf <= MAX_DIM,
        width <= MAX_DIM,
        length <= MAX_DIM,
    ensures
        layout_apart(pieces, free + parts, kerf, width, length),
        grown_clear(rect, free + parts, kerf, width, length),
{
    let all = free + parts;
    let n = free.len() as int;
    assert forall|f: int| 0 <= f < all.len() implies #[trigger] all[f] == if f < n { free[f] } else { parts[f - n] } by {
    }
    assert forall|a: int, f: int| 0 <= a < pieces.len() && 0 <= f < all.len() implies !intersects(
        kerf_expanded(#[trigger] pieces[a].rect, kerf, width, length),
        #[trigger] all[f],
    ) by {
        if f >= n {
            lemma_within_clear(kerf_expanded(pieces[a].rect, kerf, width, length), outer, parts[f - n]);
        }
    }
    assert forall|f: int, g: int| 0 <= f < all.len() && 0 <= g < all.len() && f != g implies !intersects(
        kerf_expanded(#[trigger] all[f], kerf, width, length),
        #[trigger] all[g],
    ) by {
        if f < n && g >= n {
            lemma_within_clear(kerf_expanded(free[f], kerf, width, length), outer, parts[g - n]);
        } else if f >= n && g < n {
            let pt = parts[f - n];
            assert(inside_bin(free[g], width, length));
            lemma_within_clear(kerf_expanded(free[g], kerf, width, length), outer, pt);
            if intersects(kerf_expanded(pt, kerf, width, length), free[g]) {
                lemma_grown_meet_symmetric(pt, free[g], kerf, width, length);
            }
        }
    }
    assert forall|f: int| 0 <= f < all.len() implies !intersects(kerf_expanded(rect, kerf, width, length), #[trigger] all[f]) by {
        if f < n {
            assert(inside_bin(free[f], width, length));
            lemma_within_clear(kerf_expanded(free[f], kerf, width, length), outer, rect);
            if intersects(kerf_expanded(rect, kerf, width, length), free[f]) {
                lemma_grown_meet_symmetric(rect, free[f], kerf, width, length);
            }
        }
    }
}

/// Taking the free rectangle at `i` out, by moving the last one into its place,
/// keeps the layout apart; no grown piece or remaining free rectangle meets the
/// one taken out.
proof fn lemma_take_out(pieces: Seq<UsedCutPiece>, free: Seq<Rect>, i: int, kerf: usize, width: usize, length: usize)
    requires
        0 <= i < free.len(),
        layout_apart(pieces, free, kerf, width, length),
    ensures
        layout_apart(pieces, free.update(i, free.last()).drop_last(), kerf, width, length),
        forall|g: int| 0 <= g < free.update(i, free.last()).drop_last().len() ==> !intersects(
            kerf_expanded(#[trigger] free.update(i, free.last()).drop_last()[g], kerf, width, length),
            free[i],
        ),
        forall|a: int| 0 <= a < pieces.len() ==> !intersects(kerf_expanded(#[trigger] pieces[a].rect, kerf, width, length), free[i]),
        positive(free[i]),
{
    let rest = free.update(i, free.last()).drop_last();
    let n = free.len() as int;
    assert forall|f: int| 0 <= f < rest.len() implies #[trigger] rest[f] == free[if f == i { n - 1 } else { f }] by {
    }
}

/// The layout left when some pieces are taken out, with their rectangles added
/// to the free list, is still apart: kept pieces come from distinct places, and
/// returned rectangles from other distinct places.
proof fn lemma_removal_apart(
    pieces: Seq<UsedCutPiece>,
    free0: Seq<Rect>,
    kept: Seq<UsedCutPiece>,
    from: Seq<int>,
    free1: Seq<Rect>,
    rfrom: Seq<int>,
    ids: Seq<usize>,
    kerf: usize,
    width: usize,
    length: usize,
)
    requires
        layout_apart(pieces, free0, kerf, width, length),
        all_inside(free0, width, length),
        forall|a: int| 0 <= a < pieces.len() ==> positive(#[trigger] pieces[a].rect) && inside_bin(pieces[a].rect, width, length),
        from.len() == kept.len(),
        forall|m: int| 0 <= m < from.len() ==> 0 <= #[trigger] from[m] < pieces.len() && kept[m] == pieces[from[m]] && !ids.contains(pieces[from[m]].id),
        forall|a: int, b: int| 0 <= a < b < from.len() ==> #[trigger] from[a] < #[trigger] from[b],
        free1.len() == free0.len() + rfrom.len(),
        forall|f: int| 0 <= f < free0.len() ==> free1[f] == free0[f],
        forall|t: int| 0 <= t < rfrom.len() ==> 0 <= #[trigger] rfrom[t] < pieces.len() && free1[free0.len() + t] == pieces[rfrom[t]].rect
            && ids.contains(pieces[rfrom[t]].id),
        forall|a: int, b: int| 0 <= a < b < rfrom.len() ==> #[trigger] rfrom[a] < #[trigger] rfrom[b],
        kerf <= MAX_DIM,
        width <= MAX_DIM,
        length <= MAX_DIM,
    ensures
        layout_apart(kept, free1, kerf, width, length),
{
    let n0 = free0.len() as int;
    assert forall|a: int, b: int| 0 <= a < kept.len() && 0 <= b < kept.len() && a != b implies !intersects(
        kerf_expanded(#[trigger] kept[a].rect, kerf, width, length),
        #[trigger] kept[b].rect,
    ) by {
        if a < b {
            assert(from[a] < from[b]);
        } else {
            assert(from[b] < from[a]);
        }
    }
    assert forall|a: int, f: int| 0 <= a < kept.len() && 0 <= f < free1.len() implies !intersects(
        kerf_expanded(#[trigger] kept[a].rect, kerf, width, length),
        #[trigger] free1[f],
    ) by {
        assert(kept[a] == pieces[from[a]]);
        if f < n0 {
            assert(free1[f] == free0[f]);
        } else {
            assert(free1[f] == pieces[rfrom[f - n0]].rect);
            assert(from[a] != rfrom[f - n0]);
        }
    }
    assert forall|f: int, g: int| 0 <= f < free1.len() && 0 <= g < free1.len() && f != g implies !intersects(
        kerf_expanded(#[trigger] free1[f], kerf, width, length),
        #[trigger] free1[g],
    ) by {
        if f < n0 && g < n0 {
            assert(free1[f] == free0[f] && free1[g] == free0[g]);
        } else if f < n0 {
            let q = rfrom[g - n0];
            assert(free1[f] == free0[f] && free1[g] == pieces[q].rect);
            assert(!intersects(kerf_expanded(pieces[q].rect, kerf, width, length), free0[f]));
            assert(inside_bin(free0[f], width, length));
            if intersects(kerf_expanded(free0[f], kerf, width, length), pieces[q].rect) {
                lemma_grown_meet_symmetric(free0[f], pieces[q].rect, kerf, width, length);
            }
        } else if g < n0 {
            let q = rfrom[f - n0];
            assert(free1[g] == free0[g] && free1[f] == pieces[q].rect);
            assert(!intersects(kerf_expanded(pieces[q].rect, kerf, width, length), free0[g]));
        } else {
            assert(free1[f] == pieces[rfrom[f - n0]].rect && free1[g] == pieces[rfrom[g - n0]].rect);
            if f < g {
                assert(rfrom[f - n0] < rfrom[g - n0]);
            } else {
                assert(rfrom[g - n0] < rfrom[f - n0]);
            }
        }
    }
    assert forall|f: int| 0 <= f < free1.len() implies positive(#[trigger] free1[f]) by {
        if f < n0 {
            assert(free1[f] == free0[f]);
        } else {
            assert(free1[f] == pieces[rfrom[f - n0]].rect);
        }
    }
}

/// `intersects` does not depend on the order of its arguments.
pub proof fn lemma_meet_symmetric(a: Rect, b: Rect)
    ensures
        intersects(a, b) == intersects(b, a),
{
}

/// Every rectangle of `s` lies inside a bin of the given size.
pub open spec fn all_inside(s: Seq<Rect>, width: usize, length: usize) -> bool {
    forall|i: int| 0 <= i < s.len() ==> inside_bin(#[trigger] s[i], width, length)
}

/// Every piece of `s` lies inside the bin and has its direction.
pub open spec fn pieces_inside(s: Seq<UsedCutPiece>, width: usize, length: usize, d: PatternDirection) -> bool {
    forall|i: int|
        0 <= i < s.len() ==> inside_bin(#[trigger] s[i].rect, width, length) && s[i].pattern_direction
            == d && s[i].rect.width >= 1 && s[i].rect.length >= 1
}


/// Adding a piece inside the bin, with its direction, keeps all pieces so.
pub proof fn lemma_push_piece_inside(s: Seq<UsedCutPiece>, u: UsedCutPiece, width: usize, length: usize, d: PatternDirection)
    requires
        pieces_inside(s, width, length, d),
        inside_bin(u.rect, width, length),
        u.pattern_direction == d,
        u.rect.width >= 1,
        u.rect.length >= 1,
    ensures
        pieces_inside(s.push(u), width, length, d),
{
    assert forall|j: int| 0 <= j < s.push(u).len() implies inside_bin(#[trigger] s.push(u)[j].rect, width, length)
        && s.push(u)[j].pattern_direction == d && s.push(u)[j].rect.width >= 1 && s.push(u)[j].rect.length >= 1 by {
        if j < s.len() {
            assert(s.push(u)[j] == s[j]);
            assert(inside_bin(s[j].rect, width, length));
        } else {
            assert(s.push(u)[j] == u);
        }
    }
}


/// `r` lies within some rectangle of `s`.
#[verifier::opaque]
pub open spec fn covered(r: Rect, s: Seq<Rect>) -> bool {
    exists|m: int| 0 <= m < s.len() && rect_within(r, #[trigger] s[m])
}

/// Replacing the rectangle at `i` by `m`, which holds it and the one at `j`,
/// and then dropping the one at `j` leaves everything covered.
proof fn lemma_cover_after_merge(cur: Seq<Rect>, i: int, j: int, m: Rect, x: Rect)
    requires
        0 <= i < j < cur.len(),
        rect_within(cur[i], m),
        rect_within(cur[j], m),
        covered(x, cur),
    ensures
        covered(x, cur.update(i, m).update(j, cur.update(i, m).last()).drop_last()),
{
    reveal(covered);
    let s1 = cur.update(i, m);
    let s2 = s1.update(j, s1.last()).drop_last();
    let t = choose|t: int| 0 <= t < cur.len() && rect_within(x, #[trigger] cur[t]);
    if t == i || t == j {
        assert(s2[i] == m);
        assert(rect_within(x, s2[i]));
    } else if t == cur.len() - 1 {
        assert(s2[j] == cur[t]);
        assert(rect_within(x, s2[j]));
    } else {
        assert(s2[t] == cur[t]);
        assert(rect_within(x, s2[t]));
    }
}

fn abs_diff_exec(a: usize, b: usize) -> (r: usize)
    ensures
        r == abs_diff(a, b),
{
    if a >= b {
        a - b
    } else {
        b - a
    }
}

/// Scores placing a `width` by `length` piece into `free_rect` by the choice rule.
pub fn score_by_heuristic(width: usize, length: usize, free_rect: &Rect, rect_choice: FreeRectChoiceHeuristic) -> (r: i128)
    requires
        width <= MAX_DIM,
        length <= MAX_DIM,
        free_rect.width <= MAX_DIM,
        free_rect.length <= MAX_DIM,
    ensures
        r == spec_score(width, length, *free_rect, rect_choice),
{
    let dw = abs_diff_exec(free_rect.width, width);
    let dl = abs_diff_exec(free_rect.length, length);
    let short = if dw <= dl { dw } else { dl };
    let long = if dw <= dl { dl } else { dw };
    proof {
        assert(free_rect.width * free_rect.length <= MAX_DIM * MAX_DIM) by (nonlinear_arith)
            requires free_rect.width <= MAX_DIM, free_rect.length <= MAX_DIM;
        assert(width * length <= MAX_DIM * MAX_DIM) by (nonlinear_arith)
            requires width <= MAX_DIM, length <= MAX_DIM;
    }
    let area = (free_rect.width as i128) * (free_rect.length as i128) - (width as i128) * (length as i128);
    match rect_choice {
        FreeRectChoiceHeuristic::BestAreaFit => area,
        FreeRectChoiceHeuristic::BestShortSideFit => short as i128,
        FreeRectChoiceHeuristic::BestLongSideFit => long as i128,
        FreeRectChoiceHeuristic::WorstAreaFit => -area,
        FreeRectChoiceHeuristic::WorstShortSideFit => -(short as i128),
        FreeRectChoiceHeuristic::WorstLongSideFit => -(long as i128),
        FreeRectChoiceHeuristic::SmallestY => free_rect.y as i128,
    }
}

impl GuillotineBin {
    /// Dimensions within bounds; free rectangles and placed pieces inside the
    /// bin; placed pieces with the bin's direction.
    pub open spec fn inv(&self) -> bool {
        &&& self.width <= MAX_DIM
        &&& self.length <= MAX_DIM
        &&& self.blade_width <= MAX_DIM
        &&& all_inside(rect_list(self.free_rects), self.width, self.length)
        &&& pieces_inside(piece_list(self.cut_pieces), self.width, self.length, self.pattern_direction)
        &&& self.has_area() ==> layout_apart(
            piece_list(self.cut_pieces),
            rect_list(self.free_rects),
            self.blade_width,
            self.width,
            self.length,
        )
    }

    /// A bin of some area: its layout is then kept apart by the kerf.
    pub open spec fn has_area(&self) -> bool {
        self.width >= 1 && self.length >= 1
    }

    pub open spec fn spec_free_rects(&self) -> Seq<Rect> {
        rect_list(self.free_rects)
    }

    /// The free rectangles, which a solution reports as waste.
    pub fn free_rects(&self) -> (r: Vec<Rect>)
        ensures
            r@ == self.spec_free_rects(),
    {
        rects_into_vec(copy_rects(&self.free_rects))
    }

    /// Width of the stock piece.
    pub fn width(&self) -> (r: usize)
        ensures
            r == self.width,
    {
        self.width
    }

    /// Length of the stock piece.
    pub fn length(&self) -> (r: usize)
        ensures
            r == self.length,
    {
        self.length
    }

    /// The 36 heuristics: each choice rule of least waste, with each split rule,
    /// first upright then turned.
    pub fn heuristics() -> (r: Vec<(FreeRectChoiceHeuristic, SplitHeuristic, RotateCutPieceHeuristic)>)
        ensures
            r@.len() == 36,
            forall|i: int|
                0 <= i < 36 ==> #[trigger] r@[i] == (
                    random_choice(((i % 18) / 6) as usize),
                    split_at(i % 6),
                    if i < 18 {
                        RotateCutPieceHeuristic::PreferUpright
                    } else {
                        RotateCutPieceHeuristic::PreferRotated
                    },
                ),
    {
        let choices = [
            FreeRectChoiceHeuristic::BestAreaFit,
            FreeRectChoiceHeuristic::BestShortSideFit,
            FreeRectChoiceHeuristic::BestLongSideFit,
        ];
        let splits = [
            SplitHeuristic::ShorterLeftoverAxis,
            SplitHeuristic::LongerLeftoverAxis,
            SplitHeuristic::MinimizeArea,
            SplitHeuristic::MaximizeArea,
            SplitHeuristic::ShorterAxis,
            SplitHeuristic::LongerAxis,
        ];
        let rotations = [RotateCutPieceHeuristic::PreferUpright, RotateCutPieceHeuristic::PreferRotated];
        let mut r: Vec<(FreeRectChoiceHeuristic, SplitHeuristic, RotateCutPieceHeuristic)> = Vec::new();
        let mut a: usize = 0;
        while a < 2
            invariant
                a <= 2,
                r@.len() == 18 * a,
                rotations@ == seq![RotateCutPieceHeuristic::PreferUpright, RotateCutPieceHeuristic::PreferRotated],
                choices@ == seq![
                    FreeRectChoiceHeuristic::BestAreaFit,
                    FreeRectChoiceHeuristic::BestShortSideFit,
                    FreeRectChoiceHeuristic::BestLongSideFit,
                ],
                forall|k: int| 0 <= k < 6 ==> splits@[k] == split_at(k),
                forall|i: int|
                    0 <= i < r@.len() ==> #[trigger] r@[i] == (
                        random_choice(((i % 18) / 6) as usize),
                        split_at(i % 6),
                        if i < 18 {
                            RotateCutPieceHeuristic::PreferUpright
                        } else {
                            RotateCutPieceHeuristic::PreferRotated
                        },
                    ),
            decreases 2 - a,
        {
            let mut b: usize = 0;
            while b < 3
                invariant
                    a < 2,
                    b <= 3,
                    r@.len() == 18 * a + 6 * b,
                    rotations@ == seq![RotateCutPieceHeuristic::PreferUpright, RotateCutPieceHeuristic::PreferRotated],
                    choices@ == seq![
                        FreeRectChoiceHeuristic::BestAreaFit,
                        FreeRectChoiceHeuristic::BestShortSideFit,
                        FreeRectChoiceHeuristic::BestLongSideFit,
                    ],
                    forall|k: int| 0 <= k < 6 ==> splits@[k] == split_at(k),
                    forall|i: int|
                        0 <= i < r@.len() ==> #[trigger] r@[i] == (
                            random_choice(((i % 18) / 6) as usize),
                            split_at(i % 6),
                            if i < 18 {
                                RotateCutPieceHeuristic::PreferUpright
                            } else {
                                RotateCutPieceHeuristic::PreferRotated
                            },
                        ),
                decreases 3 - b,
            {
                let mut c: usize = 0;
                while c < 6
                    invariant
                        a < 2,
                        b < 3,
                        c <= 6,
                        r@.len() == 18 * a + 6 * b + c,
                        rotations@ == seq![RotateCutPieceHeuristic::PreferUpright, RotateCutPieceHeuristic::PreferRotated],
                        choices@ == seq![
                            FreeRectChoiceHeuristic::BestAreaFit,
                            FreeRectChoiceHeuristic::BestShortSideFit,
                            FreeRectChoiceHeuristic::BestLongSideFit,
                        ],
                        forall|k: int| 0 <= k < 6 ==> splits@[k] == split_at(k),
                        forall|i: int|
                            0 <= i < r@.len() ==> #[trigger] r@[i] == (
                                random_choice(((i % 18) / 6) as usize),
                                split_at(i % 6),
                                if i < 18 {
                                    RotateCutPieceHeuristic::PreferUpright
                                } else {
                                    RotateCutPieceHeuristic::PreferRotated
                                },
                            ),
                    decreases 6 - c,
                {
                    let ghost n = r@.len();
                    r.push((choices[b], splits[c], rotations[a]));
                    proof {
                        assert(n % 18 == 6 * b + c && (n % 18) / 6 == b && n % 6 == c && (n < 18) == (a == 0)) by (nonlinear_arith)
                            requires n == 18 * a + 6 * b + c, a < 2, b < 3, c < 6;
                    }
                    c += 1;
                }
                b += 1;
            }
            a += 1;
        }
        r
    }

    /// Finds where the piece goes by the choice rule, with the free rectangle's index.
    pub fn find_placement_for_cut_piece(
        &self,
        cut_piece: &CutPieceWithId,
        rect_choice: FreeRectChoiceHeuristic,
        prefer_rotated: bool,
    ) -> (r: Option<(UsedCutPiece, usize)>)
        requires
            self.inv(),
        ensures
            r.is_none() == (forall|j: int|
                0 <= j < rect_list(self.free_rects).len() ==> !fits_in(
                    #[trigger] rect_list(self.free_rects)[j],
                    self.pattern_direction,
                    *cut_piece,
                )),
            r matches Some((u, k)) ==> chosen_rect(
                rect_list(self.free_rects),
                self.pattern_direction,
                *cut_piece,
                prefer_rotated,
                rect_choice,
                k as int,
            ) && u == placed_piece(
                rect_list(self.free_rects)[k as int],
                *cut_piece,
                spec_fit(rect_list(self.free_rects)[k as int], self.pattern_direction, *cut_piece, prefer_rotated).spec_is_rotated(),
            ),
    {
        let ghost fr = rect_list(self.free_rects);
        let ghost d = self.pattern_direction;
        let ghost p = *cut_piece;
        let mut best_score: i128 = i128::MAX;
        let mut best_fit = Fit::NoFit;
        let mut free_index: Option<usize> = None;
        let mut exact = false;
        let mut i: usize = 0;
        while i < rects_len(&self.free_rects) && !exact
            invariant
                self.inv(),
                fr == rect_list(self.free_rects),
                d == self.pattern_direction,
                p == *cut_piece,
                i <= fr.len(),
                exact ==> i > 0 && free_index == Some((i - 1) as usize) && is_exact(spec_fit(fr[i - 1], d, p, prefer_rotated)),
                forall|j: int| 0 <= j < i && !(exact && j == i - 1) ==> !is_exact(#[trigger] spec_fit(fr[j], d, p, prefer_rotated)),
                free_index.is_none() ==> forall|j: int| 0 <= j < i ==> #[trigger] spec_fit(fr[j], d, p, prefer_rotated) == Fit::NoFit,
                free_index matches Some(k) ==> k < i && best_fit == spec_fit(fr[k as int], d, p, prefer_rotated) && best_fit != Fit::NoFit,
                !exact && free_index.is_none() ==> best_score == i128::MAX,
                !exact ==> (free_index matches Some(k) ==> best_score == fit_score(fr[k as int], p, best_fit, rect_choice)
                    && (forall|j: int| 0 <= j < i && #[trigger] spec_fit(fr[j], d, p, prefer_rotated) != Fit::NoFit
                        ==> best_score <= fit_score(fr[j], p, spec_fit(fr[j], d, p, prefer_rotated), rect_choice))
                    && (forall|j: int| 0 <= j < k && #[trigger] spec_fit(fr[j], d, p, prefer_rotated) != Fit::NoFit
                        ==> best_score < fit_score(fr[j], p, spec_fit(fr[j], d, p, prefer_rotated), rect_choice))),
            decreases fr.len() - i,
        {
            let free_rect = rect_at(&self.free_rects, i);
            let fit = free_rect.fit_cut_piece(self.pattern_direction, cut_piece, prefer_rotated);
            proof {
                assert(inside_bin(fr[i as int], self.width, self.length));
            }
            match fit {
                Fit::UprightExact | Fit::RotatedExact => {
                    best_fit = fit;
                    free_index = Some(i);
                    exact = true;
                },
                Fit::Upright => {
                    let score = score_by_heuristic(cut_piece.width, cut_piece.length, &free_rect, rect_choice);
                    proof {
                        assert(spec_score(p.width, p.length, free_rect, rect_choice) < i128::MAX) by (nonlinear_arith)
                            requires free_rect.width <= MAX_DIM, free_rect.length <= MAX_DIM, p.width <= MAX_DIM, p.length <= MAX_DIM;
                    }
                    if score < best_score {
                        best_score = score;
                        best_fit = fit;
                        free_index = Some(i);
                    }
                },
                Fit::Rotated => {
                    let score = score_by_heuristic(cut_piece.length, cut_piece.width, &free_rect, rect_choice);
                    proof {
                        assert(spec_score(p.length, p.width, free_rect, rect_choice) < i128::MAX) by (nonlinear_arith)
                            requires free_rect.width <= MAX_DIM, free_rect.length <= MAX_DIM, p.width <= MAX_DIM, p.length <= MAX_DIM;
                    }
                    if score < best_score {
                        best_score = score;
                        best_fit = fit;
                        free_index = Some(i);
                    }
                },
                Fit::NoFit => {},
            }
            i += 1;
        }
        proof {
            assert forall|j: int| 0 <= j < fr.len() implies
                (spec_fit(fr[j], d, p, prefer_rotated) == Fit::NoFit) == !fits_in(#[trigger] fr[j], d, p) by {
                lemma_fit_none(fr[j], d, p, prefer_rotated);
            }
        }
        match free_index {
            Some(index) => {
                let is_rotated = best_fit == Fit::Rotated || best_fit == Fit::RotatedExact;
                let free_rect = rect_at(&self.free_rects, index);
                let pattern_direction = if is_rotated {
                    cut_piece.pattern_direction.rotated()
                } else {
                    cut_piece.pattern_direction
                };
                let rect = if is_rotated {
                    Rect { x: free_rect.x, y: free_rect.y, width: cut_piece.length, length: cut_piece.width }
                } else {
                    Rect { x: free_rect.x, y: free_rect.y, width: cut_piece.width, length: cut_piece.length }
                };
                let used = UsedCutPiece {
                    id: cut_piece.id,
                    external_id: cut_piece.external_id,
                    rect,
                    can_rotate: cut_piece.can_rotate,
                    pattern_direction,
                    is_rotated,
                };
                Some((used, index))
            },
            None => None,
        }
    }
}


impl GuillotineBin {
    /// Splits what is left of `free_rect` once `rect` is cut from its low corner,
    /// with the axis that the split rule picks.
    pub fn split_free_rect_by_heuristic(&mut self, free_rect: &Rect, rect: &Rect, method: SplitHeuristic)
        requires
            old(self).inv(),
            inside_bin(*free_rect, old(self).width, old(self).length),
            rect_within(*rect, *free_rect),
            rect.x == free_rect.x,
            rect.y == free_rect.y,
            positive(*rect),
            old(self).has_area() ==> forall|g: int| 0 <= g < rect_list(old(self).free_rects).len() ==> !intersects(
                kerf_expanded(#[trigger] rect_list(old(self).free_rects)[g], old(self).blade_width, old(self).width, old(self).length),
                *free_rect,
            ),
            old(self).has_area() ==> forall|a: int| 0 <= a < piece_list(old(self).cut_pieces).len() ==> !intersects(
                kerf_expanded(#[trigger] piece_list(old(self).cut_pieces)[a].rect, old(self).blade_width, old(self).width, old(self).length),
                *free_rect,
            ),
        ensures
            final(self).inv(),
            old(self).has_area() ==> grown_clear(*rect, rect_list(final(self).free_rects), old(self).blade_width, old(self).width, old(self).length),
            rect_list(final(self).free_rects) == rect_list(old(self).free_rects) + split_parts(
                *free_rect,
                *rect,
                if spec_split_horizontal(*free_rect, *rect, method) {
                    SplitAxis::Horizontal
                } else {
                    SplitAxis::Vertical
                },
                old(self).blade_width,
            ),
            final(self).cut_pieces == old(self).cut_pieces,
            final(self).width == old(self).width,
            final(self).length == old(self).length,
            final(self).blade_width == old(self).blade_width,
            final(self).pattern_direction == old(self).pattern_direction,
            final(self).price == old(self).price,
    {
        let w = (free_rect.width - rect.width) as u128;
        let h = (free_rect.length - rect.length) as u128;
        proof {
            assert(rect.width * h <= MAX_DIM * MAX_DIM) by (nonlinear_arith)
                requires rect.width <= MAX_DIM, h <= MAX_DIM;
            assert(w * rect.length <= MAX_DIM * MAX_DIM) by (nonlinear_arith)
                requires rect.length <= MAX_DIM, w <= MAX_DIM;
        }
        let split_horizontal = match method {
            SplitHeuristic::ShorterLeftoverAxis => w <= h,
            SplitHeuristic::LongerLeftoverAxis => w > h,
            SplitHeuristic::MinimizeArea => rect.width as u128 * h > w * rect.length as u128,
            SplitHeuristic::MaximizeArea => rect.width as u128 * h <= w * rect.length as u128,
            SplitHeuristic::ShorterAxis => free_rect.width <= free_rect.length,
            SplitHeuristic::LongerAxis => free_rect.width > free_rect.length,
        };
        let split_axis = if split_horizontal {
            SplitAxis::Horizontal
        } else {
            SplitAxis::Vertical
        };
        self.split_free_rect_along_axis(free_rect, rect, split_axis);
    }

    /// Adds to the free list the two rectangles that a cut along `split_axis`
    /// leaves of `free_rect` beyond `rect`, each less the kerf; empty ones are dropped.
    pub fn split_free_rect_along_axis(&mut self, free_rect: &Rect, rect: &Rect, split_axis: SplitAxis)
        requires
            old(self).inv(),
            inside_bin(*free_rect, old(self).width, old(self).length),
            rect_within(*rect, *free_rect),
            rect.x == free_rect.x,
            rect.y == free_rect.y,
            positive(*rect),
            old(self).has_area() ==> forall|g: int| 0 <= g < rect_list(old(self).free_rects).len() ==> !intersects(
                kerf_expanded(#[trigger] rect_list(old(self).free_rects)[g], old(self).blade_width, old(self).width, old(self).length),
                *free_rect,
            ),
            old(self).has_area() ==> forall|a: int| 0 <= a < piece_list(old(self).cut_pieces).len() ==> !intersects(
                kerf_expanded(#[trigger] piece_list(old(self).cut_pieces)[a].rect, old(self).blade_width, old(self).width, old(self).length),
                *free_rect,
            ),
        ensures
            final(self).inv(),
            old(self).has_area() ==> grown_clear(*rect, rect_list(final(self).free_rects), old(self).blade_width, old(self).width, old(self).length),
            rect_list(final(self).free_rects) == rect_list(old(self).free_rects) + split_parts(*free_rect, *rect, split_axis, old(self).blade_width),
            final(self).cut_pieces == old(self).cut_pieces,
            final(self).width == old(self).width,
            final(self).length == old(self).length,
            final(self).blade_width == old(self).blade_width,
            final(self).pattern_direction == old(self).pattern_direction,
            final(self).price == old(self).price,
    {
        let ghost old_free = rect_list(self.free_rects);
        let (bottom_width, right_length) = match split_axis {
            SplitAxis::Horizontal => (free_rect.width, rect.length),
            SplitAxis::Vertical => (rect.width, free_rect.length),
        };
        let h = free_rect.length - rect.length;
        let bottom_length = if h > self.blade_width {
            h - self.blade_width
        } else {
            0
        };
        let w = free_rect.width - rect.width;
        let right_width = if w > self.blade_width {
            w - self.blade_width
        } else {
            0
        };
        let ghost parts = split_parts(*free_rect, *rect, split_axis, self.blade_width);
        if bottom_width > 0 && bottom_length > 0 {
            let bottom = Rect {
                x: free_rect.x,
                y: free_rect.y + rect.length + self.blade_width,
                width: bottom_width,
                length: bottom_length,
            };
            push_rect(&mut self.free_rects, bottom);
        }
        let ghost mid = rect_list(self.free_rects);
        if right_width > 0 && right_length > 0 {
            let right = Rect {
                x: free_rect.x + rect.width + self.blade_width,
                y: free_rect.y,
                width: right_width,
                length: right_length,
            };
            push_rect(&mut self.free_rects, right);
        }
        proof {
            assert(rect_list(self.free_rects) =~= old_free + parts);
            if self.has_area() {
                lemma_parts_apart(*free_rect, *rect, split_axis, self.blade_width, self.width, self.length);
                lemma_add_parts(piece_list(self.cut_pieces), old_free, *free_rect, *rect, parts, self.blade_width, self.width, self.length);
            }
        }
    }

    /// Joins the free rectangles at `i` and `j` if they line up across one
    /// kerf, keeping the result at `i`.
    fn merge_pair(&mut self, i: usize, j: usize, Ghost(start): Ghost<GuillotineBin>) -> (merged: bool)
        requires
            old(self).inv(),
            i < j < rect_list(old(self).free_rects).len(),
            rect_list(old(self).free_rects).len() <= rect_list(start.free_rects).len(),
            start.has_area() ==> forall|x: Rect|
                positive(x) && inside_bin(x, start.width, start.length) && #[trigger] grown_clear(
                    x,
                    rect_list(start.free_rects),
                    start.blade_width,
                    start.width,
                    start.length,
                ) ==> grown_clear(x, rect_list(old(self).free_rects), start.blade_width, start.width, start.length),
            forall|k: int| 0 <= k < rect_list(start.free_rects).len() ==> covered(
                #[trigger] rect_list(start.free_rects)[k],
                rect_list(old(self).free_rects),
            ),
            old(self).cut_pieces == start.cut_pieces,
            old(self).width == start.width,
            old(self).length == start.length,
            old(self).blade_width == start.blade_width,
            old(self).pattern_direction == start.pattern_direction,
            old(self).price == start.price,
        ensures
            merged == (merge_of(rect_list(old(self).free_rects)[i as int], rect_list(old(self).free_rects)[j as int], old(self).blade_width) is Some),
            merged ==> rect_list(final(self).free_rects).len() == rect_list(old(self).free_rects).len() - 1,
            !merged ==> rect_list(final(self).free_rects) == rect_list(old(self).free_rects),
            final(self).inv(),
            rect_list(old(self).free_rects).len() - 1 <= rect_list(final(self).free_rects).len() <= rect_list(old(self).free_rects).len(),
            start.has_area() ==> forall|x: Rect|
                positive(x) && inside_bin(x, start.width, start.length) && #[trigger] grown_clear(
                    x,
                    rect_list(start.free_rects),
                    start.blade_width,
                    start.width,
                    start.length,
                ) ==> grown_clear(x, rect_list(final(self).free_rects), start.blade_width, start.width, start.length),
            forall|k: int| 0 <= k < rect_list(start.free_rects).len() ==> covered(
                #[trigger] rect_list(start.free_rects)[k],
                rect_list(final(self).free_rects),
            ),
            final(self).cut_pieces == start.cut_pieces,
            final(self).width == start.width,
            final(self).length == start.length,
            final(self).blade_width == start.blade_width,
            final(self).pattern_direction == start.pattern_direction,
            final(self).price == start.price,
    {
        let a = rect_at(&self.free_rects, i);
        let b = rect_at(&self.free_rects, j);
        let k = self.blade_width;
        proof {
            assert(inside_bin(rect_list(self.free_rects)[i as int], self.width, self.length));
            assert(inside_bin(rect_list(self.free_rects)[j as int], self.width, self.length));
        }
        let mut merged: Option<Rect> = None;
        if a.width == b.width && a.x == b.x {
            if a.y == b.y + b.length + k {
                merged = Some(Rect { x: a.x, y: b.y, width: a.width, length: a.length + b.length + k });
            } else if a.y + a.length + k == b.y {
                merged = Some(Rect { x: a.x, y: a.y, width: a.width, length: a.length + b.length + k });
            }
        } else if a.length == b.length && a.y == b.y {
            if a.x == b.x + b.width + k {
                merged = Some(Rect { x: b.x, y: a.y, width: a.width + b.width + k, length: a.length });
            } else if a.x + a.width + k == b.x {
                merged = Some(Rect { x: a.x, y: a.y, width: a.width + b.width + k, length: a.length });
            }
        }
        proof {
            assert(merged == merge_of(a, b, k));
        }
        if let Some(m) = merged {
            let ghost cur = rect_list(self.free_rects);
            proof {
                assert(cur[i as int] == a && cur[j as int] == b);
                assert(rect_within(a, m) && rect_within(b, m));
            }
            proof {
                if self.has_area() {
                    assert(joined_across(a, b, m, k));
                    assert(inside_bin(m, self.width, self.length));
                    assert forall|t: int| 0 <= t < piece_list(self.cut_pieces).len() implies inside_bin(
                        #[trigger] piece_list(self.cut_pieces)[t].rect,
                        self.width,
                        self.length,
                    ) && positive(piece_list(self.cut_pieces)[t].rect) by {
                    }
                    lemma_merge_keeps_apart(piece_list(self.cut_pieces), cur, i as int, j as int, m, k, self.width, self.length);
                }
            }
            set_rect(&mut self.free_rects, i, m);
            swap_remove_rect(&mut self.free_rects, j);
            proof {
                assert(rect_list(self.free_rects) == cur.update(i as int, m).update(j as int, cur.update(i as int, m).last()).drop_last());
                assert forall|k: int| 0 <= k < rect_list(start.free_rects).len() implies covered(
                    #[trigger] rect_list(start.free_rects)[k],
                    rect_list(self.free_rects),
                ) by {
                    lemma_cover_after_merge(cur, i as int, j as int, m, rect_list(start.free_rects)[k]);
                }
            }
        }
        merged.is_some()
    }

    /// Merges pairs of free rectangles that line up across one kerf into one.
    pub fn merge_free_rects(&mut self)
        requires
            old(self).inv(),
        ensures
            final(self).inv(),
            rect_list(final(self).free_rects).len() <= rect_list(old(self).free_rects).len(),
            has_mergeable_pair(rect_list(old(self).free_rects), old(self).blade_width) ==> rect_list(final(self).free_rects).len()
                < rect_list(old(self).free_rects).len(),
            rect_list(final(self).free_rects).len() == rect_list(old(self).free_rects).len() ==> rect_list(final(self).free_rects)
                == rect_list(old(self).free_rects),
            old(self).has_area() ==> forall|x: Rect|
                positive(x) && inside_bin(x, old(self).width, old(self).length) && #[trigger] grown_clear(
                    x,
                    rect_list(old(self).free_rects),
                    old(self).blade_width,
                    old(self).width,
                    old(self).length,
                ) ==> grown_clear(x, rect_list(final(self).free_rects), old(self).blade_width, old(self).width, old(self).length),
            forall|k: int| 0 <= k < rect_list(old(self).free_rects).len() ==> covered(
                #[trigger] rect_list(old(self).free_rects)[k],
                rect_list(final(self).free_rects),
            ),
            final(self).cut_pieces == old(self).cut_pieces,
            final(self).width == old(self).width,
            final(self).length == old(self).length,
            final(self).blade_width == old(self).blade_width,
            final(self).pattern_direction == old(self).pattern_direction,
            final(self).price == old(self).price,
    {
        let ghost start = *self;
        proof {
            assert forall|k: int| 0 <= k < rect_list(start.free_rects).len() implies covered(
                #[trigger] rect_list(start.free_rects)[k],
                rect_list(self.free_rects),
            ) by {
                reveal(covered);
                assert(rect_within(rect_list(start.free_rects)[k], rect_list(self.free_rects)[k]));
            }
        }
        let ghost mut merged_any = false;
        let mut i: usize = rects_len(&self.free_rects);
        while i > 0
            invariant
                !merged_any ==> rect_list(self.free_rects) == rect_list(start.free_rects),
                !merged_any ==> forall|f: int, g: int|
                    i <= f < g < rect_list(start.free_rects).len() ==> (#[trigger] merge_of(
                        rect_list(start.free_rects)[f],
                        rect_list(start.free_rects)[g],
                        start.blade_width,
                    )) is None,
                merged_any ==> rect_list(self.free_rects).len() < rect_list(start.free_rects).len(),
                self.inv(),
                i <= rect_list(self.free_rects).len(),
                rect_list(self.free_rects).len() <= rect_list(start.free_rects).len(),
                start.has_area() ==> forall|x: Rect|
                    positive(x) && inside_bin(x, start.width, start.length) && #[trigger] grown_clear(
                        x,
                        rect_list(start.free_rects),
                        start.blade_width,
                        start.width,
                        start.length,
                    ) ==> grown_clear(x, rect_list(self.free_rects), start.blade_width, start.width, start.length),
                forall|k: int| 0 <= k < rect_list(start.free_rects).len() ==> covered(
                    #[trigger] rect_list(start.free_rects)[k],
                    rect_list(self.free_rects),
                ),
                self.cut_pieces == start.cut_pieces,
                self.width == start.width,
                self.length == start.length,
                self.blade_width == start.blade_width,
                self.pattern_direction == start.pattern_direction,
                self.price == start.price,
            decreases i,
        {
            i -= 1;
            let mut j: usize = rects_len(&self.free_rects);
            while j > i + 1
                invariant
                    !merged_any ==> rect_list(self.free_rects) == rect_list(start.free_rects),
                    !merged_any ==> forall|f: int, g: int|
                        i < f < g < rect_list(start.free_rects).len() ==> (#[trigger] merge_of(
                            rect_list(start.free_rects)[f],
                            rect_list(start.free_rects)[g],
                            start.blade_width,
                        )) is None,
                    !merged_any ==> forall|g: int|
                        j <= g < rect_list(start.free_rects).len() ==> (#[trigger] merge_of(
                            rect_list(start.free_rects)[i as int],
                            rect_list(start.free_rects)[g],
                            start.blade_width,
                        )) is None,
                    merged_any ==> rect_list(self.free_rects).len() < rect_list(start.free_rects).len(),
                    self.inv(),
                    i + 1 <= j <= rect_list(self.free_rects).len(),
                    rect_list(self.free_rects).len() <= rect_list(start.free_rects).len(),
                    start.has_area() ==> forall|x: Rect|
                        positive(x) && inside_bin(x, start.width, start.length) && #[trigger] grown_clear(
                            x,
                            rect_list(start.free_rects),
                            start.blade_width,
                            start.width,
                            start.length,
                        ) ==> grown_clear(x, rect_list(self.free_rects), start.blade_width, start.width, start.length),
                    forall|k: int| 0 <= k < rect_list(start.free_rects).len() ==> covered(
                        #[trigger] rect_list(start.free_rects)[k],
                        rect_list(self.free_rects),
                    ),
                    self.cut_pieces == start.cut_pieces,
                    self.width == start.width,
                    self.length == start.length,
                    self.blade_width == start.blade_width,
                    self.pattern_direction == start.pattern_direction,
                    self.price == start.price,
                decreases j,
            {
                j -= 1;
                let m = self.merge_pair(i, j, Ghost(start));
                proof {
                    if m {
                        merged_any = true;
                    }
                }
            }
        }
        proof {
            if !merged_any {
                assert forall|f: int, g: int| 0 <= f < g < rect_list(start.free_rects).len() implies (#[trigger] merge_of(
                    rect_list(start.free_rects)[f],
                    rect_list(start.free_rects)[g],
                    start.blade_width,
                )) is None by {
                }
            }
        }
    }

    /// Removes the placed pieces whose ids are listed, returns their
    /// rectangles to the free list and merges it; says how many were removed.
    /// Every free rectangle from before, and every removed piece's rectangle,
    /// lies within a free rectangle afterwards.
    pub fn remove_pieces_by_id(&mut self, ids: &Vec<usize>) -> (r: usize)
        requires
            old(self).inv(),
        ensures
            final(self).inv(),
            piece_list(final(self).cut_pieces) == piece_list(old(self).cut_pieces).filter(kept_by(ids@)),
            r == piece_list(old(self).cut_pieces).len() - piece_list(final(self).cut_pieces).len(),
            forall|k: int| 0 <= k < rect_list(old(self).free_rects).len() ==> covered(
                #[trigger] rect_list(old(self).free_rects)[k],
                rect_list(final(self).free_rects),
            ),
            forall|k: int| 0 <= k < piece_list(old(self).cut_pieces).len() && ids@.contains(piece_list(old(self).cut_pieces)[k].id)
                ==> covered(#[trigger] piece_list(old(self).cut_pieces)[k].rect, rect_list(final(self).free_rects)),
            final(self).width == old(self).width,
            final(self).length == old(self).length,
            final(self).blade_width == old(self).blade_width,
            final(self).pattern_direction == old(self).pattern_direction,
            final(self).price == old(self).price,
    {
        let ghost start = *self;
        let ghost f = kept_by(ids@);
        let ghost mut from: Seq<int> = Seq::empty();
        let ghost mut rfrom: Seq<int> = Seq::empty();
        let mut kept: Vec<UsedCutPiece> = Vec::new();
        let mut i: usize = 0;
        while i < pieces_len(&self.cut_pieces)
            invariant
                start.inv(),
                all_inside(rect_list(self.free_rects), self.width, self.length),
                self.cut_pieces == start.cut_pieces,
                from.len() == kept@.len(),
                forall|m: int| 0 <= m < from.len() ==> 0 <= #[trigger] from[m] < i && kept@[m] == piece_list(self.cut_pieces)[from[m]]
                    && !ids@.contains(piece_list(self.cut_pieces)[from[m]].id),
                forall|a: int, b: int| 0 <= a < b < from.len() ==> #[trigger] from[a] < #[trigger] from[b],
                rect_list(self.free_rects).len() == rect_list(start.free_rects).len() + rfrom.len(),
                forall|t: int| 0 <= t < rfrom.len() ==> 0 <= #[trigger] rfrom[t] < i
                    && rect_list(self.free_rects)[rect_list(start.free_rects).len() + t] == piece_list(self.cut_pieces)[rfrom[t]].rect
                    && ids@.contains(piece_list(self.cut_pieces)[rfrom[t]].id),
                forall|a: int, b: int| 0 <= a < b < rfrom.len() ==> #[trigger] rfrom[a] < #[trigger] rfrom[b],
                self.width == start.width,
                self.length == start.length,
                self.blade_width == start.blade_width,
                self.pattern_direction == start.pattern_direction,
                self.price == start.price,
                f == kept_by(ids@),
                rect_list(self.free_rects).len() >= rect_list(start.free_rects).len(),
                rect_list(self.free_rects).subrange(0, rect_list(start.free_rects).len() as int) == rect_list(start.free_rects),
                forall|k: int| 0 <= k < i && ids@.contains(piece_list(self.cut_pieces)[k].id) ==> rect_list(self.free_rects).contains(
                    #[trigger] piece_list(self.cut_pieces)[k].rect,
                ),
                i <= piece_list(self.cut_pieces).len(),
                kept@ == piece_list(self.cut_pieces).subrange(0, i as int).filter(f),
                kept@.len() <= i,
                pieces_inside(kept@, self.width, self.length, self.pattern_direction),
            decreases piece_list(self.cut_pieces).len() - i,
        {
            let u = piece_at(&self.cut_pieces, i);
            proof {
                assert(piece_list(self.cut_pieces).subrange(0, i + 1) =~= piece_list(self.cut_pieces).subrange(0, i as int).push(u));
                piece_list(self.cut_pieces).subrange(0, i as int).lemma_filter_push(u, f);
                assert(inside_bin(piece_list(self.cut_pieces)[i as int].rect, self.width, self.length));
            }
            if contains_id(ids, u.id) {
                let ghost before = rect_list(self.free_rects);
                push_rect(&mut self.free_rects, u.rect);
                proof {
                    rfrom = rfrom.push(i as int);
                    assert forall|m: int| 0 <= m < rect_list(self.free_rects).len() implies inside_bin(#[trigger] rect_list(self.free_rects)[m], self.width, self.length) by {
                        if m < before.len() {
                            assert(rect_list(self.free_rects)[m] == before[m]);
                        }
                    }
                    assert(rect_list(self.free_rects).subrange(0, rect_list(start.free_rects).len() as int)
                        =~= before.subrange(0, rect_list(start.free_rects).len() as int));
                    assert(rect_list(self.free_rects)[before.len() as int] == u.rect);
                    assert forall|k: int| 0 <= k < i + 1 && ids@.contains(piece_list(self.cut_pieces)[k].id) implies rect_list(self.free_rects).contains(
                        #[trigger] piece_list(self.cut_pieces)[k].rect,
                    ) by {
                        if k < i {
                            let m = choose|m: int| 0 <= m < before.len() && before[m] == piece_list(self.cut_pieces)[k].rect;
                            assert(rect_list(self.free_rects)[m] == before[m]);
                        }
                    }
                }
            } else {
                kept.push(u);
                proof {
                    from = from.push(i as int);
                }
            }
            i += 1;
        }
        proof {
            assert(piece_list(self.cut_pieces).subrange(0, piece_list(self.cut_pieces).len() as int) =~= piece_list(self.cut_pieces));
        }
        let old_len = pieces_len(&self.cut_pieces);
        let ghost pre = rect_list(self.free_rects);
        let ghost removed_from = piece_list(self.cut_pieces);
        self.cut_pieces = pieces_from_vec(kept);
        proof {
            if self.has_area() {
                let fr = rect_list(self.free_rects);
                assert forall|ff: int| 0 <= ff < rect_list(start.free_rects).len() implies fr[ff] == rect_list(start.free_rects)[ff] by {
                    assert(fr.subrange(0, rect_list(start.free_rects).len() as int)[ff] == fr[ff]);
                }
                assert forall|t: int| 0 <= t < removed_from.len() implies positive(#[trigger] removed_from[t].rect)
                    && inside_bin(removed_from[t].rect, self.width, self.length) by {
                }
                lemma_removal_apart(
                    removed_from,
                    rect_list(start.free_rects),
                    piece_list(self.cut_pieces),
                    from,
                    fr,
                    rfrom,
                    ids@,
                    self.blade_width,
                    self.width,
                    self.length,
                );
            }
        }
        self.merge_free_rects();
        proof {
            reveal(covered);
            assert forall|k: int| 0 <= k < rect_list(start.free_rects).len() implies covered(
                #[trigger] rect_list(start.free_rects)[k],
                rect_list(self.free_rects),
            ) by {
                assert(pre[k] == rect_list(start.free_rects)[k]);
                assert(covered(pre[k], rect_list(self.free_rects)));
            }
            assert forall|k: int| 0 <= k < removed_from.len() && ids@.contains(removed_from[k].id) implies covered(
                #[trigger] removed_from[k].rect,
                rect_list(self.free_rects),
            ) by {
                let m = choose|m: int| 0 <= m < pre.len() && pre[m] == removed_from[k].rect;
                assert(covered(pre[m], rect_list(self.free_rects)));
            }
        }
        old_len - pieces_len(&self.cut_pieces)
    }

    /// Inserts the piece by the choice, split and turn rules if some free
    /// rectangle takes it; merges the free list afterwards when `merge` is set.
    #[verifier::rlimit(60)]
    pub fn insert_with_heuristics(
        &mut self,
        cut_piece: &CutPieceWithId,
        merge: bool,
        rect_choice: FreeRectChoiceHeuristic,
        split_method: SplitHeuristic,
        rotate_preference: RotateCutPieceHeuristic,
    ) -> (r: bool)
        requires
            old(self).inv(),
            piece_ok(*cut_piece),
        ensures
            final(self).inv(),
            r == exists|j: int| 0 <= j < rect_list(old(self).free_rects).len() && fits_in(
                #[trigger] rect_list(old(self).free_rects)[j],
                old(self).pattern_direction,
                *cut_piece,
            ),
            final(self).width == old(self).width,
            final(self).length == old(self).length,
            final(self).blade_width == old(self).blade_width,
            final(self).pattern_direction == old(self).pattern_direction,
            final(self).price == old(self).price,
            r ==> exists|k: int| chosen_rect(
                rect_list(old(self).free_rects),
                old(self).pattern_direction,
                *cut_piece,
                rotate_preference == RotateCutPieceHeuristic::PreferRotated,
                rect_choice,
                k,
            ) && piece_list(final(self).cut_pieces) == piece_list(old(self).cut_pieces).push(
                placed_piece(
                    rect_list(old(self).free_rects)[k],
                    *cut_piece,
                    spec_fit(
                        rect_list(old(self).free_rects)[k],
                        old(self).pattern_direction,
                        *cut_piece,
                        rotate_preference == RotateCutPieceHeuristic::PreferRotated,
                    ).spec_is_rotated(),
                ),
            ),
            !r ==> *final(self) == *old(self),
    {
        let prefer_rotated = rotate_preference == RotateCutPieceHeuristic::PreferRotated;
        let found = self.find_placement_for_cut_piece(cut_piece, rect_choice, prefer_rotated);
        match found {
            Some((used_piece, free_index)) => {
                let ghost fr = rect_list(self.free_rects);
                let ghost fit = spec_fit(fr[free_index as int], self.pattern_direction, *cut_piece, prefer_rotated);
                proof {
                    lemma_fit_places_inside(fr[free_index as int], self.pattern_direction, *cut_piece, prefer_rotated);
                    assert(inside_bin(fr[free_index as int], self.width, self.length));
                }
                let free_rect = swap_remove_rect(&mut self.free_rects, free_index);
                proof {
                    if self.has_area() {
                        lemma_take_out(piece_list(self.cut_pieces), fr, free_index as int, self.blade_width, self.width, self.length);
                    }
                    assert forall|j: int| 0 <= j < rect_list(self.free_rects).len() implies inside_bin(
                        #[trigger] rect_list(self.free_rects)[j],
                        self.width,
                        self.length,
                    ) by {
                        if j == free_index as int {
                            assert(rect_list(self.free_rects)[j] == fr[fr.len() - 1]);
                        } else {
                            assert(rect_list(self.free_rects)[j] == fr[j]);
                        }
                    }
                }
                self.split_free_rect_by_heuristic(&free_rect, &used_piece.rect, split_method);
                if merge {
                    self.merge_free_rects();
                }
                proof {
                    assert(rect_within(used_piece.rect, fr[free_index as int]));
                    assert(inside_bin(used_piece.rect, self.width, self.length));
                    assert(used_piece.pattern_direction == self.pattern_direction);
                }
                let ghost before = piece_list(self.cut_pieces);
                proof {
                    if self.has_area() {
                        assert(grown_clear(used_piece.rect, rect_list(self.free_rects), self.blade_width, self.width, self.length));
                        assert forall|a: int| 0 <= a < before.len() implies inside_bin(#[trigger] before[a].rect, self.width, self.length) by {
                        }
                        lemma_push_apart(before, free_rect, used_piece, self.blade_width, self.width, self.length);
                        lemma_push_clear(before, rect_list(self.free_rects), used_piece, self.blade_width, self.width, self.length);
                    }
                }
                push_piece(&mut self.cut_pieces, used_piece);
                proof {
                    assert(chosen_rect(fr, self.pattern_direction, *cut_piece, prefer_rotated, rect_choice, free_index as int));
                    lemma_push_piece_inside(before, used_piece, self.width, self.length, self.pattern_direction);
                    assert(all_inside(rect_list(self.free_rects), self.width, self.length));
                }
                true
            },
            None => false,
        }
    }
}

impl Bin for GuillotineBin {
    type Heuristic = (FreeRectChoiceHeuristic, SplitHeuristic, RotateCutPieceHeuristic);

    open spec fn wf(&self) -> bool {
        self.inv()
    }

    open spec fn spec_width(&self) -> usize {
        self.width
    }

    open spec fn spec_length(&self) -> usize {
        self.length
    }

    open spec fn spec_direction(&self) -> PatternDirection {
        self.pattern_direction
    }

    open spec fn spec_price(&self) -> usize {
        self.price
    }

    open spec fn spec_blade(&self) -> usize {
        self.blade_width
    }

    open spec fn spec_free(&self) -> Seq<Rect> {
        rect_list(self.free_rects)
    }

    open spec fn spec_pieces(&self) -> Seq<UsedCutPiece> {
        piece_list(self.cut_pieces)
    }

    open spec fn spec_heuristic_count() -> nat {
        36
    }

    /// Each choice rule of least waste with each split rule, first upright
    /// then turned.
    open spec fn spec_heuristics() -> Seq<Self::Heuristic> {
        Seq::new(
            36,
            |i: int|
                (
                    random_choice(((i % 18) / 6) as usize),
                    split_at(i % 6),
                    if i < 18 {
                        RotateCutPieceHeuristic::PreferUpright
                    } else {
                        RotateCutPieceHeuristic::PreferRotated
                    },
                ),
        )
    }

    open spec fn spec_can_place(&self, p: CutPieceWithId) -> bool {
        exists|j: int| 0 <= j < rect_list(self.free_rects).len() && fits_in(#[trigger] rect_list(self.free_rects)[j], self.pattern_direction, p)
    }

    fn new(
        width: usize,
        length: usize,
        blade_width: usize,
        pattern_direction: PatternDirection,
        price: usize,
    ) -> (r: Self) {
        let free_rect = Rect { x: 0, y: 0, width, length };
        let mut free_rects = new_rects();
        push_rect(&mut free_rects, free_rect);
        let r = GuillotineBin {
            width,
            length,
            free_rects,
            blade_width,
            pattern_direction,
            cut_pieces: new_pieces(),
            price,
        };
        proof {
            assert(rect_list(r.free_rects)[0] == free_rect);
            assert forall|p: CutPieceWithId| r.spec_can_place(p) == fits_in(free_rect, pattern_direction, p) by {
                if fits_in(free_rect, pattern_direction, p) {
                    assert(fits_in(rect_list(r.free_rects)[0], pattern_direction, p));
                }
            }
        }
        r
    }

    fn price(&self) -> (r: usize) {
        self.price
    }

    fn remove_cut_pieces(&mut self, ids: &Vec<usize>) -> (r: usize) {
        self.remove_pieces_by_id(ids)
    }

    fn cut_pieces(&self) -> (r: &[UsedCutPiece]) {
        pieces_as_slice(&self.cut_pieces)
    }

    fn possible_heuristics() -> (r: Vec<Self::Heuristic>) {
        let r = Self::heuristics();
        proof {
            assert(r@ =~= Self::spec_heuristics());
        }
        r
    }

    fn insert_cut_piece_with_heuristic(&mut self, cut_piece: &CutPieceWithId, heuristic: &Self::Heuristic) -> (r: bool) {
        let r = self.insert_with_heuristics(cut_piece, true, heuristic.0, heuristic.1, heuristic.2);
        proof {
            if r {
                let k = choose|k: int| chosen_rect(
                    rect_list(old(self).free_rects),
                    old(self).pattern_direction,
                    *cut_piece,
                    heuristic.2 == RotateCutPieceHeuristic::PreferRotated,
                    heuristic.0,
                    k,
                ) && piece_list(self.cut_pieces) == piece_list(old(self).cut_pieces).push(
                    placed_piece(
                        rect_list(old(self).free_rects)[k],
                        *cut_piece,
                        spec_fit(
                            rect_list(old(self).free_rects)[k],
                            old(self).pattern_direction,
                            *cut_piece,
                            heuristic.2 == RotateCutPieceHeuristic::PreferRotated,
                        ).spec_is_rotated(),
                    ),
                );
                lemma_placed_demanded(
                    rect_list(old(self).free_rects)[k],
                    *cut_piece,
                    spec_fit(
                        rect_list(old(self).free_rects)[k],
                        old(self).pattern_direction,
                        *cut_piece,
                        heuristic.2 == RotateCutPieceHeuristic::PreferRotated,
                    ).spec_is_rotated(),
                );
                assert(piece_list(self.cut_pieces).drop_last() =~= piece_list(old(self).cut_pieces));
            }
        }
        r
    }

    fn insert_cut_piece_random_heuristic(&mut self, cut_piece: &CutPieceWithId, rng: &mut StdRng) -> (r: bool) {
        let c = gen_range(rng, 0, 2);
        let rect_choice = if c == 0 {
            FreeRectChoiceHeuristic::BestAreaFit
        } else if c == 1 {
            FreeRectChoiceHeuristic::BestShortSideFit
        } else {
            FreeRectChoiceHeuristic::BestLongSideFit
        };
        let s = gen_range(rng, 0, 5);
        let split = if s == 0 {
            SplitHeuristic::ShorterLeftoverAxis
        } else if s == 1 {
            SplitHeuristic::LongerLeftoverAxis
        } else if s == 2 {
            SplitHeuristic::MinimizeArea
        } else if s == 3 {
            SplitHeuristic::MaximizeArea
        } else if s == 4 {
            SplitHeuristic::ShorterAxis
        } else {
            SplitHeuristic::LongerAxis
        };
        let t = gen_range(rng, 0, 1);
        let rotate = if t == 0 {
            RotateCutPieceHeuristic::PreferUpright
        } else {
            RotateCutPieceHeuristic::PreferRotated
        };
        self.insert_cut_piece_with_heuristic(cut_piece, &(rect_choice, split, rotate))
    }

    fn matches_stock_piece(&self, stock_piece: &StockPiece) -> (r: bool) {
        self.width == stock_piece.width && self.length == stock_piece.length && self.pattern_direction
            == stock_piece.pattern_direction && self.price == stock_piece.price
    }

    fn copy(&self) -> (r: Self) {
        let r = GuillotineBin {
            width: self.width,
            length: self.length,
            blade_width: self.blade_width,
            pattern_direction: self.pattern_direction,
            cut_pieces: copy_pieces(&self.cut_pieces),
            free_rects: copy_rects(&self.free_rects),
            price: self.price,
        };
        proof {
            assert(rect_list(r.free_rects) == rect_list(self.free_rects));
            assert forall|p: CutPieceWithId| r.spec_can_place(p) == self.spec_can_place(p) by {
                if r.spec_can_place(p) {
                    let j = choose|j: int| 0 <= j < rect_list(r.free_rects).len() && fits_in(#[trigger] rect_list(r.free_rects)[j], r.pattern_direction, p);
                    assert(fits_in(rect_list(self.free_rects)[j], self.pattern_direction, p));
                }
                if self.spec_can_place(p) {
                    let j = choose|j: int| 0 <= j < rect_list(self.free_rects).len() && fits_in(#[trigger] rect_list(self.free_rects)[j], self.pattern_direction, p);
                    assert(fits_in(rect_list(r.free_rects)[j], r.pattern_direction, p));
                }
            }
        }
        r
    }

    fn into_result(self) -> (r: ResultStockPiece) {
        let mut cut_pieces: Vec<ResultCutPiece> = Vec::new();
        let mut i: usize = 0;
        while i < pieces_len(&self.cut_pieces)
            invariant
                i <= piece_list(self.cut_pieces).len(),
                cut_pieces@.len() == i,
                forall|j: int| 0 <= j < i ==> cut_pieces@[j] == piece_list(self.cut_pieces)[j].spec_result(),
            decreases piece_list(self.cut_pieces).len() - i,
        {
            cut_pieces.push(piece_at(&self.cut_pieces, i).to_result());
            i += 1;
        }
        ResultStockPiece {
            width: self.width,
            length: self.length,
            pattern_direction: self.pattern_direction,
            cut_pieces,
            waste_pieces: rects_into_vec(self.free_rects),
            price: self.price,
        }
    }

    proof fn lemma_pieces_inside(&self) {
        GuillotineBin::lemma_pieces_do_not_overlap(*self);
    }
}

/// The split rule numbered `i`.
pub open spec fn split_at(i: int) -> SplitHeuristic {
    if i == 0 {
        SplitHeuristic::ShorterLeftoverAxis
    } else if i == 1 {
        SplitHeuristic::LongerLeftoverAxis
    } else if i == 2 {
        SplitHeuristic::MinimizeArea
    } else if i == 3 {
        SplitHeuristic::MaximizeArea
    } else if i == 4 {
        SplitHeuristic::ShorterAxis
    } else {
        SplitHeuristic::LongerAxis
    }
}


impl GuillotineBin {
    /// In a valid guillotine bin no placed piece meets another grown by the
    /// kerf, so none overlaps or contains another; and, in a bin of some
    /// area, no placed piece meets a free rectangle and no two free rectangles
    /// meet or contain one another.
    #[verifier::rlimit(60)]
    pub proof fn lemma_pieces_do_not_overlap(bin: GuillotineBin)
        requires
            bin.inv(),
        ensures
            forall|a: int, b: int|
                0 <= a < piece_list(bin.cut_pieces).len() && 0 <= b < piece_list(bin.cut_pieces).len() && a != b ==> !intersects(
                    kerf_expanded(#[trigger] piece_list(bin.cut_pieces)[a].rect, bin.blade_width, bin.width, bin.length),
                    #[trigger] piece_list(bin.cut_pieces)[b].rect,
                ),
            forall|a: int, b: int|
                0 <= a < piece_list(bin.cut_pieces).len() && 0 <= b < piece_list(bin.cut_pieces).len() && a != b ==> !intersects(
                    #[trigger] piece_list(bin.cut_pieces)[a].rect,
                    #[trigger] piece_list(bin.cut_pieces)[b].rect,
                ) && !rect_within(piece_list(bin.cut_pieces)[a].rect, piece_list(bin.cut_pieces)[b].rect),
            bin.has_area() ==> forall|a: int, f: int|
                0 <= a < piece_list(bin.cut_pieces).len() && 0 <= f < rect_list(bin.free_rects).len() ==> !intersects(
                    #[trigger] piece_list(bin.cut_pieces)[a].rect,
                    #[trigger] rect_list(bin.free_rects)[f],
                ),
            bin.has_area() ==> forall|f: int, g: int|
                0 <= f < rect_list(bin.free_rects).len() && 0 <= g < rect_list(bin.free_rects).len() && f != g ==> !intersects(
                    #[trigger] rect_list(bin.free_rects)[f],
                    #[trigger] rect_list(bin.free_rects)[g],
                ) && !rect_within(rect_list(bin.free_rects)[f], rect_list(bin.free_rects)[g]),
    {
        let ps = piece_list(bin.cut_pieces);
        let fr = rect_list(bin.free_rects);
        if ps.len() > 0 {
            assert(inside_bin(ps[0].rect, bin.width, bin.length));
            assert(bin.has_area());
        }
        assert forall|a: int, b: int| 0 <= a < ps.len() && 0 <= b < ps.len() && a != b implies !intersects(
            #[trigger] ps[a].rect,
            #[trigger] ps[b].rect,
        ) && !rect_within(ps[a].rect, ps[b].rect) by {
            assert(bin.has_area());
            let e = kerf_expanded(ps[a].rect, bin.blade_width, bin.width, bin.length);
            assert(inside_bin(ps[a].rect, bin.width, bin.length));
            assert(rect_within(ps[a].rect, e));
            assert(!intersects(e, ps[b].rect));
            lemma_within_clear(ps[b].rect, e, ps[a].rect);
            lemma_meet_symmetric(ps[b].rect, ps[a].rect);
        }
        if bin.has_area() {
            assert forall|a: int, f: int| 0 <= a < ps.len() && 0 <= f < fr.len() implies !intersects(
                #[trigger] ps[a].rect,
                #[trigger] fr[f],
            ) by {
                let e = kerf_expanded(ps[a].rect, bin.blade_width, bin.width, bin.length);
                assert(inside_bin(ps[a].rect, bin.width, bin.length));
                assert(rect_within(ps[a].rect, e));
                assert(!intersects(e, fr[f]));
                lemma_within_clear(fr[f], e, ps[a].rect);
                lemma_meet_symmetric(fr[f], ps[a].rect);
            }
            assert forall|f: int, g: int| 0 <= f < fr.len() && 0 <= g < fr.len() && f != g implies !intersects(
                #[trigger] fr[f],
                #[trigger] fr[g],
            ) && !rect_within(fr[f], fr[g]) by {
                let e = kerf_expanded(fr[f], bin.blade_width, bin.width, bin.length);
                assert(inside_bin(fr[f], bin.width, bin.length));
                assert(rect_within(fr[f], e));
                assert(!intersects(e, fr[g]));
                lemma_within_clear(fr[g], e, fr[f]);
                lemma_meet_symmetric(fr[g], fr[f]);
                assert(positive(fr[f]));
            }
        }
    }
}

} // verus!
