//! One candidate solution of the genetic search: an ordered list of bins, the
//! stock budget that is left, and the pieces that could not be placed.
use crate::bin::{places, Bin};
use crate::geometry::{fits_in, piece_ok, CutPieceWithId, StockPiece, UsedCutPiece, MAX_DIM};
use crate::random::{gen_range, pick_one};
use rand::rngs::StdRng;
use vstd::multiset::Multiset;
use vstd::prelude::*;

verus! {


/// How many pieces the bins hold in all.
pub open spec fn placed_count<B: Bin>(bins: Seq<B>) -> nat
    decreases bins.len(),
{
    if bins.len() == 0 {
        0
    } else {
        placed_count(bins.drop_last()) + bins.last().spec_pieces().len()
    }
}

pub proof fn lemma_placed_push<B: Bin>(s: Seq<B>, b: B)
    ensures
        placed_count(s.push(b)) == placed_count(s) + b.spec_pieces().len(),
{
    assert(s.push(b).drop_last() =~= s);
}

pub proof fn lemma_placed_update<B: Bin>(s: Seq<B>, i: int, b: B)
    requires
        0 <= i < s.len(),
    ensures
        placed_count(s.update(i, b)) + s[i].spec_pieces().len() == placed_count(s) + b.spec_pieces().len(),
    decreases s.len(),
{
    if i == s.len() - 1 {
        assert(s.update(i, b).drop_last() =~= s.drop_last());
    } else {
        lemma_placed_update(s.drop_last(), i, b);
        assert(s.update(i, b).drop_last() =~= s.drop_last().update(i, b));
    }
}

/// The ids of the pieces a bin holds.
pub open spec fn bin_ids<B: Bin>(b: B) -> Multiset<usize> {
    b.spec_pieces().map_values(|u: UsedCutPiece| u.id).to_multiset()
}

/// The ids of the pieces the bins hold, counted with repetition.
pub open spec fn placed_ids<B: Bin>(bins: Seq<B>) -> Multiset<usize>
    decreases bins.len(),
{
    if bins.len() == 0 {
        Multiset::empty()
    } else {
        placed_ids(bins.drop_last()).add(bin_ids(bins.last()))
    }
}

/// The ids of a list of pieces, counted with repetition.
pub open spec fn piece_ids(s: Seq<CutPieceWithId>) -> Multiset<usize> {
    s.map_values(|p: CutPieceWithId| p.id).to_multiset()
}

pub proof fn lemma_placed_ids_push<B: Bin>(s: Seq<B>, b: B)
    ensures
        placed_ids(s.push(b)) == placed_ids(s).add(bin_ids(b)),
{
    assert(s.push(b).drop_last() =~= s);
}

pub proof fn lemma_placed_ids_update<B: Bin>(s: Seq<B>, i: int, b: B)
    requires
        0 <= i < s.len(),
    ensures
        placed_ids(s.update(i, b)).add(bin_ids(s[i])) == placed_ids(s).add(bin_ids(b)),
    decreases s.len(),
{
    if i == s.len() - 1 {
        assert(s.update(i, b).drop_last() =~= s.drop_last());
        assert(placed_ids(s.update(i, b)).add(bin_ids(s[i])) =~= placed_ids(s).add(bin_ids(b)));
    } else {
        lemma_placed_ids_update(s.drop_last(), i, b);
        assert(s.update(i, b).drop_last() =~= s.drop_last().update(i, b));
        assert(s.update(i, b).last() == s.last());
        assert(s.drop_last()[i] == s[i]);
        let x = placed_ids(s.drop_last().update(i, b));
        let y = placed_ids(s.drop_last());
        assert(x.add(bin_ids(s[i])) == y.add(bin_ids(b)));
        assert(placed_ids(s.update(i, b)) == x.add(bin_ids(s.last())));
        assert(placed_ids(s) == y.add(bin_ids(s.last())));
        assert(x.add(bin_ids(s.last())).add(bin_ids(s[i])) =~= x.add(bin_ids(s[i])).add(bin_ids(s.last())));
        assert(y.add(bin_ids(s.last())).add(bin_ids(b)) =~= y.add(bin_ids(b)).add(bin_ids(s.last())));
    }
}

/// A bin that gained one piece gained its id.
pub proof fn lemma_bin_ids_push<B: Bin>(old: B, new: B, u: UsedCutPiece)
    requires
        new.spec_pieces() == old.spec_pieces().push(u),
    ensures
        bin_ids(new) == bin_ids(old).insert(u.id),
{
    old.spec_pieces().lemma_push_map_commute(|u: UsedCutPiece| u.id, u);
    vstd::seq_lib::to_multiset_build(old.spec_pieces().map_values(|u: UsedCutPiece| u.id), u.id);
}

pub proof fn lemma_bin_ids_single<B: Bin>(b: B, u: UsedCutPiece)
    requires
        b.spec_pieces() == seq![u],
    ensures
        bin_ids(b) == Multiset::<usize>::empty().insert(u.id),
{
    let m = b.spec_pieces().map_values(|u: UsedCutPiece| u.id);
    assert(m =~= Seq::<usize>::empty().push(u.id));
    vstd::seq_lib::to_multiset_build(Seq::<usize>::empty(), u.id);
    Seq::<usize>::empty().to_multiset_ensures();
    assert(Seq::<usize>::empty().to_multiset() =~= Multiset::<usize>::empty());
}

/// Cancelling the same bin on both sides of an update.
pub proof fn lemma_multiset_cancel(x: Multiset<usize>, y: Multiset<usize>, a: Multiset<usize>, id: usize)
    requires
        x.add(a) == y.add(a.insert(id)),
    ensures
        x == y.insert(id),
{
    assert forall|v: usize| x.count(v) == y.insert(id).count(v) by {
        assert(x.add(a).count(v) == y.add(a.insert(id)).count(v));
        assert(x.add(a).count(v) == x.count(v) + a.count(v));
        assert(y.add(a.insert(id)).count(v) == y.count(v) + a.insert(id).count(v));
        if v == id {
            assert(a.insert(id).count(v) == a.count(v) + 1);
            assert(y.insert(id).count(v) == y.count(v) + 1);
        } else {
            assert(a.insert(id).count(v) == a.count(v));
            assert(y.insert(id).count(v) == y.count(v));
        }
    }
    assert(x =~= y.insert(id));
}

pub proof fn lemma_piece_ids_empty()
    ensures
        piece_ids(Seq::<CutPieceWithId>::empty()) == Multiset::<usize>::empty(),
{
    let m = Seq::<CutPieceWithId>::empty().map_values(|p: CutPieceWithId| p.id);
    assert(m =~= Seq::<usize>::empty());
    m.to_multiset_ensures();
    assert(m.to_multiset() =~= Multiset::<usize>::empty());
}

pub proof fn lemma_piece_ids_push(s: Seq<CutPieceWithId>, p: CutPieceWithId)
    ensures
        piece_ids(s.push(p)) == piece_ids(s).insert(p.id),
{
    s.lemma_push_map_commute(|p: CutPieceWithId| p.id, p);
    vstd::seq_lib::to_multiset_build(s.map_values(|p: CutPieceWithId| p.id), p.id);
}

/// Reordering pieces keeps their ids.
pub proof fn lemma_piece_ids_reordered(a: Seq<CutPieceWithId>, b: Seq<CutPieceWithId>)
    requires
        a.to_multiset() == b.to_multiset(),
    ensures
        piece_ids(a) == piece_ids(b),
    decreases a.len(),
{
    a.to_multiset_ensures();
    b.to_multiset_ensures();
    if a.len() == 0 {
        assert(b.len() == 0);
        assert(a =~= Seq::<CutPieceWithId>::empty());
        assert(b =~= Seq::<CutPieceWithId>::empty());
    } else {
        let x = a.last();
        let a1 = a.drop_last();
        assert(a =~= a1.push(x));
        assert(a.contains(x));
        assert(b.to_multiset().count(x) > 0);
        assert(b.contains(x));
        let k = choose|k: int| 0 <= k < b.len() && b[k] == x;
        let b1 = b.remove(k);
        vstd::seq_lib::to_multiset_remove(b, k);
        vstd::seq_lib::to_multiset_remove(a, a.len() - 1);
        assert(a.remove(a.len() - 1) =~= a1);
        lemma_piece_ids_reordered(a1, b1);
        lemma_piece_ids_push(a1, x);
        assert(b =~= b1.insert(k, x));
        let f = |p: CutPieceWithId| p.id;
        assert(b.map_values(f) =~= b1.map_values(f).insert(k, x.id));
        vstd::seq_lib::to_multiset_insert(b1.map_values(f), k, x.id);
    }
}

/// Two stock entries are equivalent: same size, direction and price.
pub open spec fn same_key(a: StockPiece, b: StockPiece) -> bool {
    a.width == b.width && a.length == b.length && a.pattern_direction == b.pattern_direction
        && a.price == b.price
}

/// No two entries of the catalogue are equivalent.
pub open spec fn keys_distinct(s: Seq<StockPiece>) -> bool {
    forall|i: int, j: int| 0 <= i < j < s.len() ==> !same_key(#[trigger] s[i], #[trigger] s[j])
}

/// The bin was cut from (an entry equivalent to) `sp`.
pub open spec fn bin_matches<B: Bin>(b: B, sp: StockPiece) -> bool {
    b.spec_width() == sp.width && b.spec_length() == sp.length && b.spec_direction()
        == sp.pattern_direction && b.spec_price() == sp.price
}

/// The bin was cut from some entry of the catalogue.
pub open spec fn cut_from_some<B: Bin>(b: B, possible: Seq<StockPiece>) -> bool {
    exists|k: int| 0 <= k < possible.len() && bin_matches(b, #[trigger] possible[k])
}

/// How many bins of `bins` were cut from `sp`.
pub open spec fn count_matching<B: Bin>(bins: Seq<B>, sp: StockPiece) -> nat
    decreases bins.len(),
{
    if bins.len() == 0 {
        0
    } else {
        count_matching(bins.drop_last(), sp) + if bin_matches(bins.last(), sp) {
            1nat
        } else {
            0nat
        }
    }
}

/// The budget `available` is the catalogue `possible` drawn down by `bins`: it
/// keeps each entry's key, an unlimited entry stays unlimited, and for a limited
/// one the bins cut from it and what is left of it stay within its quantity.
pub open spec fn budget_ok<B: Bin>(possible: Seq<StockPiece>, available: Seq<StockPiece>, bins: Seq<B>) -> bool {
    &&& available.len() == possible.len()
    &&& forall|k: int| 0 <= k < possible.len() ==> same_key(#[trigger] available[k], possible[k])
    &&& forall|k: int|
        0 <= k < possible.len() ==> match #[trigger] possible[k].quantity {
            None => available[k].quantity is None,
            Some(q) => available[k].quantity matches Some(a) && count_matching(bins, possible[k]) + a <= q,
        }
}

/// Some entry of unlimited quantity in the catalogue takes `p`.
pub open spec fn unlimited_fit(possible: Seq<StockPiece>, p: CutPieceWithId) -> bool {
    exists|k: int|
        0 <= k < possible.len() && (#[trigger] possible[k]).quantity is None && fits_in(
            possible[k].spec_rect(),
            possible[k].pattern_direction,
            p,
        )
}

/// No unplaced piece could have had a bin of unlimited stock.
pub open spec fn unused_unavoidable(possible: Seq<StockPiece>, unused: Seq<CutPieceWithId>) -> bool {
    forall|m: int| 0 <= m < unused.len() ==> !unlimited_fit(possible, #[trigger] unused[m])
}

/// `new` keeps every bin of `old` in its place, cut from the same stock, with
/// its pieces first, and may add bins after them.
pub open spec fn extends<B: Bin>(old: Seq<B>, new: Seq<B>) -> bool {
    &&& old.len() <= new.len()
    &&& forall|q: int|
        0 <= q < old.len() ==> same_keys(#[trigger] new[q], old[q]) && old[q].spec_pieces().len() <= new[q].spec_pieces().len()
            && new[q].spec_pieces().subrange(0, old[q].spec_pieces().len() as int) == old[q].spec_pieces()
}

pub proof fn lemma_extends_trans<B: Bin>(a: Seq<B>, b: Seq<B>, c: Seq<B>)
    requires
        extends(a, b),
        extends(b, c),
    ensures
        extends(a, c),
{
    assert forall|q: int| 0 <= q < a.len() implies same_keys(#[trigger] c[q], a[q]) && a[q].spec_pieces().len() <= c[q].spec_pieces().len()
        && c[q].spec_pieces().subrange(0, a[q].spec_pieces().len() as int) == a[q].spec_pieces() by {
        assert(b[q].spec_pieces().subrange(0, a[q].spec_pieces().len() as int) == a[q].spec_pieces());
        assert(c[q].spec_pieces().subrange(0, b[q].spec_pieces().len() as int) == b[q].spec_pieces());
        assert(c[q].spec_pieces().subrange(0, a[q].spec_pieces().len() as int) =~= b[q].spec_pieces().subrange(0, a[q].spec_pieces().len() as int));
    }
}

pub proof fn lemma_extends_refl<B: Bin>(a: Seq<B>)
    ensures
        extends(a, a),
{
    assert forall|q: int| 0 <= q < a.len() implies same_keys(#[trigger] a[q], a[q]) && a[q].spec_pieces().len() <= a[q].spec_pieces().len()
        && a[q].spec_pieces().subrange(0, a[q].spec_pieces().len() as int) == a[q].spec_pieces() by {
        assert(a[q].spec_pieces().subrange(0, a[q].spec_pieces().len() as int) =~= a[q].spec_pieces());
    }
}

pub proof fn lemma_extends_push<B: Bin>(a: Seq<B>, b: B)
    ensures
        extends(a, a.push(b)),
{
    assert forall|q: int| 0 <= q < a.len() implies same_keys(#[trigger] a.push(b)[q], a[q]) && a[q].spec_pieces().len()
        <= a.push(b)[q].spec_pieces().len() && a.push(b)[q].spec_pieces().subrange(0, a[q].spec_pieces().len() as int)
        == a[q].spec_pieces() by {
        assert(a.push(b)[q] == a[q]);
        assert(a[q].spec_pieces().subrange(0, a[q].spec_pieces().len() as int) =~= a[q].spec_pieces());
    }
}

pub proof fn lemma_extends_update<B: Bin>(a: Seq<B>, i: int, b: B)
    requires
        0 <= i < a.len(),
        same_keys(b, a[i]),
        b.spec_pieces().len() == a[i].spec_pieces().len() + 1,
        b.spec_pieces().drop_last() == a[i].spec_pieces(),
    ensures
        extends(a, a.update(i, b)),
{
    assert forall|q: int| 0 <= q < a.len() implies same_keys(#[trigger] a.update(i, b)[q], a[q]) && a[q].spec_pieces().len()
        <= a.update(i, b)[q].spec_pieces().len() && a.update(i, b)[q].spec_pieces().subrange(0, a[q].spec_pieces().len() as int)
        == a[q].spec_pieces() by {
        if q == i {
            assert(b.spec_pieces().subrange(0, a[q].spec_pieces().len() as int) =~= b.spec_pieces().drop_last());
        } else {
            assert(a[q].spec_pieces().subrange(0, a[q].spec_pieces().len() as int) =~= a[q].spec_pieces());
        }
    }
}

/// Keeps the bins that hold some piece.
pub open spec fn holds_pieces<B: Bin>() -> spec_fn(B) -> bool {
    |b: B| b.spec_pieces().len() > 0
}

/// Some bin of `bins` was cut from the same stock as `b` and holds its pieces
/// first.
pub open spec fn holds_bin<B: Bin>(bins: Seq<B>, b: B) -> bool {
    exists|q: int|
        0 <= q < bins.len() && same_keys(#[trigger] bins[q], b) && b.spec_pieces().len() <= bins[q].spec_pieces().len()
            && bins[q].spec_pieces().subrange(0, b.spec_pieces().len() as int) == b.spec_pieces()
}

/// The child holds each non-empty bin of `span[s..e]`.
pub open spec fn holds_span<B: Bin>(bins: Seq<B>, span: Seq<B>, s: int, e: int) -> bool {
    forall|t: int| s <= t < e && (#[trigger] span[t]).spec_pieces().len() > 0 ==> holds_bin(bins, span[t])
}

pub proof fn lemma_reversed_holds<B: Bin>(old: Seq<B>, new: Seq<B>, start: int, end: int, b: B)
    requires
        0 <= start <= end <= old.len(),
        reversed_between(old, new, start, end),
        holds_bin(old, b),
    ensures
        holds_bin(new, b),
{
    let q = choose|q: int|
        0 <= q < old.len() && same_keys(#[trigger] old[q], b) && b.spec_pieces().len() <= old[q].spec_pieces().len()
            && old[q].spec_pieces().subrange(0, b.spec_pieces().len() as int) == b.spec_pieces();
    let q2 = if start <= q < end { start + end - 1 - q } else { q };
    assert(new[q2] == old[q]);
}

/// `new` is `old` with the slice `start..end` reversed.
pub open spec fn reversed_between<T>(old: Seq<T>, new: Seq<T>, start: int, end: int) -> bool {
    &&& new.len() == old.len()
    &&& forall|j: int| 0 <= j < new.len() ==> #[trigger] new[j] == if start <= j < end {
        old[start + end - 1 - j]
    } else {
        old[j]
    }
}

/// The entry with one unit less; an unlimited one stays unlimited.
pub open spec fn drawn_down(sp: StockPiece) -> StockPiece {
    StockPiece {
        quantity: match sp.quantity {
            Some(q) => Some((q - 1) as usize),
            None => None,
        },
        ..sp
    }
}

/// A stock entry that could still open a bin for `p`.
pub open spec fn can_open(sp: StockPiece, p: CutPieceWithId) -> bool {
    sp.quantity != Some(0usize) && fits_in(sp.spec_rect(), sp.pattern_direction, p)
}

pub proof fn lemma_count_push<B: Bin>(s: Seq<B>, b: B, sp: StockPiece)
    ensures
        count_matching(s.push(b), sp) == count_matching(s, sp) + if bin_matches(b, sp) {
            1nat
        } else {
            0nat
        },
{
    assert(s.push(b).drop_last() =~= s);
}

pub proof fn lemma_count_concat<B: Bin>(a: Seq<B>, b: Seq<B>, sp: StockPiece)
    ensures
        count_matching(a + b, sp) == count_matching(a, sp) + count_matching(b, sp),
    decreases b.len(),
{
    if b.len() == 0 {
        assert(a + b =~= a);
    } else {
        lemma_count_concat(a, b.drop_last(), sp);
        assert((a + b).drop_last() =~= a + b.drop_last());
    }
}

pub proof fn lemma_count_update<B: Bin>(s: Seq<B>, i: int, b: B, sp: StockPiece)
    requires
        0 <= i < s.len(),
        bin_matches(b, sp) == bin_matches(s[i], sp),
    ensures
        count_matching(s.update(i, b), sp) == count_matching(s, sp),
    decreases s.len(),
{
    if i == s.len() - 1 {
        assert(s.update(i, b).drop_last() =~= s.drop_last());
    } else {
        lemma_count_update(s.drop_last(), i, b, sp);
        assert(s.update(i, b).drop_last() =~= s.drop_last().update(i, b));
    }
}

pub proof fn lemma_count_subrange<B: Bin>(s: Seq<B>, lo: int, hi: int, sp: StockPiece)
    requires
        0 <= lo <= hi <= s.len(),
    ensures
        count_matching(s.subrange(lo, hi), sp) <= count_matching(s, sp),
{
    lemma_count_concat(s.subrange(0, lo), s.subrange(lo, hi), sp);
    lemma_count_concat(s.subrange(0, lo) + s.subrange(lo, hi), s.subrange(hi, s.len() as int), sp);
    assert(s.subrange(0, lo) + s.subrange(lo, hi) + s.subrange(hi, s.len() as int) =~= s);
}

/// One candidate solution.
pub struct OptimizerUnit<B: Bin> {
    /// The bins, in the order that first-fit tries them.
    pub bins: Vec<B>,
    /// All the stock entries; it stays as it was given.
    pub possible_stock_pieces: Vec<StockPiece>,
    /// What is left of each stock entry for new bins.
    pub available_stock_pieces: Vec<StockPiece>,
    /// The pieces that could not be placed.
    pub unused_cut_pieces: Vec<CutPieceWithId>,
    /// The kerf.
    pub blade_width: usize,
}

impl<B: Bin> OptimizerUnit<B> {
    /// The catalogue is valid for bins and free of equivalent entries.
    pub open spec fn catalogue_ok(possible: Seq<StockPiece>) -> bool {
        &&& keys_distinct(possible)
        &&& forall|k: int|
            0 <= k < possible.len() ==> (#[trigger] possible[k]).width <= MAX_DIM && possible[k].length
                <= MAX_DIM
    }

    /// Every bin is valid, uses the unit's kerf and was cut from an entry of the
    /// catalogue, and the budget accounts for the bins.
    pub open spec fn wf(&self) -> bool {
        &&& self.blade_width <= MAX_DIM
        &&& Self::catalogue_ok(self.possible_stock_pieces@)
        &&& forall|i: int|
            0 <= i < self.bins@.len() ==> (#[trigger] self.bins@[i]).wf() && self.bins@[i].spec_blade()
                == self.blade_width
        &&& forall|i: int|
            0 <= i < self.bins@.len() ==> cut_from_some(#[trigger] self.bins@[i], self.possible_stock_pieces@)
        &&& budget_ok(self.possible_stock_pieces@, self.available_stock_pieces@, self.bins@)
        &&& forall|m: int| 0 <= m < self.unused_cut_pieces@.len() ==> piece_ok(#[trigger] self.unused_cut_pieces@[m])
    }

    /// Some bin of the unit, or some stock entry left in the budget, takes `p`.
    pub open spec fn spec_can_take(&self, p: CutPieceWithId) -> bool {
        (exists|i: int| 0 <= i < self.bins@.len() && (#[trigger] self.bins@[i]).spec_can_place(p))
            || (exists|k: int|
            0 <= k < self.available_stock_pieces@.len() && can_open(
                #[trigger] self.available_stock_pieces@[k],
                p,
            ))
    }

    /// A unit with no bins and the whole catalogue as its budget.
    pub fn empty(possible_stock_pieces: &Vec<StockPiece>, blade_width: usize) -> (r: Self)
        requires
            Self::catalogue_ok(possible_stock_pieces@),
            blade_width <= MAX_DIM,
        ensures
            r.wf(),
            r.bins@.len() == 0,
            r.unused_cut_pieces@.len() == 0,
            r.possible_stock_pieces@ == possible_stock_pieces@,
            r.available_stock_pieces@ == possible_stock_pieces@,
            r.blade_width == blade_width,
    {
        let r = OptimizerUnit {
            bins: Vec::new(),
            possible_stock_pieces: crate::geometry::copy_vec(possible_stock_pieces),
            available_stock_pieces: crate::geometry::copy_vec(possible_stock_pieces),
            unused_cut_pieces: Vec::new(),
            blade_width,
        };
        proof {
            assert forall|k: int| 0 <= k < r.possible_stock_pieces@.len() implies match #[trigger] r.possible_stock_pieces@[k].quantity {
                None => r.available_stock_pieces@[k].quantity is None,
                Some(q) => r.available_stock_pieces@[k].quantity matches Some(a) && count_matching(r.bins@, r.possible_stock_pieces@[k]) + a <= q,
            } by {
                assert(count_matching(r.bins@, r.possible_stock_pieces@[k]) == 0);
            }
        }
        r
    }

    /// The budget entries that still have stock and take the piece, by index.
    fn find_open_stock(&self, cut_piece: &CutPieceWithId) -> (r: Vec<usize>)
        ensures
            forall|m: int| 0 <= m < r@.len() ==> 0 <= #[trigger] r@[m] < self.available_stock_pieces@.len()
                && can_open(self.available_stock_pieces@[r@[m] as int], *cut_piece),
            (r@.len() == 0) == !(exists|k: int|
                0 <= k < self.available_stock_pieces@.len() && can_open(
                    #[trigger] self.available_stock_pieces@[k],
                    *cut_piece,
                )),
    {
        let mut r: Vec<usize> = Vec::new();
        let mut k: usize = 0;
        while k < self.available_stock_pieces.len()
            invariant
                k <= self.available_stock_pieces@.len(),
                forall|m: int| 0 <= m < r@.len() ==> 0 <= #[trigger] r@[m] < self.available_stock_pieces@.len()
                    && can_open(self.available_stock_pieces@[r@[m] as int], *cut_piece),
                (r@.len() == 0) == !(exists|j: int|
                    0 <= j < k && can_open(#[trigger] self.available_stock_pieces@[j], *cut_piece)),
            decreases self.available_stock_pieces@.len() - k,
        {
            let sp = self.available_stock_pieces[k];
            if sp.quantity != Some(0usize) && sp.fits_cut_piece(cut_piece) {
                r.push(k);
                proof {
                    assert(r@[r@.len() - 1] == k);
                }
            }
            k += 1;
        }
        r
    }

    /// Opens a new bin for the piece from a stock entry chosen at random among
    /// those left in the budget that take it; the entry is drawn down by one.
    pub fn add_to_new_bin(&mut self, cut_piece: &CutPieceWithId, rng: &mut StdRng) -> (r: bool)
        requires
            old(self).wf(),
            piece_ok(*cut_piece),
        ensures
            final(self).wf(),
            r == exists|k: int|
                0 <= k < old(self).available_stock_pieces@.len() && can_open(
                    #[trigger] old(self).available_stock_pieces@[k],
                    *cut_piece,
                ),
            final(self).possible_stock_pieces == old(self).possible_stock_pieces,
            final(self).unused_cut_pieces == old(self).unused_cut_pieces,
            final(self).blade_width == old(self).blade_width,
            extends(old(self).bins@, final(self).bins@),
            r ==> placed_ids(final(self).bins@) == placed_ids(old(self).bins@).insert(cut_piece.id),
            r ==> final(self).bins@.drop_last() == old(self).bins@,
            r ==> final(self).bins@.len() == old(self).bins@.len() + 1,
            r ==> final(self).bins@.last().spec_pieces().len() == 1,
            r ==> places(final(self).bins@.last().spec_pieces()[0], *cut_piece),
            r ==> exists|k: int|
                0 <= k < old(self).available_stock_pieces@.len() && can_open(#[trigger] old(self).available_stock_pieces@[k], *cut_piece)
                    && bin_matches(final(self).bins@.last(), old(self).available_stock_pieces@[k])
                    && final(self).available_stock_pieces@ == old(self).available_stock_pieces@.update(
                    k,
                    drawn_down(old(self).available_stock_pieces@[k]),
                ),
            !r ==> final(self).bins@ == old(self).bins@,
            !r ==> final(self).available_stock_pieces@ == old(self).available_stock_pieces@,
    {
        let candidates = self.find_open_stock(cut_piece);
        match pick_one(&candidates, rng) {
            Some(k) => {
                let ghost old_self = *self;
                let ghost ki = choose|m: int| 0 <= m < candidates@.len() && candidates@[m] == k;
                proof {
                    assert(0 <= candidates@[ki] < self.available_stock_pieces@.len());
                }
                let mut sp = self.available_stock_pieces[k];
                sp.dec_quantity();
                proof {
                    assert(sp == drawn_down(old_self.available_stock_pieces@[k as int]));
                }
                self.available_stock_pieces.set(k, sp);
                let mut bin = B::new(sp.width, sp.length, self.blade_width, sp.pattern_direction, sp.price);
                proof {
                    assert(same_key(old_self.available_stock_pieces@[k as int], old_self.possible_stock_pieces@[k as int]));
                    assert(fits_in(crate::geometry::Rect { x: 0, y: 0, width: sp.width, length: sp.length }, sp.pattern_direction, *cut_piece));
                }
                let placed = bin.insert_cut_piece_random_heuristic(cut_piece, rng);
                proof {
                    assert(placed);
                    assert(bin.spec_pieces().drop_last() =~= Seq::<UsedCutPiece>::empty());
                }
                self.bins.push(bin);
                proof {
                    lemma_extends_push(old_self.bins@, bin);
                    assert(self.bins@ == old_self.bins@.push(bin));
                    lemma_placed_ids_push(old_self.bins@, bin);
                    let u = bin.spec_pieces()[0];
                    assert(places(u, *cut_piece));
                    assert(u.spec_demanded() == *cut_piece);
                    assert(u.id == cut_piece.id);
                    assert(bin.spec_pieces() =~= seq![u]);
                    lemma_bin_ids_single(bin, u);
                    assert(placed_ids(self.bins@) =~= placed_ids(old_self.bins@).insert(cut_piece.id));
                    let possible = self.possible_stock_pieces@;
                    assert forall|i: int| 0 <= i < self.bins@.len() implies (#[trigger] self.bins@[i]).wf()
                        && self.bins@[i].spec_blade() == self.blade_width by {
                        if i < old_self.bins@.len() {
                            assert(self.bins@[i] == old_self.bins@[i]);
                        }
                    }
                    assert forall|i: int| 0 <= i < self.bins@.len() implies cut_from_some(#[trigger] self.bins@[i], possible) by {
                        if i < old_self.bins@.len() {
                            assert(self.bins@[i] == old_self.bins@[i]);
                        } else {
                            assert(bin_matches(self.bins@[i], possible[k as int]));
                        }
                    }
                    assert forall|m: int| 0 <= m < possible.len() implies same_key(#[trigger] self.available_stock_pieces@[m], possible[m]) by {
                        assert(same_key(old_self.available_stock_pieces@[m], possible[m]));
                    }
                    assert forall|m: int| 0 <= m < possible.len() implies match #[trigger] possible[m].quantity {
                        None => self.available_stock_pieces@[m].quantity is None,
                        Some(q) => self.available_stock_pieces@[m].quantity matches Some(a) && count_matching(self.bins@, possible[m]) + a <= q,
                    } by {
                        lemma_count_push(old_self.bins@, bin, possible[m]);
                        assert(self.bins@ == old_self.bins@.push(bin));
                        assert(match possible[m].quantity {
                            None => old_self.available_stock_pieces@[m].quantity is None,
                            Some(q) => old_self.available_stock_pieces@[m].quantity matches Some(a) && count_matching(old_self.bins@, possible[m]) + a <= q,
                        });
                        if m != k as int {
                            assert(!same_key(possible[m], possible[k as int]));
                            assert(!bin_matches(bin, possible[m]));
                        }
                    }
                }
                true
            },
            None => {
                proof {
                    lemma_extends_refl(self.bins@);
                }
                false
            },
        }
    }
}

/// Bins that agree entry by entry on their keys are cut from the same entries
/// as often.
pub open spec fn same_keys<B: Bin>(a: B, b: B) -> bool {
    a.spec_width() == b.spec_width() && a.spec_length() == b.spec_length() && a.spec_direction()
        == b.spec_direction() && a.spec_price() == b.spec_price()
}

/// The first budget entry with stock left that the bin was cut from.
fn find_available<B: Bin>(available: &Vec<StockPiece>, bin: &B, with_stock: bool) -> (r: Option<usize>)
    ensures
        r matches Some(k) ==> k < available@.len() && bin_matches(*bin, available@[k as int]) && (with_stock
            ==> available@[k as int].quantity != Some(0usize)),
        r.is_none() ==> forall|k: int|
            0 <= k < available@.len() ==> !(bin_matches(*bin, #[trigger] available@[k]) && (with_stock
                ==> available@[k].quantity != Some(0usize))),
{
    let mut k: usize = 0;
    while k < available.len()
        invariant
            k <= available@.len(),
            forall|j: int|
                0 <= j < k ==> !(bin_matches(*bin, #[trigger] available@[j]) && (with_stock
                    ==> available@[j].quantity != Some(0usize))),
        decreases available@.len() - k,
    {
        let sp = available[k];
        if (!with_stock || sp.quantity != Some(0usize)) && bin.matches_stock_piece(&sp) {
            return Some(k);
        }
        k += 1;
    }
    None
}

/// The budget is still within bounds once an entry matching `b` gives one unit
/// to it, and the bin is counted.
proof fn lemma_budget_take<B: Bin>(possible: Seq<StockPiece>, available: Seq<StockPiece>, acc: Seq<B>, b: B, k: int, new_available: Seq<StockPiece>)
    requires
        budget_ok(possible, available, acc),
        keys_distinct(possible),
        0 <= k < possible.len(),
        bin_matches(b, available[k]),
        available[k].quantity != Some(0usize),
        new_available.len() == available.len(),
        new_available[k].quantity == match available[k].quantity {
            Some(q) => Some((q - 1) as usize),
            None => None,
        },
        same_key(new_available[k], available[k]),
        forall|m: int| 0 <= m < available.len() && m != k ==> new_available[m] == available[m],
    ensures
        budget_ok(possible, new_available, acc.push(b)),
{
    assert forall|m: int| 0 <= m < possible.len() implies same_key(#[trigger] new_available[m], possible[m]) by {
        assert(same_key(available[m], possible[m]));
    }
    assert forall|m: int| 0 <= m < possible.len() implies match #[trigger] possible[m].quantity {
        None => new_available[m].quantity is None,
        Some(q) => new_available[m].quantity matches Some(a) && count_matching(acc.push(b), possible[m]) + a <= q,
    } by {
        lemma_count_push(acc, b, possible[m]);
        assert(same_key(available[m], possible[m]));
        if m != k {
            assert(same_key(available[k], possible[k]));
            if m < k {
                assert(!same_key(possible[m], possible[k]));
            } else {
                assert(!same_key(possible[k], possible[m]));
            }
            assert(!bin_matches(b, possible[m]));
        }
    }
}

/// Dropping a bin from the accounted ones keeps the budget within bounds.
proof fn lemma_budget_fewer<B: Bin>(possible: Seq<StockPiece>, available: Seq<StockPiece>, acc: Seq<B>, fewer: Seq<B>)
    requires
        budget_ok(possible, available, acc),
        forall|m: int| 0 <= m < possible.len() ==> count_matching(fewer, #[trigger] possible[m]) <= count_matching(acc, possible[m]),
    ensures
        budget_ok(possible, available, fewer),
{
    assert forall|m: int| 0 <= m < possible.len() implies match #[trigger] possible[m].quantity {
        None => available[m].quantity is None,
        Some(q) => available[m].quantity matches Some(a) && count_matching(fewer, possible[m]) + a <= q,
    } by {
        assert(count_matching(fewer, possible[m]) <= count_matching(acc, possible[m]));
    }
}

impl<B: Bin> OptimizerUnit<B> {
    /// A unit that cannot take a piece has no unlimited stock entry that fits it.
    proof fn lemma_cannot_take(unit: Self, p: CutPieceWithId)
        requires
            unit.wf(),
            !unit.spec_can_take(p),
        ensures
            !unlimited_fit(unit.possible_stock_pieces@, p),
    {
        if unlimited_fit(unit.possible_stock_pieces@, p) {
            let k = choose|k: int|
                0 <= k < unit.possible_stock_pieces@.len() && (#[trigger] unit.possible_stock_pieces@[k]).quantity is None
                    && fits_in(unit.possible_stock_pieces@[k].spec_rect(), unit.possible_stock_pieces@[k].pattern_direction, p);
            assert(same_key(unit.available_stock_pieces@[k], unit.possible_stock_pieces@[k]));
            assert(can_open(unit.available_stock_pieces@[k], p));
        }
    }

    /// Validity depends on the bins, the catalogue, the budget and the kerf only.
    proof fn lemma_same_layout(a: Self, b: Self)
        requires
            a.wf(),
            b.bins@ == a.bins@,
            b.possible_stock_pieces@ == a.possible_stock_pieces@,
            b.available_stock_pieces@ == a.available_stock_pieces@,
            b.blade_width == a.blade_width,
            forall|m: int| 0 <= m < b.unused_cut_pieces@.len() ==> piece_ok(#[trigger] b.unused_cut_pieces@[m]),
        ensures
            b.wf(),
    {
    }

    /// Replacing a bin by one cut from the same stock keeps the unit valid.
    proof fn lemma_replace_bin(old_unit: Self, new_unit: Self, i: int)
        requires
            old_unit.wf(),
            0 <= i < old_unit.bins@.len(),
            new_unit.bins@ == old_unit.bins@.update(i, new_unit.bins@[i]),
            new_unit.bins@[i].wf(),
            same_keys(new_unit.bins@[i], old_unit.bins@[i]),
            new_unit.bins@[i].spec_blade() == old_unit.blade_width,
            new_unit.possible_stock_pieces == old_unit.possible_stock_pieces,
            new_unit.available_stock_pieces == old_unit.available_stock_pieces,
            new_unit.unused_cut_pieces == old_unit.unused_cut_pieces,
            new_unit.blade_width == old_unit.blade_width,
        ensures
            new_unit.wf(),
    {
        let possible = old_unit.possible_stock_pieces@;
        assert forall|j: int| 0 <= j < new_unit.bins@.len() implies (#[trigger] new_unit.bins@[j]).wf()
            && new_unit.bins@[j].spec_blade() == new_unit.blade_width by {
            if j != i {
                assert(new_unit.bins@[j] == old_unit.bins@[j]);
            }
        }
        assert forall|j: int| 0 <= j < new_unit.bins@.len() implies cut_from_some(#[trigger] new_unit.bins@[j], possible) by {
            assert(cut_from_some(old_unit.bins@[j], possible));
            if j != i {
                assert(new_unit.bins@[j] == old_unit.bins@[j]);
            } else {
                let m = choose|m: int| 0 <= m < possible.len() && bin_matches(old_unit.bins@[j], #[trigger] possible[m]);
                assert(bin_matches(new_unit.bins@[j], possible[m]));
            }
        }
        assert forall|m: int| 0 <= m < possible.len() implies match #[trigger] possible[m].quantity {
            None => new_unit.available_stock_pieces@[m].quantity is None,
            Some(q) => new_unit.available_stock_pieces@[m].quantity matches Some(a) && count_matching(new_unit.bins@, possible[m]) + a <= q,
        } by {
            lemma_count_update(old_unit.bins@, i, new_unit.bins@[i], possible[m]);
        }
    }

    /// Places the piece in the first bin that takes it with the heuristic, or
    /// else in a new bin.
    pub fn first_fit_with_heuristic(&mut self, cut_piece: &CutPieceWithId, heuristic: &B::Heuristic, rng: &mut StdRng) -> (r: bool)
        requires
            old(self).wf(),
            piece_ok(*cut_piece),
        ensures
            final(self).wf(),
            r == old(self).spec_can_take(*cut_piece),
            final(self).possible_stock_pieces == old(self).possible_stock_pieces,
            final(self).unused_cut_pieces == old(self).unused_cut_pieces,
            final(self).blade_width == old(self).blade_width,
            extends(old(self).bins@, final(self).bins@),
            r ==> placed_ids(final(self).bins@) == placed_ids(old(self).bins@).insert(cut_piece.id),
            r ==> placed_count(final(self).bins@) == placed_count(old(self).bins@) + 1,
            !r ==> final(self).bins@ == old(self).bins@,
    {
        let mut i: usize = 0;
        while i < self.bins.len()
            invariant
                self.possible_stock_pieces == old(self).possible_stock_pieces,
                self.available_stock_pieces == old(self).available_stock_pieces,
                self.unused_cut_pieces == old(self).unused_cut_pieces,
                self.blade_width == old(self).blade_width,
                self.bins@ == old(self).bins@,
                self.wf(),
                piece_ok(*cut_piece),
                i <= self.bins@.len(),
                forall|j: int| 0 <= j < i ==> !(#[trigger] self.bins@[j]).spec_can_place(*cut_piece),
            decreases self.bins@.len() - i,
        {
            let ghost before = *self;
            proof {
                assert(self.bins@[i as int].wf());
            }
            if self.bins[i].insert_cut_piece_with_heuristic(cut_piece, heuristic) {
                proof {
                    Self::lemma_replace_bin(before, *self, i as int);
                    lemma_placed_update(before.bins@, i as int, self.bins@[i as int]);
                    assert(self.bins@ == before.bins@.update(i as int, self.bins@[i as int]));
                    lemma_extends_update(before.bins@, i as int, self.bins@[i as int]);
                    let nb = self.bins@[i as int];
                    let ob = before.bins@[i as int];
                    assert(nb.spec_pieces() =~= ob.spec_pieces().push(nb.spec_pieces().last()));
                    assert(places(nb.spec_pieces().last(), *cut_piece));
                    assert(nb.spec_pieces().last().spec_demanded() == *cut_piece);
                    assert(nb.spec_pieces().last().id == cut_piece.id);
                    lemma_bin_ids_push(ob, nb, nb.spec_pieces().last());
                    lemma_placed_ids_update(before.bins@, i as int, nb);
                    lemma_multiset_cancel(placed_ids(self.bins@), placed_ids(before.bins@), bin_ids(ob), cut_piece.id);
                }
                return true;
            }
            proof {
                assert(self.bins@ =~= before.bins@);
                Self::lemma_same_layout(before, *self);
            }
            i += 1;
        }
        let ghost before = self.bins@;
        let r = self.add_to_new_bin(cut_piece, rng);
        proof {
            if r {
                assert(self.bins@ == before.push(self.bins@.last()));
                lemma_placed_push(before, self.bins@.last());
            }
        }
        r
    }

    /// Places the piece in the first bin that takes it with a heuristic drawn
    /// at random, or else in a new bin.
    pub fn first_fit_random_heuristics(&mut self, cut_piece: &CutPieceWithId, rng: &mut StdRng) -> (r: bool)
        requires
            old(self).wf(),
            piece_ok(*cut_piece),
        ensures
            final(self).wf(),
            r == old(self).spec_can_take(*cut_piece),
            final(self).possible_stock_pieces == old(self).possible_stock_pieces,
            final(self).unused_cut_pieces == old(self).unused_cut_pieces,
            final(self).blade_width == old(self).blade_width,
            extends(old(self).bins@, final(self).bins@),
            r ==> placed_ids(final(self).bins@) == placed_ids(old(self).bins@).insert(cut_piece.id),
            r ==> placed_count(final(self).bins@) == placed_count(old(self).bins@) + 1,
            !r ==> final(self).bins@ == old(self).bins@,
    {
        let mut i: usize = 0;
        while i < self.bins.len()
            invariant
                self.possible_stock_pieces == old(self).possible_stock_pieces,
                self.available_stock_pieces == old(self).available_stock_pieces,
                self.unused_cut_pieces == old(self).unused_cut_pieces,
                self.blade_width == old(self).blade_width,
                self.bins@ == old(self).bins@,
                self.wf(),
                piece_ok(*cut_piece),
                i <= self.bins@.len(),
                forall|j: int| 0 <= j < i ==> !(#[trigger] self.bins@[j]).spec_can_place(*cut_piece),
            decreases self.bins@.len() - i,
        {
            let ghost before = *self;
            proof {
                assert(self.bins@[i as int].wf());
            }
            if self.bins[i].insert_cut_piece_random_heuristic(cut_piece, rng) {
                proof {
                    Self::lemma_replace_bin(before, *self, i as int);
                    lemma_placed_update(before.bins@, i as int, self.bins@[i as int]);
                    assert(self.bins@ == before.bins@.update(i as int, self.bins@[i as int]));
                    lemma_extends_update(before.bins@, i as int, self.bins@[i as int]);
                    let nb = self.bins@[i as int];
                    let ob = before.bins@[i as int];
                    assert(nb.spec_pieces() =~= ob.spec_pieces().push(nb.spec_pieces().last()));
                    assert(places(nb.spec_pieces().last(), *cut_piece));
                    assert(nb.spec_pieces().last().spec_demanded() == *cut_piece);
                    assert(nb.spec_pieces().last().id == cut_piece.id);
                    lemma_bin_ids_push(ob, nb, nb.spec_pieces().last());
                    lemma_placed_ids_update(before.bins@, i as int, nb);
                    lemma_multiset_cancel(placed_ids(self.bins@), placed_ids(before.bins@), bin_ids(ob), cut_piece.id);
                }
                return true;
            }
            proof {
                assert(self.bins@ =~= before.bins@);
                Self::lemma_same_layout(before, *self);
            }
            i += 1;
        }
        let ghost before = self.bins@;
        let r = self.add_to_new_bin(cut_piece, rng);
        proof {
            if r {
                assert(self.bins@ == before.push(self.bins@.last()));
                lemma_placed_push(before, self.bins@.last());
            }
        }
        r
    }

    /// A unit built by first-fit with one heuristic, the pieces taken in order;
    /// those that fit nowhere are set aside.
    pub fn with_heuristic(
        possible_stock_pieces: &Vec<StockPiece>,
        cut_pieces: &Vec<CutPieceWithId>,
        blade_width: usize,
        heuristic: &B::Heuristic,
        rng: &mut StdRng,
    ) -> (r: Self)
        requires
            Self::catalogue_ok(possible_stock_pieces@),
            blade_width <= MAX_DIM,
            forall|i: int| 0 <= i < cut_pieces@.len() ==> piece_ok(#[trigger] cut_pieces@[i]),
        ensures
            r.wf(),
            r.possible_stock_pieces@ == possible_stock_pieces@,
            r.blade_width == blade_width,
            placed_count(r.bins@) + r.unused_cut_pieces@.len() == cut_pieces@.len(),
            placed_ids(r.bins@).add(piece_ids(r.unused_cut_pieces@)) == piece_ids(cut_pieces@),
            unused_unavoidable(possible_stock_pieces@, r.unused_cut_pieces@),
            forall|m: int| 0 <= m < r.unused_cut_pieces@.len() ==> cut_pieces@.contains(#[trigger] r.unused_cut_pieces@[m]),
    {
        let mut unit = Self::empty(possible_stock_pieces, blade_width);
        proof {
            lemma_piece_ids_empty();
            assert(cut_pieces@.subrange(0, 0) =~= Seq::<CutPieceWithId>::empty());
            assert(unit.unused_cut_pieces@ =~= Seq::<CutPieceWithId>::empty());
            assert(placed_ids(unit.bins@) == Multiset::<usize>::empty());
            assert(placed_ids(unit.bins@).add(piece_ids(unit.unused_cut_pieces@)) =~= piece_ids(cut_pieces@.subrange(0, 0)));
        }
        let mut i: usize = 0;
        while i < cut_pieces.len()
            invariant
                i <= cut_pieces@.len(),
                forall|j: int| 0 <= j < cut_pieces@.len() ==> piece_ok(#[trigger] cut_pieces@[j]),
                unit.wf(),
                unit.possible_stock_pieces@ == possible_stock_pieces@,
                unit.blade_width == blade_width,
                placed_count(unit.bins@) + unit.unused_cut_pieces@.len() == i,
                placed_ids(unit.bins@).add(piece_ids(unit.unused_cut_pieces@)) == piece_ids(cut_pieces@.subrange(0, i as int)),
                unused_unavoidable(possible_stock_pieces@, unit.unused_cut_pieces@),
                forall|m: int| 0 <= m < unit.unused_cut_pieces@.len() ==> cut_pieces@.contains(#[trigger] unit.unused_cut_pieces@[m]),
            decreases cut_pieces@.len() - i,
        {
            let ghost start = unit;
            proof {
                assert(cut_pieces@.subrange(0, i + 1) =~= cut_pieces@.subrange(0, i as int).push(cut_pieces@[i as int]));
                lemma_piece_ids_push(cut_pieces@.subrange(0, i as int), cut_pieces@[i as int]);
            }
            if !unit.first_fit_with_heuristic(&cut_pieces[i], heuristic, rng) {
                proof {
                    Self::lemma_cannot_take(start, cut_pieces@[i as int]);
                }
                let ghost before = unit;
                unit.unused_cut_pieces.push(cut_pieces[i]);
                proof {
                    lemma_piece_ids_push(before.unused_cut_pieces@, cut_pieces@[i as int]);
                    assert(placed_ids(unit.bins@).add(piece_ids(unit.unused_cut_pieces@)) =~= piece_ids(
                        cut_pieces@.subrange(0, i + 1),
                    ));
                    assert forall|m: int| 0 <= m < unit.unused_cut_pieces@.len() implies piece_ok(#[trigger] unit.unused_cut_pieces@[m]) by {
                        if m < before.unused_cut_pieces@.len() {
                            assert(unit.unused_cut_pieces@[m] == before.unused_cut_pieces@[m]);
                        }
                    }
                    Self::lemma_same_layout(before, unit);
                    assert(unit.unused_cut_pieces@[unit.unused_cut_pieces@.len() - 1] == cut_pieces@[i as int]);
                }
            }
            proof {
                assert(placed_ids(unit.bins@).add(piece_ids(unit.unused_cut_pieces@)) =~= piece_ids(
                    cut_pieces@.subrange(0, i + 1),
                ));
            }
            i += 1;
        }
        proof {
            assert(cut_pieces@.subrange(0, cut_pieces@.len() as int) =~= cut_pieces@);
        }
        unit
    }

    /// A unit built by first-fit with a heuristic drawn at random for each
    /// insertion.
    pub fn with_random_heuristics(
        possible_stock_pieces: &Vec<StockPiece>,
        cut_pieces: &Vec<CutPieceWithId>,
        blade_width: usize,
        rng: &mut StdRng,
    ) -> (r: Self)
        requires
            Self::catalogue_ok(possible_stock_pieces@),
            blade_width <= MAX_DIM,
            forall|i: int| 0 <= i < cut_pieces@.len() ==> piece_ok(#[trigger] cut_pieces@[i]),
        ensures
            r.wf(),
            r.possible_stock_pieces@ == possible_stock_pieces@,
            r.blade_width == blade_width,
            placed_count(r.bins@) + r.unused_cut_pieces@.len() == cut_pieces@.len(),
            placed_ids(r.bins@).add(piece_ids(r.unused_cut_pieces@)) == piece_ids(cut_pieces@),
            unused_unavoidable(possible_stock_pieces@, r.unused_cut_pieces@),
            forall|m: int| 0 <= m < r.unused_cut_pieces@.len() ==> cut_pieces@.contains(#[trigger] r.unused_cut_pieces@[m]),
    {
        let mut unit = Self::empty(possible_stock_pieces, blade_width);
        proof {
            lemma_piece_ids_empty();
            assert(cut_pieces@.subrange(0, 0) =~= Seq::<CutPieceWithId>::empty());
            assert(unit.unused_cut_pieces@ =~= Seq::<CutPieceWithId>::empty());
            assert(placed_ids(unit.bins@) == Multiset::<usize>::empty());
            assert(placed_ids(unit.bins@).add(piece_ids(unit.unused_cut_pieces@)) =~= piece_ids(cut_pieces@.subrange(0, 0)));
        }
        let mut i: usize = 0;
        while i < cut_pieces.len()
            invariant
                i <= cut_pieces@.len(),
                forall|j: int| 0 <= j < cut_pieces@.len() ==> piece_ok(#[trigger] cut_pieces@[j]),
                unit.wf(),
                unit.possible_stock_pieces@ == possible_stock_pieces@,
                unit.blade_width == blade_width,
                placed_count(unit.bins@) + unit.unused_cut_pieces@.len() == i,
                placed_ids(unit.bins@).add(piece_ids(unit.unused_cut_pieces@)) == piece_ids(cut_pieces@.subrange(0, i as int)),
                unused_unavoidable(possible_stock_pieces@, unit.unused_cut_pieces@),
                forall|m: int| 0 <= m < unit.unused_cut_pieces@.len() ==> cut_pieces@.contains(#[trigger] unit.unused_cut_pieces@[m]),
            decreases cut_pieces@.len() - i,
        {
            let ghost start = unit;
            proof {
                assert(cut_pieces@.subrange(0, i + 1) =~= cut_pieces@.subrange(0, i as int).push(cut_pieces@[i as int]));
                lemma_piece_ids_push(cut_pieces@.subrange(0, i as int), cut_pieces@[i as int]);
            }
            if !unit.first_fit_random_heuristics(&cut_pieces[i], rng) {
                proof {
                    Self::lemma_cannot_take(start, cut_pieces@[i as int]);
                }
                let ghost before = unit;
                unit.unused_cut_pieces.push(cut_pieces[i]);
                proof {
                    lemma_piece_ids_push(before.unused_cut_pieces@, cut_pieces@[i as int]);
                    assert(placed_ids(unit.bins@).add(piece_ids(unit.unused_cut_pieces@)) =~= piece_ids(
                        cut_pieces@.subrange(0, i + 1),
                    ));
                    assert forall|m: int| 0 <= m < unit.unused_cut_pieces@.len() implies piece_ok(#[trigger] unit.unused_cut_pieces@[m]) by {
                        if m < before.unused_cut_pieces@.len() {
                            assert(unit.unused_cut_pieces@[m] == before.unused_cut_pieces@[m]);
                        }
                    }
                    Self::lemma_same_layout(before, unit);
                    assert(unit.unused_cut_pieces@[unit.unused_cut_pieces@.len() - 1] == cut_pieces@[i as int]);
                }
            }
            proof {
                assert(placed_ids(unit.bins@).add(piece_ids(unit.unused_cut_pieces@)) =~= piece_ids(
                    cut_pieces@.subrange(0, i + 1),
                ));
            }
            i += 1;
        }
        proof {
            assert(cut_pieces@.subrange(0, cut_pieces@.len() as int) =~= cut_pieces@);
        }
        unit
    }
}

pub proof fn lemma_count_same_keys<B: Bin>(a: Seq<B>, b: Seq<B>, sp: StockPiece)
    requires
        a.len() == b.len(),
        forall|i: int| 0 <= i < a.len() ==> same_keys(#[trigger] a[i], b[i]),
    ensures
        count_matching(a, sp) == count_matching(b, sp),
    decreases a.len(),
{
    if a.len() > 0 {
        lemma_count_same_keys(a.drop_last(), b.drop_last(), sp);
    }
}

pub proof fn lemma_count_remove<B: Bin>(s: Seq<B>, i: int, sp: StockPiece)
    requires
        0 <= i < s.len(),
    ensures
        count_matching(s.remove(i), sp) + (if bin_matches(s[i], sp) { 1nat } else { 0nat }) == count_matching(s, sp),
{
    let a = s.subrange(0, i);
    let c = s.subrange(i + 1, s.len() as int);
    assert(s.remove(i) =~= a + c);
    assert(s =~= a.push(s[i]) + c);
    lemma_count_concat(a, c, sp);
    lemma_count_concat(a.push(s[i]), c, sp);
    lemma_count_push(a, s[i], sp);
}

pub proof fn lemma_count_insert<B: Bin>(s: Seq<B>, i: int, b: B, sp: StockPiece)
    requires
        0 <= i <= s.len(),
    ensures
        count_matching(s.insert(i, b), sp) == count_matching(s, sp) + (if bin_matches(b, sp) { 1nat } else { 0nat }),
{
    let a = s.subrange(0, i);
    let c = s.subrange(i, s.len() as int);
    assert(s.insert(i, b) =~= a.push(b) + c);
    assert(s =~= a + c);
    lemma_count_concat(a, c, sp);
    lemma_count_concat(a.push(b), c, sp);
    lemma_count_push(a, b, sp);
}


/// Taking an element out and putting it back elsewhere keeps the multiset.
pub proof fn lemma_to_multiset_remove_insert<A>(s: Seq<A>, i: int, p: int, x: A)
    requires
        0 <= i < s.len(),
        s[i] == x,
        0 <= p <= s.len() - 1,
    ensures
        s.remove(i).insert(p, x).to_multiset() == s.to_multiset(),
{
    vstd::seq_lib::to_multiset_remove(s, i);
    vstd::seq_lib::to_multiset_insert(s.remove(i), p, x);
    s.to_multiset_ensures();
    assert(s.contains(x));
    assert(s.to_multiset().count(x) > 0);
    assert(s.to_multiset().remove(x).insert(x) =~= s.to_multiset());
}

/// A bin that the unit may hold: valid, with the kerf, cut from the catalogue.
pub open spec fn good_bin<B: Bin>(b: B, blade: usize, possible: Seq<StockPiece>) -> bool {
    b.wf() && b.spec_blade() == blade && cut_from_some(b, possible)
}

pub open spec fn all_good<B: Bin>(s: Seq<B>, blade: usize, possible: Seq<StockPiece>) -> bool {
    forall|i: int| 0 <= i < s.len() ==> good_bin(#[trigger] s[i], blade, possible)
}

/// Sets aside the pieces of a bin that is dropped, as they were demanded.
fn set_aside_pieces<B: Bin>(bin: &B, removed: &mut Vec<CutPieceWithId>)
    requires
        bin.wf(),
    ensures
        (forall|m: int| 0 <= m < old(removed)@.len() ==> piece_ok(#[trigger] old(removed)@[m])) ==> forall|m: int|
            0 <= m < final(removed)@.len() ==> piece_ok(#[trigger] final(removed)@[m]),
        final(removed)@.len() == old(removed)@.len() + bin.spec_pieces().len(),
        final(removed)@.subrange(0, old(removed)@.len() as int) == old(removed)@,
        forall|k: int|
            0 <= k < bin.spec_pieces().len() ==> final(removed)@[old(removed)@.len() + k]
                == (#[trigger] bin.spec_pieces()[k]).spec_demanded(),
{
    let pieces = bin.cut_pieces();
    let ghost start = removed@;
    proof {
        bin.lemma_pieces_inside();
    }
    let mut k: usize = 0;
    while k < pieces.len()
        invariant
            pieces@ == bin.spec_pieces(),
            k <= pieces@.len(),
            removed@.len() == start.len() + k,
            removed@.subrange(0, start.len() as int) == start,
            forall|m: int| 0 <= m < k ==> removed@[start.len() + m] == (#[trigger] pieces@[m]).spec_demanded(),
            forall|m: int| 0 <= m < pieces@.len() ==> piece_ok((#[trigger] pieces@[m]).spec_demanded()),
            (forall|m: int| 0 <= m < start.len() ==> piece_ok(#[trigger] start[m])) ==> forall|m: int|
                0 <= m < removed@.len() ==> piece_ok(#[trigger] removed@[m]),
        decreases pieces@.len() - k,
    {
        let ghost before = removed@;
        removed.push(pieces[k].to_cut_piece());
        proof {
            assert(removed@.subrange(0, start.len() as int) =~= before.subrange(0, start.len() as int));
        }
        k += 1;
    }
}

/// Keeps a bin inherited by a child if the budget still has its stock and it
/// shares no piece with the injected bins; otherwise sets its pieces aside
/// (all of them, or those not injected).
fn sift_bin<B: Bin>(
    bin: B,
    available: &mut Vec<StockPiece>,
    injected: &Vec<usize>,
    removed: &mut Vec<CutPieceWithId>,
    Ghost(possible): Ghost<Seq<StockPiece>>,
    Ghost(acc): Ghost<Seq<B>>,
) -> (r: Option<B>)
    requires
        bin.wf(),
        cut_from_some(bin, possible),
        keys_distinct(possible),
        budget_ok(possible, old(available)@, acc),
        forall|m: int| 0 <= m < old(removed)@.len() ==> piece_ok(#[trigger] old(removed)@[m]),
    ensures
        forall|m: int| 0 <= m < final(removed)@.len() ==> piece_ok(#[trigger] final(removed)@[m]),
        match r {
            Some(b) => b.wf() && same_keys(b, bin) && b.spec_blade() == bin.spec_blade() && budget_ok(
                possible,
                final(available)@,
                acc.push(b),
            ),
            None => budget_ok(possible, final(available)@, acc),
        },
{
    let mut bin = bin;
    match find_available(available, &bin, true) {
        Some(k) => {
            if bin.remove_cut_pieces(injected) > 0 {
                set_aside_pieces(&bin, removed);
                None
            } else {
                let ghost before = available@;
                let mut sp = available[k];
                sp.dec_quantity();
                available.set(k, sp);
                proof {
                    lemma_budget_take(possible, before, acc, bin, k as int, available@);
                }
                Some(bin)
            }
        },
        None => {
            set_aside_pieces(&bin, removed);
            None
        },
    }
}

impl<B: Bin> OptimizerUnit<B> {
    /// A copy of this unit.
    pub fn copy_unit(&self) -> (r: Self)
        requires
            self.wf(),
        ensures
            r.wf(),
            r.possible_stock_pieces@ == self.possible_stock_pieces@,
            r.available_stock_pieces@ == self.available_stock_pieces@,
            r.unused_cut_pieces@ == self.unused_cut_pieces@,
            r.blade_width == self.blade_width,
            r.bins@.len() == self.bins@.len(),
            forall|i: int| 0 <= i < r.bins@.len() ==> (#[trigger] r.bins@[i]).spec_pieces() == self.bins@[i].spec_pieces()
                && same_keys(r.bins@[i], self.bins@[i]),
    {
        let mut bins: Vec<B> = Vec::new();
        let mut i: usize = 0;
        while i < self.bins.len()
            invariant
                self.wf(),
                i <= self.bins@.len(),
                bins@.len() == i,
                forall|j: int| 0 <= j < i ==> (#[trigger] bins@[j]).spec_pieces() == self.bins@[j].spec_pieces()
                    && same_keys(bins@[j], self.bins@[j]) && good_bin(bins@[j], self.blade_width, self.possible_stock_pieces@),
            decreases self.bins@.len() - i,
        {
            let b = self.bins[i].copy();
            proof {
                assert(good_bin(self.bins@[i as int], self.blade_width, self.possible_stock_pieces@));
                let k = choose|k: int| 0 <= k < self.possible_stock_pieces@.len() && bin_matches(self.bins@[i as int], #[trigger] self.possible_stock_pieces@[k]);
                assert(bin_matches(b, self.possible_stock_pieces@[k]));
            }
            bins.push(b);
            i += 1;
        }
        let r = OptimizerUnit {
            bins,
            possible_stock_pieces: crate::geometry::copy_vec(&self.possible_stock_pieces),
            available_stock_pieces: crate::geometry::copy_vec(&self.available_stock_pieces),
            unused_cut_pieces: crate::geometry::copy_vec(&self.unused_cut_pieces),
            blade_width: self.blade_width,
        };
        proof {
            assert forall|m: int| 0 <= m < r.possible_stock_pieces@.len() implies match #[trigger] r.possible_stock_pieces@[m].quantity {
                None => r.available_stock_pieces@[m].quantity is None,
                Some(q) => r.available_stock_pieces@[m].quantity matches Some(a) && count_matching(r.bins@, r.possible_stock_pieces@[m]) + a <= q,
            } by {
                lemma_count_same_keys(r.bins@, self.bins@, r.possible_stock_pieces@[m]);
            }
            assert forall|j: int| 0 <= j < r.bins@.len() implies (#[trigger] r.bins@[j]).wf() && r.bins@[j].spec_blade() == r.blade_width by {
                assert(good_bin(r.bins@[j], self.blade_width, self.possible_stock_pieces@));
            }
            assert forall|j: int| 0 <= j < r.bins@.len() implies cut_from_some(#[trigger] r.bins@[j], r.possible_stock_pieces@) by {
                assert(good_bin(r.bins@[j], self.blade_width, self.possible_stock_pieces@));
            }
        }
        r
    }

    /// The budget once the bins `other.bins[start..end]` are drawn from the
    /// whole catalogue.
    fn draw_for_span(&self, other: &Self, start: usize, end: usize) -> (r: Vec<StockPiece>)
        requires
            self.wf(),
            other.wf(),
            self.possible_stock_pieces@ == other.possible_stock_pieces@,
            start < end <= other.bins@.len(),
        ensures
            budget_ok(self.possible_stock_pieces@, r@, other.bins@.subrange(start as int, end as int)),
    {
        let ghost possible = self.possible_stock_pieces@;
        let mut available = crate::geometry::copy_vec(&self.possible_stock_pieces);
        let mut j: usize = start;
        while j < end
            invariant
                self.wf(),
                other.wf(),
                possible == self.possible_stock_pieces@,
                possible == other.possible_stock_pieces@,
                start <= j <= end,
                end <= other.bins@.len(),
                available@.len() == possible.len(),
                forall|k: int| 0 <= k < possible.len() ==> same_key(#[trigger] available@[k], possible[k]),
                forall|k: int| 0 <= k < possible.len() ==> match #[trigger] possible[k].quantity {
                    None => available@[k].quantity is None,
                    Some(q) => available@[k].quantity == Some((q - count_matching(other.bins@.subrange(start as int, j as int), possible[k])) as usize)
                        && count_matching(other.bins@.subrange(start as int, j as int), possible[k]) <= q,
                },
            decreases end - j,
        {
            let ghost sub = other.bins@.subrange(start as int, j as int);
            let ghost sub1 = other.bins@.subrange(start as int, j + 1);
            proof {
                assert(sub1 =~= sub.push(other.bins@[j as int]));
                assert(good_bin(other.bins@[j as int], other.blade_width, possible));
            }
            match find_available(&available, &other.bins[j], false) {
                Some(k) => {
                    let ghost before = available@;
                    proof {
                        assert(same_key(before[k as int], possible[k as int]));
                        lemma_count_push(sub, other.bins@[j as int], possible[k as int]);
                        lemma_count_subrange(other.bins@, start as int, j + 1, possible[k as int]);
                        if let Some(q) = possible[k as int].quantity {
                            assert(count_matching(other.bins@, possible[k as int]) <= q);
                        }
                    }
                    let mut sp = available[k];
                    sp.dec_quantity();
                    available.set(k, sp);
                    proof {
                        assert forall|m: int| 0 <= m < possible.len() implies same_key(#[trigger] available@[m], possible[m]) by {
                            assert(same_key(before[m], possible[m]));
                        }
                        assert forall|m: int| 0 <= m < possible.len() implies match #[trigger] possible[m].quantity {
                            None => available@[m].quantity is None,
                            Some(q) => available@[m].quantity == Some((q - count_matching(sub1, possible[m])) as usize)
                                && count_matching(sub1, possible[m]) <= q,
                        } by {
                            lemma_count_push(sub, other.bins@[j as int], possible[m]);
                            lemma_count_subrange(other.bins@, start as int, j + 1, possible[m]);
                            if m != k as int {
                                if m < k as int {
                                    assert(!same_key(possible[m], possible[k as int]));
                                } else {
                                    assert(!same_key(possible[k as int], possible[m]));
                                }
                                assert(!bin_matches(other.bins@[j as int], possible[m]));
                            }
                        }
                    }
                },
                None => {
                    proof {
                        let m = choose|m: int| 0 <= m < possible.len() && bin_matches(other.bins@[j as int], #[trigger] possible[m]);
                        assert(same_key(available@[m], possible[m]));
                        assert(bin_matches(other.bins@[j as int], available@[m]));
                    }
                },
            }
            j += 1;
        }
        available
    }
}

/// The ids of the pieces in `bins[start..end]`.
fn injected_ids<B: Bin>(bins: &Vec<B>, start: usize, end: usize) -> (r: Vec<usize>)
    requires
        start <= end <= bins@.len(),
{
    let mut ids: Vec<usize> = Vec::new();
    let mut j: usize = start;
    while j < end
        invariant
            start <= j <= end,
            end <= bins@.len(),
        decreases end - j,
    {
        let pieces = bins[j].cut_pieces();
        let mut k: usize = 0;
        while k < pieces.len()
            invariant
                k <= pieces@.len(),
            decreases pieces@.len() - k,
        {
            ids.push(pieces[k].id);
            k += 1;
        }
        j += 1;
    }
    ids
}

impl<B: Bin> OptimizerUnit<B> {
    /// Drops the bins that hold no piece.
    pub fn drop_empty_bins(&mut self)
        requires
            old(self).wf(),
        ensures
            final(self).wf(),
            final(self).bins@ == old(self).bins@.filter(holds_pieces()),
            forall|i: int| 0 <= i < final(self).bins@.len() ==> (#[trigger] final(self).bins@[i]).spec_pieces().len() > 0,
            final(self).possible_stock_pieces == old(self).possible_stock_pieces,
            final(self).available_stock_pieces == old(self).available_stock_pieces,
            final(self).unused_cut_pieces == old(self).unused_cut_pieces,
            final(self).blade_width == old(self).blade_width,
    {
        let ghost start = *self;
        let ghost possible = self.possible_stock_pieces@;
        let ghost n = self.bins@.len() as int;
        let ghost f = holds_pieces::<B>();
        let mut i: usize = self.bins.len();
        while i > 0
            invariant
                0 <= i <= n,
                n == start.bins@.len(),
                f == holds_pieces::<B>(),
                self.bins@ == start.bins@.subrange(0, i as int) + start.bins@.subrange(i as int, n).filter(f),
                self.possible_stock_pieces == start.possible_stock_pieces,
                self.available_stock_pieces == start.available_stock_pieces,
                self.unused_cut_pieces == start.unused_cut_pieces,
                self.blade_width == start.blade_width,
                possible == start.possible_stock_pieces@,
                start.wf(),
                all_good(self.bins@, self.blade_width, possible),
                forall|m: int| 0 <= m < possible.len() ==> count_matching(self.bins@, #[trigger] possible[m])
                    <= count_matching(start.bins@, possible[m]),
            decreases i,
        {
            i -= 1;
            let ghost before = self.bins@;
            proof {
                assert(start.bins@.subrange(i as int, n) =~= seq![start.bins@[i as int]] + start.bins@.subrange(i + 1, n));
                start.bins@.subrange(i + 1, n).lemma_filter_prepend(start.bins@[i as int], f);
                assert(before =~= start.bins@.subrange(0, i as int) + (seq![start.bins@[i as int]] + start.bins@.subrange(i + 1, n).filter(f)));
                assert(before[i as int] == start.bins@[i as int]);
            }
            if self.bins[i].cut_pieces().len() == 0 {
                self.bins.remove(i);
                proof {
                    assert(!f(start.bins@[i as int]));
                    assert(start.bins@.subrange(i as int, n).filter(f) == Seq::<B>::empty() + start.bins@.subrange(i + 1, n).filter(f));
                    assert(self.bins@ =~= start.bins@.subrange(0, i as int) + start.bins@.subrange(i as int, n).filter(f));
                    assert forall|k: int| 0 <= k < self.bins@.len() implies good_bin(#[trigger] self.bins@[k], self.blade_width, possible) by {
                        if k < i {
                            assert(self.bins@[k] == before[k]);
                        } else {
                            assert(self.bins@[k] == before[k + 1]);
                        }
                    }
                    assert forall|m: int| 0 <= m < possible.len() implies count_matching(self.bins@, #[trigger] possible[m])
                        <= count_matching(start.bins@, possible[m]) by {
                        lemma_count_remove(before, i as int, possible[m]);
                    }
                }
            } else {
                proof {
                    assert(f(start.bins@[i as int]));
                    assert(start.bins@.subrange(i as int, n).filter(f) == seq![start.bins@[i as int]] + start.bins@.subrange(i + 1, n).filter(f));
                    assert(self.bins@ =~= start.bins@.subrange(0, i as int) + start.bins@.subrange(i as int, n).filter(f));
                }
            }
        }
        proof {
            assert(start.bins@.subrange(0, n) =~= start.bins@);
            assert(self.bins@ =~= start.bins@.filter(f));
            assert forall|k: int| 0 <= k < self.bins@.len() implies (#[trigger] self.bins@[k]).spec_pieces().len() > 0 by {
                start.bins@.lemma_filter_pred(f, k);
            }
            lemma_budget_fewer(possible, self.available_stock_pieces@, start.bins@, self.bins@);
            assert forall|j: int| 0 <= j < self.bins@.len() implies (#[trigger] self.bins@[j]).wf() && self.bins@[j].spec_blade() == self.blade_width by {
                assert(good_bin(self.bins@[j], self.blade_width, possible));
            }
            assert forall|j: int| 0 <= j < self.bins@.len() implies cut_from_some(#[trigger] self.bins@[j], possible) by {
                assert(good_bin(self.bins@[j], self.blade_width, possible));
            }
        }
    }

    /// Breeds a child of this unit and `other`: `other.bins[start..end]` is
    /// injected at a random place among this unit's bins, this unit's bins that
    /// the budget no longer allows or that share a piece with the injected ones
    /// are dropped, and their pieces and both parents' unplaced pieces are
    /// placed again by first-fit. When neither parent has two bins, or `other`
    /// has none, the child is a copy of this unit.
    pub fn crossover(&self, other: &Self, rng: &mut StdRng) -> (r: Self)
        requires
            self.wf(),
            other.wf(),
            self.possible_stock_pieces@ == other.possible_stock_pieces@,
            self.blade_width == other.blade_width,
        ensures
            r.wf(),
            r.possible_stock_pieces@ == self.possible_stock_pieces@,
            r.blade_width == self.blade_width,
            forall|i: int| 0 <= i < r.bins@.len() && !(self.bins@.len() < 2 && other.bins@.len() < 2) && other.bins@.len() > 0
                ==> (#[trigger] r.bins@[i]).spec_pieces().len() > 0,
            !((self.bins@.len() < 2 && other.bins@.len() < 2) || other.bins@.len() == 0) ==> exists|s: int, e: int|
                0 <= s < e <= other.bins@.len() && #[trigger] holds_span(r.bins@, other.bins@, s, e),
            !((self.bins@.len() < 2 && other.bins@.len() < 2) || other.bins@.len() == 0) ==> unused_unavoidable(
                r.possible_stock_pieces@,
                r.unused_cut_pieces@,
            ),
            (self.bins@.len() < 2 && other.bins@.len() < 2) || other.bins@.len() == 0 ==> r.available_stock_pieces@
                == self.available_stock_pieces@,
            (self.bins@.len() < 2 && other.bins@.len() < 2) || other.bins@.len() == 0 ==> r.bins@.len() == self.bins@.len()
                && r.unused_cut_pieces@ == self.unused_cut_pieces@ && forall|i: int| 0 <= i < r.bins@.len()
                ==> (#[trigger] r.bins@[i]).spec_pieces() == self.bins@[i].spec_pieces() && same_keys(r.bins@[i], self.bins@[i]),
    {
        if (self.bins.len() < 2 && other.bins.len() < 2) || other.bins.len() == 0 {
            return self.copy_unit();
        }
        let ghost possible = self.possible_stock_pieces@;
        let blade = self.blade_width;
        let cross_dest = gen_range(rng, 0, self.bins.len());
        let cross_src_start = gen_range(rng, 0, other.bins.len() - 1);
        let cross_src_end = gen_range(rng, cross_src_start + 1, other.bins.len());
        let ghost span = other.bins@.subrange(cross_src_start as int, cross_src_end as int);
        let mut available = self.draw_for_span(other, cross_src_start, cross_src_end);
        let injected = injected_ids(&other.bins, cross_src_start, cross_src_end);
        let mut removed: Vec<CutPieceWithId> = Vec::new();
        let mut kept_suffix: Vec<B> = Vec::new();
        let mut i: usize = self.bins.len();
        while i > cross_dest
            invariant
                self.wf(),
                possible == self.possible_stock_pieces@,
                blade == self.blade_width,
                cross_dest <= i <= self.bins@.len(),
                budget_ok(possible, available@, span + kept_suffix@),
                all_good(kept_suffix@, blade, possible),
                forall|m: int| 0 <= m < removed@.len() ==> piece_ok(#[trigger] removed@[m]),
            decreases i,
        {
            i -= 1;
            proof {
                assert(good_bin(self.bins@[i as int], blade, possible));
            }
            let b = self.bins[i].copy();
            proof {
                let k = choose|k: int| 0 <= k < possible.len() && bin_matches(self.bins@[i as int], #[trigger] possible[k]);
                assert(bin_matches(b, possible[k]));
            }
            let ghost acc = span + kept_suffix@;
            match sift_bin(b, &mut available, &injected, &mut removed, Ghost(possible), Ghost(acc)) {
                Some(b2) => {
                    proof {
                        let k = choose|k: int| 0 <= k < possible.len() && bin_matches(b, #[trigger] possible[k]);
                        assert(bin_matches(b2, possible[k]));
                    }
                    kept_suffix.push(b2);
                    proof {
                        assert(span + kept_suffix@ =~= acc.push(b2));
                    }
                },
                None => {},
            }
        }
        let mut kept_prefix: Vec<B> = Vec::new();
        i = cross_dest;
        while i > 0
            invariant
                self.wf(),
                possible == self.possible_stock_pieces@,
                blade == self.blade_width,
                i <= cross_dest <= self.bins@.len(),
                budget_ok(possible, available@, span + kept_suffix@ + kept_prefix@),
                all_good(kept_suffix@, blade, possible),
                all_good(kept_prefix@, blade, possible),
                forall|m: int| 0 <= m < removed@.len() ==> piece_ok(#[trigger] removed@[m]),
            decreases i,
        {
            i -= 1;
            proof {
                assert(good_bin(self.bins@[i as int], blade, possible));
            }
            let b = self.bins[i].copy();
            proof {
                let k = choose|k: int| 0 <= k < possible.len() && bin_matches(self.bins@[i as int], #[trigger] possible[k]);
                assert(bin_matches(b, possible[k]));
            }
            let ghost acc = span + kept_suffix@ + kept_prefix@;
            match sift_bin(b, &mut available, &injected, &mut removed, Ghost(possible), Ghost(acc)) {
                Some(b2) => {
                    proof {
                        let k = choose|k: int| 0 <= k < possible.len() && bin_matches(b, #[trigger] possible[k]);
                        assert(bin_matches(b2, possible[k]));
                    }
                    kept_prefix.push(b2);
                    proof {
                        assert(span + kept_suffix@ + kept_prefix@ =~= acc.push(b2));
                    }
                },
                None => {},
            }
        }
        let ghost pre = kept_prefix@;
        let ghost suf = kept_suffix@;
        let mut bins: Vec<B> = Vec::new();
        while kept_prefix.len() > 0
            invariant
                bins@.len() + kept_prefix@.len() == pre.len(),
                all_good(kept_prefix@, blade, possible),
                all_good(bins@, blade, possible),
                forall|m: int| 0 <= m < possible.len() ==> count_matching(bins@, #[trigger] possible[m])
                    + count_matching(kept_prefix@, possible[m]) == count_matching(pre, possible[m]),
            decreases kept_prefix@.len(),
        {
            let ghost before = bins@;
            let ghost rest = kept_prefix@;
            match kept_prefix.pop() {
                Some(b) => {
                    proof {
                        assert(good_bin(rest[rest.len() - 1], blade, possible));
                    }
                    bins.push(b);
                    proof {
                        assert forall|m: int| 0 <= m < possible.len() implies count_matching(bins@, #[trigger] possible[m])
                            + count_matching(kept_prefix@, possible[m]) == count_matching(pre, possible[m]) by {
                            lemma_count_push(before, b, possible[m]);
                            assert(kept_prefix@ == rest.drop_last());
                        }
                    }
                },
                None => {},
            }
        }
        let mut j: usize = cross_src_start;
        let ghost pre_len = bins@.len() as int;
        while j < cross_src_end
            invariant
                pre_len >= 0,
                bins@.len() == pre_len + (j - cross_src_start),
                forall|t: int|
                    cross_src_start <= t < j ==> same_keys(#[trigger] bins@[pre_len + t - cross_src_start], other.bins@[t])
                        && bins@[pre_len + t - cross_src_start].spec_pieces() == other.bins@[t].spec_pieces(),
                other.wf(),
                possible == other.possible_stock_pieces@,
                blade == other.blade_width,
                cross_src_start <= j <= cross_src_end <= other.bins@.len(),
                all_good(bins@, blade, possible),
                forall|m: int| 0 <= m < possible.len() ==> count_matching(bins@, #[trigger] possible[m])
                    == count_matching(pre, possible[m]) + count_matching(other.bins@.subrange(cross_src_start as int, j as int), possible[m]),
            decreases cross_src_end - j,
        {
            proof {
                assert(good_bin(other.bins@[j as int], blade, possible));
            }
            let b = other.bins[j].copy();
            let ghost before = bins@;
            proof {
                let k = choose|k: int| 0 <= k < possible.len() && bin_matches(other.bins@[j as int], #[trigger] possible[k]);
                assert(bin_matches(b, possible[k]));
            }
            let ghost gb = b;
            bins.push(b);
            proof {
                assert(bins@ == before.push(gb));
                assert(before.len() == pre_len + (j - cross_src_start));
                assert(same_keys(gb, other.bins@[j as int]) && gb.spec_pieces() == other.bins@[j as int].spec_pieces());
                assert forall|t: int|
                    cross_src_start <= t < j + 1 implies same_keys(#[trigger] bins@[pre_len + t - cross_src_start], other.bins@[t])
                        && bins@[pre_len + t - cross_src_start].spec_pieces() == other.bins@[t].spec_pieces() by {
                    if t < j {
                        assert(before.push(gb)[pre_len + t - cross_src_start] == before[pre_len + t - cross_src_start]);
                    } else {
                        assert(bins@[pre_len + t - cross_src_start] == gb);
                    }
                }
                assert forall|m: int| 0 <= m < possible.len() implies count_matching(bins@, #[trigger] possible[m])
                    == count_matching(pre, possible[m]) + count_matching(other.bins@.subrange(cross_src_start as int, j + 1), possible[m]) by {
                    lemma_count_push(before, b, possible[m]);
                    assert(other.bins@.subrange(cross_src_start as int, j + 1) =~= other.bins@.subrange(cross_src_start as int, j as int).push(other.bins@[j as int]));
                    lemma_count_push(other.bins@.subrange(cross_src_start as int, j as int), other.bins@[j as int], possible[m]);
                }
            }
            j += 1;
        }
        while kept_suffix.len() > 0
            invariant
                pre_len >= 0,
                bins@.len() >= pre_len + (cross_src_end - cross_src_start),
                cross_src_end <= other.bins@.len(),
                forall|t: int|
                    cross_src_start <= t < cross_src_end ==> same_keys(#[trigger] bins@[pre_len + t - cross_src_start], other.bins@[t])
                        && bins@[pre_len + t - cross_src_start].spec_pieces() == other.bins@[t].spec_pieces(),
                all_good(kept_suffix@, blade, possible),
                all_good(bins@, blade, possible),
                forall|m: int| 0 <= m < possible.len() ==> count_matching(bins@, #[trigger] possible[m])
                    + count_matching(kept_suffix@, possible[m]) == count_matching(pre, possible[m])
                    + count_matching(span, possible[m]) + count_matching(suf, possible[m]),
            decreases kept_suffix@.len(),
        {
            let ghost before = bins@;
            let ghost rest = kept_suffix@;
            match kept_suffix.pop() {
                Some(b) => {
                    proof {
                        assert(good_bin(rest[rest.len() - 1], blade, possible));
                    }
                    let ghost gb = b;
                    bins.push(b);
                    proof {
                        assert(bins@ == before.push(gb));
                        assert forall|t: int|
                            cross_src_start <= t < cross_src_end implies same_keys(#[trigger] bins@[pre_len + t - cross_src_start], other.bins@[t])
                                && bins@[pre_len + t - cross_src_start].spec_pieces() == other.bins@[t].spec_pieces() by {
                            assert(before.push(gb)[pre_len + t - cross_src_start] == before[pre_len + t - cross_src_start]);
                        }
                        assert forall|m: int| 0 <= m < possible.len() implies count_matching(bins@, #[trigger] possible[m])
                            + count_matching(kept_suffix@, possible[m]) == count_matching(pre, possible[m])
                            + count_matching(span, possible[m]) + count_matching(suf, possible[m]) by {
                            lemma_count_push(before, b, possible[m]);
                            assert(kept_suffix@ == rest.drop_last());
                        }
                    }
                },
                None => {},
            }
        }
        let mut unit = OptimizerUnit {
            bins,
            possible_stock_pieces: crate::geometry::copy_vec(&self.possible_stock_pieces),
            available_stock_pieces: available,
            unused_cut_pieces: Vec::new(),
            blade_width: blade,
        };
        proof {
            assert forall|m: int| 0 <= m < possible.len() implies count_matching(unit.bins@, #[trigger] possible[m])
                <= count_matching(span + suf + pre, possible[m]) by {
                lemma_count_concat(span, suf, possible[m]);
                lemma_count_concat(span + suf, pre, possible[m]);
            }
            lemma_budget_fewer(possible, unit.available_stock_pieces@, span + suf + pre, unit.bins@);
            assert forall|k: int| 0 <= k < unit.bins@.len() implies (#[trigger] unit.bins@[k]).wf() && unit.bins@[k].spec_blade() == unit.blade_width by {
                assert(good_bin(unit.bins@[k], blade, possible));
            }
            assert forall|k: int| 0 <= k < unit.bins@.len() implies cut_from_some(#[trigger] unit.bins@[k], unit.possible_stock_pieces@) by {
                assert(good_bin(unit.bins@[k], blade, possible));
            }
        }
        let ghost assembled = unit.bins@;
        unit.place_again(&removed, rng);
        let ghost after1 = unit.bins@;
        unit.place_again(&self.unused_cut_pieces, rng);
        let ghost after2 = unit.bins@;
        unit.place_again(&other.unused_cut_pieces, rng);
        let ghost mid = unit.bins@;
        proof {
            lemma_extends_trans(assembled, after1, after2);
            lemma_extends_trans(assembled, after2, mid);
        }
        unit.drop_empty_bins();
        proof {
            let f = holds_pieces::<B>();
            assert forall|t: int|
                cross_src_start <= t < cross_src_end && (#[trigger] other.bins@[t]).spec_pieces().len() > 0 implies holds_bin(
                    unit.bins@,
                    other.bins@[t],
                ) by {
                let q = pre_len + t - cross_src_start;
                let ob = other.bins@[t];
                assert(same_keys(assembled[q], ob) && assembled[q].spec_pieces() == ob.spec_pieces());
                let x = mid[q];
                assert(same_keys(x, assembled[q]));
                assert(same_keys(x, ob));
                assert(x.spec_pieces().subrange(0, ob.spec_pieces().len() as int) == ob.spec_pieces());
                assert(f(x));
                assert(mid.contains(x));
                mid.lemma_filter_contains(f, q);
                assert(unit.bins@ == mid.filter(f));
                let q2 = choose|q2: int| 0 <= q2 < unit.bins@.len() && unit.bins@[q2] == x;
                assert(unit.bins@[q2] == x);
                assert(same_keys(unit.bins@[q2], ob));
                assert(unit.bins@[q2].spec_pieces().subrange(0, ob.spec_pieces().len() as int) == ob.spec_pieces());
            }
            assert(holds_span(unit.bins@, other.bins@, cross_src_start as int, cross_src_end as int));
        }
        unit
    }

    /// Places each piece by first-fit with random heuristics; those that fit
    /// nowhere join the unplaced pieces.
    pub fn place_again(&mut self, cut_pieces: &Vec<CutPieceWithId>, rng: &mut StdRng)
        requires
            old(self).wf(),
            forall|i: int| 0 <= i < cut_pieces@.len() ==> piece_ok(#[trigger] cut_pieces@[i]),
        ensures
            final(self).wf(),
            final(self).possible_stock_pieces == old(self).possible_stock_pieces,
            final(self).blade_width == old(self).blade_width,
            unused_unavoidable(old(self).possible_stock_pieces@, old(self).unused_cut_pieces@)
                ==> unused_unavoidable(final(self).possible_stock_pieces@, final(self).unused_cut_pieces@),
            extends(old(self).bins@, final(self).bins@),
            placed_count(final(self).bins@) + final(self).unused_cut_pieces@.len() == placed_count(old(self).bins@)
                + old(self).unused_cut_pieces@.len() + cut_pieces@.len(),
            final(self).unused_cut_pieces@.subrange(0, old(self).unused_cut_pieces@.len() as int) == old(self).unused_cut_pieces@,
            forall|m: int|
                old(self).unused_cut_pieces@.len() <= m < final(self).unused_cut_pieces@.len() ==> cut_pieces@.contains(
                    #[trigger] final(self).unused_cut_pieces@[m],
                ),
    {
        proof {
            lemma_extends_refl(self.bins@);
        }
        let mut i: usize = 0;
        while i < cut_pieces.len()
            invariant
                i <= cut_pieces@.len(),
                forall|j: int| 0 <= j < cut_pieces@.len() ==> piece_ok(#[trigger] cut_pieces@[j]),
                self.wf(),
                self.possible_stock_pieces == old(self).possible_stock_pieces,
                self.blade_width == old(self).blade_width,
                unused_unavoidable(old(self).possible_stock_pieces@, old(self).unused_cut_pieces@)
                    ==> unused_unavoidable(self.possible_stock_pieces@, self.unused_cut_pieces@),
                extends(old(self).bins@, self.bins@),
                placed_count(self.bins@) + self.unused_cut_pieces@.len() == placed_count(old(self).bins@)
                    + old(self).unused_cut_pieces@.len() + i,
                self.unused_cut_pieces@.len() >= old(self).unused_cut_pieces@.len(),
                self.unused_cut_pieces@.subrange(0, old(self).unused_cut_pieces@.len() as int) == old(self).unused_cut_pieces@,
                forall|m: int|
                    old(self).unused_cut_pieces@.len() <= m < self.unused_cut_pieces@.len() ==> cut_pieces@.contains(
                        #[trigger] self.unused_cut_pieces@[m],
                    ),
            decreases cut_pieces@.len() - i,
        {
            let ghost start = *self;
            let placed = self.first_fit_random_heuristics(&cut_pieces[i], rng);
            proof {
                lemma_extends_trans(old(self).bins@, start.bins@, self.bins@);
            }
            if !placed {
                proof {
                    Self::lemma_cannot_take(start, cut_pieces@[i as int]);
                }
                let ghost before = *self;
                self.unused_cut_pieces.push(cut_pieces[i]);
                proof {
                    assert forall|m: int| 0 <= m < self.unused_cut_pieces@.len() implies piece_ok(#[trigger] self.unused_cut_pieces@[m]) by {
                        if m < before.unused_cut_pieces@.len() {
                            assert(self.unused_cut_pieces@[m] == before.unused_cut_pieces@[m]);
                        }
                    }
                    Self::lemma_same_layout(before, *self);
                    let n0 = old(self).unused_cut_pieces@.len() as int;
                    assert(self.unused_cut_pieces@.subrange(0, n0) =~= before.unused_cut_pieces@.subrange(0, n0));
                    assert forall|m: int| n0 <= m < self.unused_cut_pieces@.len() implies cut_pieces@.contains(
                        #[trigger] self.unused_cut_pieces@[m],
                    ) by {
                        if m < before.unused_cut_pieces@.len() {
                            assert(self.unused_cut_pieces@[m] == before.unused_cut_pieces@[m]);
                        } else {
                            assert(self.unused_cut_pieces@[m] == cut_pieces@[i as int]);
                        }
                    }
                }
            }
            i += 1;
        }
    }

    /// Reverses the order of the bins in `start..end`.
    pub fn inversion_between(&mut self, start: usize, end: usize)
        requires
            old(self).wf(),
            start <= end <= old(self).bins@.len(),
        ensures
            final(self).wf(),
            reversed_between(old(self).bins@, final(self).bins@, start as int, end as int),
            final(self).possible_stock_pieces == old(self).possible_stock_pieces,
            final(self).available_stock_pieces == old(self).available_stock_pieces,
            final(self).unused_cut_pieces == old(self).unused_cut_pieces,
            final(self).blade_width == old(self).blade_width,
    {
        let ghost s0 = self.bins@;
        let ghost possible = self.possible_stock_pieces@;
        let mut t: usize = 0;
        while t < end - start
            invariant
                start <= end <= s0.len(),
                t <= end - start,
                self.possible_stock_pieces == old(self).possible_stock_pieces,
                self.available_stock_pieces == old(self).available_stock_pieces,
                self.unused_cut_pieces == old(self).unused_cut_pieces,
                self.blade_width == old(self).blade_width,
                possible == old(self).possible_stock_pieces@,
                s0 == old(self).bins@,
                self.bins@.len() == s0.len(),
                forall|j: int| 0 <= j < self.bins@.len() ==> #[trigger] self.bins@[j] == if start <= j < start + t {
                    s0[start + end - 1 - j]
                } else if start + t <= j < end {
                    s0[j - t]
                } else {
                    s0[j]
                },
                forall|m: int| 0 <= m < possible.len() ==> count_matching(self.bins@, #[trigger] possible[m])
                    == count_matching(s0, possible[m]),
            decreases end - start - t,
        {
            let ghost before = self.bins@;
            let b = self.bins.remove(end - 1);
            let ghost mid = self.bins@;
            self.bins.insert(start + t, b);
            proof {
                assert forall|m: int| 0 <= m < possible.len() implies count_matching(self.bins@, #[trigger] possible[m])
                    == count_matching(s0, possible[m]) by {
                    lemma_count_remove(before, end - 1, possible[m]);
                    lemma_count_insert(mid, (start + t) as int, b, possible[m]);
                }
            }
            t += 1;
        }
        proof {
            let s = self.bins@;
            assert forall|j: int| 0 <= j < s.len() implies good_bin(#[trigger] s[j], self.blade_width, possible) by {
                if start <= j < end {
                    assert(good_bin(s0[start + end - 1 - j], self.blade_width, possible));
                } else {
                    assert(good_bin(s0[j], self.blade_width, possible));
                }
            }
            assert forall|j: int| 0 <= j < s.len() implies (#[trigger] s[j]).wf() && s[j].spec_blade() == self.blade_width by {
                assert(good_bin(s[j], self.blade_width, possible));
            }
            assert forall|j: int| 0 <= j < s.len() implies cut_from_some(#[trigger] s[j], possible) by {
                assert(good_bin(s[j], self.blade_width, possible));
            }
        }
    }

    /// Reverses the order of a random range of bins.
    pub fn inversion(&mut self, rng: &mut StdRng)
        requires
            old(self).wf(),
            old(self).bins@.len() > 0,
        ensures
            final(self).wf(),
            final(self).bins@.len() == old(self).bins@.len(),
            exists|start: int, end: int|
                0 <= start <= end < old(self).bins@.len() && #[trigger] reversed_between(old(self).bins@, final(self).bins@, start, end),
            final(self).available_stock_pieces == old(self).available_stock_pieces,
            final(self).possible_stock_pieces == old(self).possible_stock_pieces,
            final(self).blade_width == old(self).blade_width,
            final(self).unused_cut_pieces == old(self).unused_cut_pieces,
    {
        let start = gen_range(rng, 0, self.bins.len() - 1);
        let end = gen_range(rng, start, self.bins.len() - 1);
        self.inversion_between(start, end);
        proof {
            assert(reversed_between(old(self).bins@, self.bins@, start as int, end as int));
        }
    }

    /// With chance 1 in 20, applies an inversion to a unit that has bins.
    pub fn mutate(&mut self, rng: &mut StdRng)
        requires
            old(self).wf(),
        ensures
            final(self).wf(),
            final(self).bins@.len() == old(self).bins@.len(),
            final(self).bins@ == old(self).bins@ || exists|start: int, end: int|
                0 <= start <= end < old(self).bins@.len() && #[trigger] reversed_between(old(self).bins@, final(self).bins@, start, end),
            final(self).available_stock_pieces == old(self).available_stock_pieces,
            final(self).possible_stock_pieces == old(self).possible_stock_pieces,
            final(self).blade_width == old(self).blade_width,
            final(self).unused_cut_pieces == old(self).unused_cut_pieces,
    {
        if self.bins.len() > 0 && gen_range(rng, 0, 19) == 1 {
            self.inversion(rng);
        }
    }

    /// A child of this unit and `other`: a crossover, then a mutation.
    pub fn breed_with(&self, other: &Self, rng: &mut StdRng) -> (r: Self)
        requires
            self.wf(),
            other.wf(),
            self.possible_stock_pieces@ == other.possible_stock_pieces@,
            self.blade_width == other.blade_width,
        ensures
            r.wf(),
            r.possible_stock_pieces@ == self.possible_stock_pieces@,
            r.blade_width == self.blade_width,
            !((self.bins@.len() < 2 && other.bins@.len() < 2) || other.bins@.len() == 0) ==> exists|s: int, e: int|
                0 <= s < e <= other.bins@.len() && #[trigger] holds_span(r.bins@, other.bins@, s, e),
            unused_unavoidable(self.possible_stock_pieces@, self.unused_cut_pieces@) ==> unused_unavoidable(
                r.possible_stock_pieces@,
                r.unused_cut_pieces@,
            ),
    {
        let mut unit = self.crossover(other, rng);
        let ghost child = unit.bins@;
        unit.mutate(rng);
        proof {
            if !((self.bins@.len() < 2 && other.bins@.len() < 2) || other.bins@.len() == 0) {
                let (s0, e0) = choose|s: int, e: int| 0 <= s < e <= other.bins@.len() && #[trigger] holds_span(child, other.bins@, s, e);
                if unit.bins@ != child {
                    let (st, en) = choose|start: int, end: int|
                        0 <= start <= end < child.len() && #[trigger] reversed_between(child, unit.bins@, start, end);
                    assert forall|t: int| s0 <= t < e0 && (#[trigger] other.bins@[t]).spec_pieces().len() > 0 implies holds_bin(
                        unit.bins@,
                        other.bins@[t],
                    ) by {
                        lemma_reversed_holds(child, unit.bins@, st, en, other.bins@[t]);
                    }
                }
                assert(holds_span(unit.bins@, other.bins@, s0, e0));
            }
        }
        unit
    }
}


impl<B: Bin> OptimizerUnit<B> {
    /// In a valid unit, the bins cut from a stock entry of limited quantity
    /// never outnumber that quantity.
    pub proof fn lemma_stock_quantity_respected(unit: Self, k: int)
        requires
            unit.wf(),
            0 <= k < unit.possible_stock_pieces@.len(),
            unit.possible_stock_pieces@[k].quantity is Some,
        ensures
            count_matching(unit.bins@, unit.possible_stock_pieces@[k]) <= unit.possible_stock_pieces@[k].quantity.unwrap(),
    {
        assert(same_key(unit.available_stock_pieces@[k], unit.possible_stock_pieces@[k]));
    }

    /// In a valid unit whose catalogue holds stock of a single size, every bin
    /// has that size.
    pub proof fn lemma_single_stock_size(unit: Self, width: usize, length: usize)
        requires
            unit.wf(),
            forall|k: int|
                0 <= k < unit.possible_stock_pieces@.len() ==> (#[trigger] unit.possible_stock_pieces@[k]).width == width
                    && unit.possible_stock_pieces@[k].length == length,
        ensures
            forall|i: int|
                0 <= i < unit.bins@.len() ==> (#[trigger] unit.bins@[i]).spec_width() == width
                    && unit.bins@[i].spec_length() == length,
    {
        assert forall|i: int| 0 <= i < unit.bins@.len() implies (#[trigger] unit.bins@[i]).spec_width() == width
            && unit.bins@[i].spec_length() == length by {
            assert(cut_from_some(unit.bins@[i], unit.possible_stock_pieces@));
        }
    }
}

} // verus!
