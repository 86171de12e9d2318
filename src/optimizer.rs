//! The builder that gathers stock and demand, and the driver's own decisions:
//! the runs to make, the initial population, which run wins, and the layout
//! reported for the winning unit.
use crate::bin::Bin;
use crate::geometry::{
    inside_bin, no_fit_for_cut_piece_error, piece_ok, spec_error_piece, CutPiece, CutPieceWithId, Error,
    PatternDirection, Rect, ResultCutPiece, ResultStockPiece, StockPiece, MAX_DIM, rect_within,
};
use crate::maxrects::intersects;
use crate::population::{all_unavoidable, compatible};
use crate::random::{seeded_rng, shuffle};
use crate::unit::{keys_distinct, lemma_piece_ids_reordered, piece_ids, placed_count, placed_ids, same_key, OptimizerUnit};
use vstd::prelude::*;

verus! {

/// The quantity of two equivalent entries taken together: the sum (saturating
/// at the largest `usize`), or unlimited if either is.
pub open spec fn merged_quantity(a: Option<usize>, b: Option<usize>) -> Option<usize> {
    match (a, b) {
        (Some(x), Some(y)) => Some(if x + y > usize::MAX { usize::MAX } else { (x + y) as usize }),
        _ => None,
    }
}

/// The catalogue once `sp` is added: merged into its equivalent entry if there
/// is one, appended otherwise.
pub open spec fn spec_add_stock(s: Seq<StockPiece>, sp: StockPiece) -> Seq<StockPiece> {
    if exists|k: int| 0 <= k < s.len() && same_key(#[trigger] s[k], sp) {
        let k = choose|k: int| 0 <= k < s.len() && same_key(#[trigger] s[k], sp);
        s.update(k, StockPiece { quantity: merged_quantity(s[k].quantity, sp.quantity), ..s[k] })
    } else {
        s.push(sp)
    }
}

/// The units of a demand piece, numbered from `first_id`.
pub open spec fn spec_units_of(cp: CutPiece, first_id: int) -> Seq<CutPieceWithId> {
    Seq::new(
        cp.quantity as nat,
        |i: int|
            CutPieceWithId {
                id: (first_id + i) as usize,
                external_id: cp.external_id,
                width: cp.width,
                length: cp.length,
                pattern_direction: cp.pattern_direction,
                can_rotate: cp.can_rotate,
            },
    )
}

/// Optimizer for laying rectangular cut pieces out on rectangular stock pieces.
pub struct Optimizer {
    stock_pieces: Vec<StockPiece>,
    cut_pieces: Vec<CutPieceWithId>,
    cut_width: usize,
    random_seed: u64,
    allow_mixed_stock_sizes: bool,
}

impl Optimizer {
    pub closed spec fn spec_stock_pieces(&self) -> Seq<StockPiece> {
        self.stock_pieces@
    }

    pub closed spec fn spec_cut_pieces(&self) -> Seq<CutPieceWithId> {
        self.cut_pieces@
    }

    pub closed spec fn spec_cut_width(&self) -> usize {
        self.cut_width
    }

    pub closed spec fn spec_random_seed(&self) -> u64 {
        self.random_seed
    }

    pub closed spec fn spec_allow_mixed(&self) -> bool {
        self.allow_mixed_stock_sizes
    }

    /// No two stock entries are equivalent, and each piece unit's id is its place.
    pub open spec fn wf(&self) -> bool {
        &&& keys_distinct(self.spec_stock_pieces())
        &&& forall|i: int| 0 <= i < self.spec_cut_pieces().len() ==> (#[trigger] self.spec_cut_pieces()[i]).id == i
    }

    /// Creates an optimizer with no stock and no demand, no kerf, seed 0, and
    /// mixed stock sizes allowed.
    pub fn new() -> (r: Self)
        ensures
            r.wf(),
            r.spec_stock_pieces().len() == 0,
            r.spec_cut_pieces().len() == 0,
            r.spec_cut_width() == 0,
            r.spec_random_seed() == 0,
            r.spec_allow_mixed(),
    {
        Optimizer {
            stock_pieces: Vec::new(),
            cut_pieces: Vec::new(),
            cut_width: 0,
            random_seed: 0,
            allow_mixed_stock_sizes: true,
        }
    }

    /// Adds a stock piece. An equivalent entry already there (same size,
    /// direction and price) takes it in: the quantities are summed, and if
    /// either is unlimited the entry becomes unlimited.
    pub fn add_stock_piece(&mut self, stock_piece: StockPiece) -> (r: &mut Self)
        requires
            old(self).wf(),
        ensures
            r.wf(),
            r.spec_stock_pieces() == spec_add_stock(old(self).spec_stock_pieces(), stock_piece),
            r.spec_cut_pieces() == old(self).spec_cut_pieces(),
            r.spec_cut_width() == old(self).spec_cut_width(),
            r.spec_random_seed() == old(self).spec_random_seed(),
            r.spec_allow_mixed() == old(self).spec_allow_mixed(),
            *final(r) == *final(self),
    {
        self.push_stock_piece(&stock_piece);
        self
    }

    fn push_stock_piece(&mut self, stock_piece: &StockPiece)
        requires
            old(self).wf(),
        ensures
            final(self).wf(),
            final(self).spec_stock_pieces() == spec_add_stock(old(self).spec_stock_pieces(), *stock_piece),
            final(self).cut_pieces == old(self).cut_pieces,
            final(self).cut_width == old(self).cut_width,
            final(self).random_seed == old(self).random_seed,
            final(self).allow_mixed_stock_sizes == old(self).allow_mixed_stock_sizes,
    {
        let ghost s = self.stock_pieces@;
        let mut k: usize = 0;
        while k < self.stock_pieces.len()
            invariant
                s == self.stock_pieces@,
                s == old(self).stock_pieces@,
                keys_distinct(s),
                old(self).wf(),
                *self == *old(self),
                k <= s.len(),
                forall|j: int| 0 <= j < k ==> !same_key(#[trigger] s[j], *stock_piece),
            decreases s.len() - k,
        {
            let sp = self.stock_pieces[k];
            if sp.width == stock_piece.width && sp.length == stock_piece.length && sp.pattern_direction
                == stock_piece.pattern_direction && sp.price == stock_piece.price {
                let quantity = match (sp.quantity, stock_piece.quantity) {
                    (Some(a), Some(b)) => Some(a.saturating_add(b)),
                    _ => None,
                };
                self.stock_pieces.set(k, StockPiece { quantity, ..sp });
                proof {
                    let c = choose|c: int| 0 <= c < s.len() && same_key(#[trigger] s[c], *stock_piece);
                    if c != k as int {
                        if c < k {
                            assert(!same_key(s[c], *stock_piece));
                        } else {
                            assert(!same_key(s[k as int], s[c]));
                        }
                    }
                    assert(self.stock_pieces@ =~= spec_add_stock(s, *stock_piece));
                    assert forall|i: int, j: int| 0 <= i < j < self.stock_pieces@.len() implies !same_key(
                        #[trigger] self.stock_pieces@[i],
                        #[trigger] self.stock_pieces@[j],
                    ) by {
                        assert(!same_key(s[i], s[j]));
                        assert(same_key(self.stock_pieces@[i], s[i]));
                        assert(same_key(self.stock_pieces@[j], s[j]));
                    }
                }
                return;
            }
            k += 1;
        }
        self.stock_pieces.push(*stock_piece);
        proof {
            assert(self.stock_pieces@ =~= spec_add_stock(s, *stock_piece));
            assert forall|i: int, j: int| 0 <= i < j < self.stock_pieces@.len() implies !same_key(
                #[trigger] self.stock_pieces@[i],
                #[trigger] self.stock_pieces@[j],
            ) by {
                if j < s.len() {
                    assert(!same_key(s[i], s[j]));
                } else {
                    assert(self.stock_pieces@[j] == *stock_piece);
                    assert(!same_key(s[i], *stock_piece));
                }
            }
        }
    }

    /// Adds stock pieces one after the other, as `add_stock_piece` does.
    pub fn add_stock_pieces(&mut self, stock_pieces: Vec<StockPiece>) -> (r: &mut Self)
        requires
            old(self).wf(),
        ensures
            r.wf(),
            r.spec_stock_pieces() == stock_pieces@.fold_left(old(self).spec_stock_pieces(), |s: Seq<StockPiece>, sp: StockPiece| spec_add_stock(s, sp)),
            r.spec_cut_pieces() == old(self).spec_cut_pieces(),
            r.spec_cut_width() == old(self).spec_cut_width(),
            r.spec_random_seed() == old(self).spec_random_seed(),
            r.spec_allow_mixed() == old(self).spec_allow_mixed(),
            *final(r) == *final(self),
    {
        let ghost f = |s: Seq<StockPiece>, sp: StockPiece| spec_add_stock(s, sp);
        let mut i: usize = 0;
        while i < stock_pieces.len()
            invariant
                i <= stock_pieces@.len(),
                self.wf(),
                f == (|s: Seq<StockPiece>, sp: StockPiece| spec_add_stock(s, sp)),
                self.stock_pieces@ == stock_pieces@.subrange(0, i as int).fold_left(old(self).stock_pieces@, f),
                self.cut_pieces == old(self).cut_pieces,
                self.cut_width == old(self).cut_width,
                self.random_seed == old(self).random_seed,
                self.allow_mixed_stock_sizes == old(self).allow_mixed_stock_sizes,
            decreases stock_pieces@.len() - i,
        {
            proof {
                let sub = stock_pieces@.subrange(0, i + 1);
                assert(sub.drop_last() =~= stock_pieces@.subrange(0, i as int));
                sub.lemma_fold_left_split(old(self).stock_pieces@, f, i as int);
                assert(sub.subrange(0, i as int) =~= stock_pieces@.subrange(0, i as int));
                assert(sub.subrange(i as int, i + 1) =~= seq![stock_pieces@[i as int]]);
                reveal_with_fuel(Seq::fold_left, 2);
            }
            self.push_stock_piece(&stock_pieces[i]);
            i += 1;
        }
        proof {
            assert(stock_pieces@.subrange(0, stock_pieces@.len() as int) =~= stock_pieces@);
        }
        self
    }

    fn push_cut_piece(&mut self, cut_piece: &CutPiece)
        requires
            old(self).wf(),
            old(self).spec_cut_pieces().len() + cut_piece.quantity <= usize::MAX,
        ensures
            final(self).wf(),
            final(self).spec_cut_pieces() == old(self).spec_cut_pieces() + spec_units_of(*cut_piece, old(self).spec_cut_pieces().len() as int),
            final(self).stock_pieces == old(self).stock_pieces,
            final(self).cut_width == old(self).cut_width,
            final(self).random_seed == old(self).random_seed,
            final(self).allow_mixed_stock_sizes == old(self).allow_mixed_stock_sizes,
    {
        let ghost start = self.cut_pieces@;
        let mut i: usize = 0;
        while i < cut_piece.quantity
            invariant
                i <= cut_piece.quantity,
                start.len() + cut_piece.quantity <= usize::MAX,
                self.cut_pieces@ == start + spec_units_of(*cut_piece, start.len() as int).subrange(0, i as int),
                forall|j: int| 0 <= j < self.cut_pieces@.len() ==> (#[trigger] self.cut_pieces@[j]).id == j,
                keys_distinct(self.stock_pieces@),
                self.stock_pieces == old(self).stock_pieces,
                self.cut_width == old(self).cut_width,
                self.random_seed == old(self).random_seed,
                self.allow_mixed_stock_sizes == old(self).allow_mixed_stock_sizes,
            decreases cut_piece.quantity - i,
        {
            let piece = CutPieceWithId {
                id: self.cut_pieces.len(),
                external_id: cut_piece.external_id,
                width: cut_piece.width,
                length: cut_piece.length,
                pattern_direction: cut_piece.pattern_direction,
                can_rotate: cut_piece.can_rotate,
            };
            self.cut_pieces.push(piece);
            i += 1;
            proof {
                assert(self.cut_pieces@ =~= start + spec_units_of(*cut_piece, start.len() as int).subrange(0, i as int));
            }
        }
        proof {
            assert(spec_units_of(*cut_piece, start.len() as int).subrange(0, cut_piece.quantity as int) =~= spec_units_of(*cut_piece, start.len() as int));
        }
    }

    /// Adds a demand piece: one unit per quantity, numbered on from the
    /// units already added.
    pub fn add_cut_piece(&mut self, cut_piece: CutPiece) -> (r: &mut Self)
        requires
            old(self).wf(),
            old(self).spec_cut_pieces().len() + cut_piece.quantity <= usize::MAX,
        ensures
            r.wf(),
            r.spec_cut_pieces() == old(self).spec_cut_pieces() + spec_units_of(cut_piece, old(self).spec_cut_pieces().len() as int),
            r.spec_stock_pieces() == old(self).spec_stock_pieces(),
            r.spec_cut_width() == old(self).spec_cut_width(),
            r.spec_random_seed() == old(self).spec_random_seed(),
            r.spec_allow_mixed() == old(self).spec_allow_mixed(),
            *final(r) == *final(self),
    {
        self.push_cut_piece(&cut_piece);
        self
    }

    /// Adds demand pieces one after the other, as `add_cut_piece` does.
    pub fn add_cut_pieces(&mut self, cut_pieces: Vec<CutPiece>) -> (r: &mut Self)
        requires
            old(self).wf(),
            old(self).spec_cut_pieces().len() + cut_pieces@.fold_left(0int, |n: int, cp: CutPiece| n + cp.quantity) <= usize::MAX,
        ensures
            r.wf(),
            r.spec_cut_pieces().len() == old(self).spec_cut_pieces().len() + cut_pieces@.fold_left(0int, |n: int, cp: CutPiece| n + cp.quantity),
            r.spec_stock_pieces() == old(self).spec_stock_pieces(),
            r.spec_cut_width() == old(self).spec_cut_width(),
            r.spec_random_seed() == old(self).spec_random_seed(),
            r.spec_allow_mixed() == old(self).spec_allow_mixed(),
            *final(r) == *final(self),
    {
        let ghost f = |n: int, cp: CutPiece| n + cp.quantity;
        let mut i: usize = 0;
        while i < cut_pieces.len()
            invariant
                i <= cut_pieces@.len(),
                self.wf(),
                f == (|n: int, cp: CutPiece| n + cp.quantity),
                self.cut_pieces@.len() == old(self).cut_pieces@.len() + cut_pieces@.subrange(0, i as int).fold_left(0int, f),
                old(self).cut_pieces@.len() + cut_pieces@.fold_left(0int, f) <= usize::MAX,
                self.stock_pieces == old(self).stock_pieces,
                self.cut_width == old(self).cut_width,
                self.random_seed == old(self).random_seed,
                self.allow_mixed_stock_sizes == old(self).allow_mixed_stock_sizes,
            decreases cut_pieces@.len() - i,
        {
            proof {
                let sub = cut_pieces@.subrange(0, i + 1);
                sub.lemma_fold_left_split(0int, f, i as int);
                assert(sub.subrange(0, i as int) =~= cut_pieces@.subrange(0, i as int));
                assert(sub.subrange(i as int, i + 1) =~= seq![cut_pieces@[i as int]]);
                reveal_with_fuel(Seq::fold_left, 2);
                lemma_fold_quantity_monotone(cut_pieces@, i + 1);
            }
            self.push_cut_piece(&cut_pieces[i]);
            i += 1;
        }
        proof {
            assert(cut_pieces@.subrange(0, cut_pieces@.len() as int) =~= cut_pieces@);
        }
        self
    }

    /// Sets the kerf: the width of material each cut takes.
    pub fn set_cut_width(&mut self, cut_width: usize) -> (r: &mut Self)
        requires
            old(self).wf(),
        ensures
            r.wf(),
            r.spec_cut_width() == cut_width,
            r.spec_stock_pieces() == old(self).spec_stock_pieces(),
            r.spec_cut_pieces() == old(self).spec_cut_pieces(),
            r.spec_random_seed() == old(self).spec_random_seed(),
            r.spec_allow_mixed() == old(self).spec_allow_mixed(),
            *final(r) == *final(self),
    {
        self.cut_width = cut_width;
        self
    }

    /// Sets the seed of the search: the same inputs and seed give the same result.
    pub fn set_random_seed(&mut self, seed: u64) -> (r: &mut Self)
        requires
            old(self).wf(),
        ensures
            r.wf(),
            r.spec_random_seed() == seed,
            r.spec_stock_pieces() == old(self).spec_stock_pieces(),
            r.spec_cut_pieces() == old(self).spec_cut_pieces(),
            r.spec_cut_width() == old(self).spec_cut_width(),
            r.spec_allow_mixed() == old(self).spec_allow_mixed(),
            *final(r) == *final(self),
    {
        self.random_seed = seed;
        self
    }

    /// Sets whether a solution may use stock pieces of different sizes.
    pub fn allow_mixed_stock_sizes(&mut self, allow: bool) -> (r: &mut Self)
        requires
            old(self).wf(),
        ensures
            r.wf(),
            r.spec_allow_mixed() == allow,
            r.spec_stock_pieces() == old(self).spec_stock_pieces(),
            r.spec_cut_pieces() == old(self).spec_cut_pieces(),
            r.spec_cut_width() == old(self).spec_cut_width(),
            r.spec_random_seed() == old(self).spec_random_seed(),
            *final(r) == *final(self),
    {
        self.allow_mixed_stock_sizes = allow;
        self
    }

    /// The stock entries.
    pub fn stock_pieces(&self) -> (r: &Vec<StockPiece>)
        ensures
            r@ == self.spec_stock_pieces(),
    {
        &self.stock_pieces
    }

    /// The demand, one unit per piece.
    pub fn cut_pieces(&self) -> (r: &Vec<CutPieceWithId>)
        ensures
            r@ == self.spec_cut_pieces(),
    {
        &self.cut_pieces
    }

    pub fn cut_width(&self) -> (r: usize)
        ensures
            r == self.spec_cut_width(),
    {
        self.cut_width
    }

    pub fn random_seed(&self) -> (r: u64)
        ensures
            r == self.spec_random_seed(),
    {
        self.random_seed
    }

    pub fn mixed_stock_sizes_allowed(&self) -> (r: bool)
        ensures
            r == self.spec_allow_mixed(),
    {
        self.allow_mixed_stock_sizes
    }
}

impl Default for Optimizer {
    fn default() -> (r: Self)
        ensures
            r.wf(),
            r.spec_stock_pieces().len() == 0,
            r.spec_cut_pieces().len() == 0,
            r.spec_cut_width() == 0,
            r.spec_random_seed() == 0,
            r.spec_allow_mixed(),
    {
        Optimizer::new()
    }
}

proof fn lemma_fold_quantity_monotone(s: Seq<CutPiece>, i: int)
    requires
        0 <= i <= s.len(),
    ensures
        s.subrange(0, i).fold_left(0int, |n: int, cp: CutPiece| n + cp.quantity) <= s.fold_left(0int, |n: int, cp: CutPiece| n + cp.quantity),
    decreases s.len() - i,
{
    let f = |n: int, cp: CutPiece| n + cp.quantity;
    if i < s.len() {
        lemma_fold_quantity_monotone(s, i + 1);
        let sub = s.subrange(0, i + 1);
        sub.lemma_fold_left_split(0int, f, i);
        assert(sub.subrange(0, i) =~= s.subrange(0, i));
        assert(sub.subrange(i, i + 1) =~= seq![s[i]]);
        reveal_with_fuel(Seq::fold_left, 2);
    } else {
        assert(s.subrange(0, i) =~= s);
    }
}

/// Adding two equivalent stock entries to a catalogue that has none like them
/// gives one entry whose quantity is their sum, or unlimited if either is.
pub proof fn lemma_equivalent_stock_merges(s: Seq<StockPiece>, a: StockPiece, b: StockPiece)
    requires
        keys_distinct(s),
        same_key(a, b),
        forall|k: int| 0 <= k < s.len() ==> !same_key(#[trigger] s[k], a),
    ensures
        spec_add_stock(spec_add_stock(s, a), b) == s.push(StockPiece { quantity: merged_quantity(a.quantity, b.quantity), ..a }),
{
    assert(spec_add_stock(s, a) == s.push(a));
    let t = s.push(a);
    assert(same_key(t[s.len() as int], b));
    let k = choose|k: int| 0 <= k < t.len() && same_key(#[trigger] t[k], b);
    if k < s.len() {
        assert(same_key(s[k], a));
    }
    assert(spec_add_stock(t, b) =~= s.push(StockPiece { quantity: merged_quantity(a.quantity, b.quantity), ..a }));
}


/// The size of a stock entry.
pub open spec fn size_of(sp: StockPiece) -> (usize, usize) {
    (sp.width, sp.length)
}

/// Some entry of `stock` has this size.
pub open spec fn size_listed(stock: Seq<StockPiece>, size: (usize, usize)) -> bool {
    exists|k: int| 0 <= k < stock.len() && size_of(#[trigger] stock[k]) == size
}

/// The distinct sizes of the stock entries, in the order they first appear.
pub fn distinct_sizes(stock_pieces: &Vec<StockPiece>) -> (r: Vec<(usize, usize)>)
    ensures
        r@.no_duplicates(),
        forall|k: int| 0 <= k < stock_pieces@.len() ==> r@.contains(size_of(#[trigger] stock_pieces@[k])),
        forall|m: int| 0 <= m < r@.len() ==> size_listed(stock_pieces@, #[trigger] r@[m]),
{
    let mut r: Vec<(usize, usize)> = Vec::new();
    let mut i: usize = 0;
    while i < stock_pieces.len()
        invariant
            i <= stock_pieces@.len(),
            r@.no_duplicates(),
            forall|k: int| 0 <= k < i ==> r@.contains(size_of(#[trigger] stock_pieces@[k])),
            forall|m: int| 0 <= m < r@.len() ==> size_listed(stock_pieces@.subrange(0, i as int), #[trigger] r@[m]),
        decreases stock_pieces@.len() - i,
    {
        let size = (stock_pieces[i].width, stock_pieces[i].length);
        let mut found = false;
        let mut m: usize = 0;
        while m < r.len()
            invariant
                m <= r@.len(),
                found == exists|j: int| 0 <= j < m && r@[j] == size,
            decreases r@.len() - m,
        {
            if r[m].0 == size.0 && r[m].1 == size.1 {
                found = true;
            }
            m += 1;
        }
        let ghost before = r@;
        let ghost pre = stock_pieces@.subrange(0, i as int);
        let ghost pre1 = stock_pieces@.subrange(0, i + 1);
        proof {
            assert forall|z: (usize, usize)| size_listed(pre, z) implies size_listed(pre1, z) by {
                let k = choose|k: int| 0 <= k < pre.len() && size_of(#[trigger] pre[k]) == z;
                assert(pre1[k] == pre[k]);
            }
            assert(pre1[i as int] == stock_pieces@[i as int]);
            assert(size_listed(pre1, size));
        }
        if !found {
            r.push(size);
            proof {
                assert forall|a: int, b: int| 0 <= a < b < r@.len() implies r@[a] != r@[b] by {
                    if b == r@.len() - 1 {
                        assert(r@[a] == before[a]);
                    } else {
                        assert(before.no_duplicates());
                    }
                }
                assert forall|k: int| 0 <= k < i + 1 implies r@.contains(size_of(#[trigger] stock_pieces@[k])) by {
                    if k < i {
                        let j = choose|j: int| 0 <= j < before.len() && before[j] == size_of(stock_pieces@[k]);
                        assert(r@[j] == before[j]);
                    } else {
                        assert(r@[r@.len() - 1] == size);
                    }
                }
                assert forall|mm: int| 0 <= mm < r@.len() implies size_listed(pre1, #[trigger] r@[mm]) by {
                    if mm < before.len() {
                        assert(r@[mm] == before[mm]);
                    }
                }
            }
        } else {
            proof {
                assert forall|k: int| 0 <= k < i + 1 implies r@.contains(size_of(#[trigger] stock_pieces@[k])) by {
                    if k == i {
                        let j = choose|j: int| 0 <= j < r@.len() && r@[j] == size;
                        assert(r@[j] == size_of(stock_pieces@[k]));
                    }
                }
            }
        }
        i += 1;
    }
    proof {
        assert(stock_pieces@.subrange(0, stock_pieces@.len() as int) =~= stock_pieces@);
    }
    r
}

/// The stock entries of one size, in order.
pub fn stock_pieces_of_size(stock_pieces: &Vec<StockPiece>, width: usize, length: usize) -> (r: Vec<StockPiece>)
    ensures
        r@ == stock_pieces@.filter(|sp: StockPiece| sp.width == width && sp.length == length),
        keys_distinct(stock_pieces@) ==> keys_distinct(r@),
        forall|m: int| 0 <= m < r@.len() ==> stock_pieces@.contains(#[trigger] r@[m]),
        forall|m: int| 0 <= m < r@.len() ==> (#[trigger] r@[m]).width == width && r@[m].length == length,
{
    let ghost f = |sp: StockPiece| sp.width == width && sp.length == length;
    let mut r: Vec<StockPiece> = Vec::new();
    let ghost mut from: Seq<int> = Seq::empty();
    let mut i: usize = 0;
    while i < stock_pieces.len()
        invariant
            i <= stock_pieces@.len(),
            f == (|sp: StockPiece| sp.width == width && sp.length == length),
            r@ == stock_pieces@.subrange(0, i as int).filter(f),
            from.len() == r@.len(),
            forall|m: int| 0 <= m < r@.len() ==> 0 <= #[trigger] from[m] < i && r@[m] == stock_pieces@[from[m]],
            forall|a: int, b: int| 0 <= a < b < from.len() ==> #[trigger] from[a] < #[trigger] from[b],
        decreases stock_pieces@.len() - i,
    {
        let sp = stock_pieces[i];
        proof {
            assert(stock_pieces@.subrange(0, i + 1) =~= stock_pieces@.subrange(0, i as int).push(sp));
            stock_pieces@.subrange(0, i as int).lemma_filter_push(sp, f);
        }
        if sp.width == width && sp.length == length {
            r.push(sp);
            proof {
                from = from.push(i as int);
            }
        }
        i += 1;
    }
    proof {
        assert(stock_pieces@.subrange(0, stock_pieces@.len() as int) =~= stock_pieces@);
        assert forall|m: int| 0 <= m < r@.len() implies stock_pieces@.contains(#[trigger] r@[m]) by {
            assert(r@[m] == stock_pieces@[from[m]]);
        }
        assert forall|m: int| 0 <= m < r@.len() implies (#[trigger] r@[m]).width == width && r@[m].length == length by {
            stock_pieces@.lemma_filter_pred(f, m);
        }
        if keys_distinct(stock_pieces@) {
            assert forall|a: int, b: int| 0 <= a < b < r@.len() implies !same_key(#[trigger] r@[a], #[trigger] r@[b]) by {
                assert(from[a] < from[b]);
                assert(!same_key(stock_pieces@[from[a]], stock_pieces@[from[b]]));
            }
        }
    }
    r
}

/// Whether a catalogue can drive a search: no two equivalent entries, and
/// every size within what a bin accepts.
pub fn catalogue_usable(stock_pieces: &Vec<StockPiece>) -> (r: bool)
    ensures
        r == (keys_distinct(stock_pieces@) && forall|k: int|
            0 <= k < stock_pieces@.len() ==> (#[trigger] stock_pieces@[k]).width <= MAX_DIM
                && stock_pieces@[k].length <= MAX_DIM),
{
    let mut i: usize = 0;
    while i < stock_pieces.len()
        invariant
            i <= stock_pieces@.len(),
            forall|k: int| 0 <= k < i ==> (#[trigger] stock_pieces@[k]).width <= MAX_DIM && stock_pieces@[k].length <= MAX_DIM,
            forall|a: int, b: int| 0 <= a < b < i ==> !same_key(#[trigger] stock_pieces@[a], #[trigger] stock_pieces@[b]),
        decreases stock_pieces@.len() - i,
    {
        let sp = stock_pieces[i];
        if sp.width > MAX_DIM || sp.length > MAX_DIM {
            return false;
        }
        let mut j: usize = 0;
        while j < i
            invariant
                j <= i,
                i < stock_pieces@.len(),
                sp == stock_pieces@[i as int],
                forall|a: int| 0 <= a < j ==> !same_key(#[trigger] stock_pieces@[a], sp),
            decreases i - j,
        {
            let other = stock_pieces[j];
            if other.width == sp.width && other.length == sp.length && other.pattern_direction == sp.pattern_direction
                && other.price == sp.price {
                return false;
            }
            j += 1;
        }
        i += 1;
    }
    true
}

/// The shape of a piece unit: size, turn allowance and direction.
pub open spec fn shape_of(p: CutPieceWithId) -> (usize, usize, bool, PatternDirection) {
    (p.width, p.length, p.can_rotate, p.pattern_direction)
}

/// How many distinct shapes the demand has.
pub fn unique_shapes(cut_pieces: &Vec<CutPieceWithId>) -> (r: usize)
    ensures
        r == cut_pieces@.map_values(|p: CutPieceWithId| shape_of(p)).to_set().len(),
{
    let ghost f = |p: CutPieceWithId| shape_of(p);
    let mut shapes: Vec<(usize, usize, bool, PatternDirection)> = Vec::new();
    let mut i: usize = 0;
    while i < cut_pieces.len()
        invariant
            i <= cut_pieces@.len(),
            f == (|p: CutPieceWithId| shape_of(p)),
            shapes@.no_duplicates(),
            shapes@.to_set() == cut_pieces@.subrange(0, i as int).map_values(f).to_set(),
        decreases cut_pieces@.len() - i,
    {
        let p = cut_pieces[i];
        let shape = (p.width, p.length, p.can_rotate, p.pattern_direction);
        let mut found = false;
        let mut m: usize = 0;
        while m < shapes.len()
            invariant
                m <= shapes@.len(),
                found == exists|j: int| 0 <= j < m && shapes@[j] == shape,
            decreases shapes@.len() - m,
        {
            let t = shapes[m];
            if t.0 == shape.0 && t.1 == shape.1 && t.2 == shape.2 && t.3 == shape.3 {
                found = true;
            }
            m += 1;
        }
        let ghost before = shapes@;
        let ghost pre = cut_pieces@.subrange(0, i as int).map_values(f);
        proof {
            assert(cut_pieces@.subrange(0, i + 1).map_values(f) =~= pre.push(shape));
            pre.lemma_push_to_set_commute(shape);
        }
        if !found {
            shapes.push(shape);
            proof {
                assert forall|a: int, b: int| 0 <= a < b < shapes@.len() implies shapes@[a] != shapes@[b] by {
                    if b == shapes@.len() - 1 {
                        assert(shapes@[a] == before[a]);
                    } else {
                        assert(before.no_duplicates());
                    }
                }
                before.lemma_push_to_set_commute(shape);
            }
        } else {
            proof {
                let j = choose|j: int| 0 <= j < shapes@.len() && shapes@[j] == shape;
                assert(before.to_set().contains(shape));
                assert(before.to_set().insert(shape) =~= before.to_set());
            }
        }
        i += 1;
    }
    proof {
        assert(cut_pieces@.subrange(0, cut_pieces@.len() as int) =~= cut_pieces@);
        shapes@.unique_seq_to_set();
    }
    shapes.len()
}

/// How many units the initial population has: one per heuristic for fewer
/// than three piece units; otherwise the larger of three per heuristic and
/// `n / log10(n)` (rounded down, `log_quotient`) plus ten per shape beyond the
/// first. Saturates at the largest `usize`.
pub open spec fn spec_unit_count(n_pieces: int, unique_shapes: int, n_heuristics: int, log_quotient: int) -> int {
    if n_pieces < 3 {
        n_heuristics
    } else {
        let a = 3 * n_heuristics;
        let b = log_quotient + 10 * (if unique_shapes > 0 { unique_shapes - 1 } else { 0 });
        let m = if a >= b { a } else { b };
        if m > usize::MAX { usize::MAX as int } else { m }
    }
}

pub fn initial_unit_count(n_pieces: usize, unique_shapes: usize, n_heuristics: usize, log_quotient: usize) -> (r: usize)
    ensures
        r == spec_unit_count(n_pieces as int, unique_shapes as int, n_heuristics as int, log_quotient as int),
{
    if n_pieces < 3 {
        n_heuristics
    } else {
        let a = (n_heuristics as u128) * 3;
        let extra = if unique_shapes > 0 { unique_shapes - 1 } else { 0 };
        let b = (log_quotient as u128) + (extra as u128) * 10;
        let m = if a >= b { a } else { b };
        if m > usize::MAX as u128 {
            usize::MAX
        } else {
            m as usize
        }
    }
}

/// The order of layout: larger (width, length) first.
pub open spec fn size_before(a: (usize, usize), b: (usize, usize)) -> bool {
    a.0 > b.0 || (a.0 == b.0 && a.1 > b.1)
}

pub open spec fn pieces_sorted(s: Seq<CutPieceWithId>) -> bool {
    forall|a: int, b: int| 0 <= a < b < s.len() ==> !size_before((#[trigger] s[b].width, s[b].length), (#[trigger] s[a].width, s[a].length))
}

/// Sorts piece units by descending (width, length), keeping the order of equal ones.
pub fn sort_pieces_for_layout(pieces: &mut Vec<CutPieceWithId>)
    ensures
        pieces_sorted(final(pieces)@),
        final(pieces)@.to_multiset() == old(pieces)@.to_multiset(),
{
    let ghost orig = pieces@;
    let mut i: usize = 1;
    if pieces.len() == 0 {
        return;
    }
    while i < pieces.len()
        invariant
            1 <= i <= pieces@.len(),
            pieces@.len() == orig.len(),
            pieces_sorted(pieces@.subrange(0, i as int)),
            pieces@.to_multiset() == orig.to_multiset(),
        decreases pieces@.len() - i,
    {
        let ghost before = pieces@;
        let x = pieces.remove(i);
        let mut p: usize = i;
        while p > 0 && (x.width > pieces[p - 1].width || (x.width == pieces[p - 1].width && x.length > pieces[p - 1].length))
            invariant
                p <= i,
                i < before.len(),
                pieces@ == before.remove(i as int),
                forall|b: int| p <= b < i ==> size_before((x.width, x.length), (#[trigger] pieces@[b].width, pieces@[b].length)),
            decreases p,
        {
            p -= 1;
        }
        let ghost removed = pieces@;
        pieces.insert(p, x);
        proof {
            before.to_multiset_ensures();
            crate::unit::lemma_to_multiset_remove_insert(before, i as int, p as int, x);
            assert(pieces@ == removed.insert(p as int, x));
            let s = pieces@.subrange(0, i + 1);
            let old_pre = before.subrange(0, i as int);
            assert(removed.subrange(0, i as int) =~= old_pre);
            assert forall|a: int, b: int| 0 <= a < b < s.len() implies !size_before((#[trigger] s[b].width, s[b].length), (#[trigger] s[a].width, s[a].length)) by {
                if b < p {
                    assert(s[a] == old_pre[a] && s[b] == old_pre[b]);
                } else if b == p {
                    assert(s[b] == x);
                    assert(s[a] == old_pre[a]);
                    if p > 0 {
                        assert(s[a] == old_pre[a]);
                        assert(old_pre[p - 1] == removed[p - 1]);
                        if a < p - 1 {
                            assert(!size_before((old_pre[p - 1].width, old_pre[p - 1].length), (old_pre[a].width, old_pre[a].length)));
                        }
                    }
                } else if a < p {
                    assert(s[a] == old_pre[a] && s[b] == old_pre[b - 1]);
                } else if a == p {
                    assert(s[a] == x && s[b] == old_pre[b - 1]);
                    assert(removed[b - 1] == old_pre[b - 1]);
                } else {
                    assert(s[a] == old_pre[a - 1] && s[b] == old_pre[b - 1]);
                }
            }
        }
        i += 1;
    }
    proof {
        assert(pieces@.subrange(0, pieces@.len() as int) =~= pieces@);
    }
}


/// Reordering keeps every piece's sides positive.
proof fn lemma_same_multiset_ok(a: Seq<CutPieceWithId>, b: Seq<CutPieceWithId>)
    requires
        a.to_multiset() == b.to_multiset(),
        forall|i: int| 0 <= i < a.len() ==> piece_ok(#[trigger] a[i]),
    ensures
        forall|i: int| 0 <= i < b.len() ==> piece_ok(#[trigger] b[i]),
{
    a.to_multiset_ensures();
    b.to_multiset_ensures();
    assert forall|i: int| 0 <= i < b.len() implies piece_ok(#[trigger] b[i]) by {
        assert(b.contains(b[i]));
        assert(b.to_multiset().count(b[i]) > 0);
        assert(a.contains(b[i]));
    }
}

/// Whether every demand piece has sides of at least 1.
pub fn demand_usable(cut_pieces: &Vec<CutPieceWithId>) -> (r: bool)
    ensures
        r == forall|i: int| 0 <= i < cut_pieces@.len() ==> piece_ok(#[trigger] cut_pieces@[i]),
{
    let mut i: usize = 0;
    while i < cut_pieces.len()
        invariant
            i <= cut_pieces@.len(),
            forall|j: int| 0 <= j < i ==> piece_ok(#[trigger] cut_pieces@[j]),
        decreases cut_pieces@.len() - i,
    {
        if cut_pieces[i].width < 1 || cut_pieces[i].length < 1 {
            return false;
        }
        i += 1;
    }
    true
}

/// Builds the initial units of a run: one per heuristic over the demand in
/// layout order; with more than two piece units, one more per heuristic over
/// shuffled orders, then units with random heuristics over shuffled orders up
/// to the count that `initial_unit_count` gives. `log_quotient` is
/// `n / log10(n)` rounded down, for `n` piece units.
pub fn generate_initial_units<B: Bin>(
    possible_stock_pieces: &Vec<StockPiece>,
    cut_pieces: Vec<CutPieceWithId>,
    blade_width: usize,
    random_seed: u64,
    log_quotient: usize,
) -> (r: Vec<OptimizerUnit<B>>)
    requires
        OptimizerUnit::<B>::catalogue_ok(possible_stock_pieces@),
        blade_width <= MAX_DIM,
        forall|i: int| 0 <= i < cut_pieces@.len() ==> piece_ok(#[trigger] cut_pieces@[i]),
    ensures
        compatible(r@, possible_stock_pieces@, blade_width),
        all_unavoidable(r@),
        forall|i: int|
            0 <= i < r@.len() ==> placed_count((#[trigger] r@[i]).bins@) + r@[i].unused_cut_pieces@.len()
                == cut_pieces@.len() && placed_ids(r@[i].bins@).add(piece_ids(r@[i].unused_cut_pieces@)) == piece_ids(cut_pieces@),
        r@.len() > 0,
        cut_pieces@.len() < 3 ==> r@.len() == B::spec_heuristic_count(),
        cut_pieces@.len() >= 3 ==> r@.len() == spec_unit_count(
            cut_pieces@.len() as int,
            cut_pieces@.map_values(|p: CutPieceWithId| shape_of(p)).to_set().len() as int,
            B::spec_heuristic_count() as int,
            log_quotient as int,
        ),
{
    let n = cut_pieces.len();
    let unique = unique_shapes(&cut_pieces);
    let heuristics = B::possible_heuristics();
    let num_units = initial_unit_count(n, unique, heuristics.len(), log_quotient);
    let mut units: Vec<OptimizerUnit<B>> = Vec::new();
    let mut rng = seeded_rng(random_seed);
    let ghost n0 = cut_pieces@.len();
    let mut pieces = cut_pieces;
    sort_pieces_for_layout(&mut pieces);
    proof {
        let before = cut_pieces@;
        before.to_multiset_ensures();
        pieces@.to_multiset_ensures();
        lemma_same_multiset_ok(before, pieces@);
        lemma_piece_ids_reordered(pieces@, before);
    }
    let mut k: usize = 0;
    while k < heuristics.len()
        invariant
            k <= heuristics@.len(),
            units@.len() == k,
            compatible(units@, possible_stock_pieces@, blade_width),
            pieces@.len() == n0,
            forall|j: int| 0 <= j < pieces@.len() ==> piece_ok(#[trigger] pieces@[j]),
            forall|j: int| 0 <= j < units@.len() ==> placed_count((#[trigger] units@[j]).bins@) + units@[j].unused_cut_pieces@.len() == n0
                && placed_ids(units@[j].bins@).add(piece_ids(units@[j].unused_cut_pieces@)) == piece_ids(cut_pieces@),
            piece_ids(pieces@) == piece_ids(cut_pieces@),
            all_unavoidable(units@),
            OptimizerUnit::<B>::catalogue_ok(possible_stock_pieces@),
            blade_width <= MAX_DIM,
        decreases heuristics@.len() - k,
    {
        let unit = OptimizerUnit::with_heuristic(possible_stock_pieces, &pieces, blade_width, &heuristics[k], &mut rng);
        units.push(unit);
        k += 1;
    }
    if n > 2 {
        k = 0;
        while k < heuristics.len()
            invariant
                k <= heuristics@.len(),
                units@.len() == heuristics@.len() + k,
                compatible(units@, possible_stock_pieces@, blade_width),
                pieces@.len() == n0,
                forall|j: int| 0 <= j < pieces@.len() ==> piece_ok(#[trigger] pieces@[j]),
                forall|j: int| 0 <= j < units@.len() ==> placed_count((#[trigger] units@[j]).bins@) + units@[j].unused_cut_pieces@.len() == n0
                && placed_ids(units@[j].bins@).add(piece_ids(units@[j].unused_cut_pieces@)) == piece_ids(cut_pieces@),
            piece_ids(pieces@) == piece_ids(cut_pieces@),
                all_unavoidable(units@),
            all_unavoidable(units@),
                OptimizerUnit::<B>::catalogue_ok(possible_stock_pieces@),
                blade_width <= MAX_DIM,
            decreases heuristics@.len() - k,
        {
            let ghost before = pieces@;
            shuffle(&mut pieces, &mut rng);
            proof {
                lemma_same_multiset_ok(before, pieces@);
                lemma_piece_ids_reordered(pieces@, before);
            }
            let unit = OptimizerUnit::with_heuristic(possible_stock_pieces, &pieces, blade_width, &heuristics[k], &mut rng);
            units.push(unit);
            k += 1;
        }
        let extra = num_units - units.len();
        let mut e: usize = 0;
        while e < extra
            invariant
                e <= extra,
                units@.len() == 2 * heuristics@.len() + e,
                compatible(units@, possible_stock_pieces@, blade_width),
                pieces@.len() == n0,
                forall|j: int| 0 <= j < pieces@.len() ==> piece_ok(#[trigger] pieces@[j]),
                forall|j: int| 0 <= j < units@.len() ==> placed_count((#[trigger] units@[j]).bins@) + units@[j].unused_cut_pieces@.len() == n0
                && placed_ids(units@[j].bins@).add(piece_ids(units@[j].unused_cut_pieces@)) == piece_ids(cut_pieces@),
            piece_ids(pieces@) == piece_ids(cut_pieces@),
                all_unavoidable(units@),
            all_unavoidable(units@),
                OptimizerUnit::<B>::catalogue_ok(possible_stock_pieces@),
                blade_width <= MAX_DIM,
            decreases extra - e,
        {
            let ghost before = pieces@;
            shuffle(&mut pieces, &mut rng);
            proof {
                lemma_same_multiset_ok(before, pieces@);
                lemma_piece_ids_reordered(pieces@, before);
            }
            let unit = OptimizerUnit::with_random_heuristics(possible_stock_pieces, &pieces, blade_width, &mut rng);
            units.push(unit);
            e += 1;
        }
    }
    units
}

/// Whether a run's valid-or-not result replaces the best so far. Any result
/// replaces an error. If either is invalid (negative fitness), the fitter one
/// wins. Between valid ones the cheaper wins, and at equal price the fitter.
/// `candidate_fitter` says whether the candidate's fitness is the higher.
pub open spec fn spec_replaces_best(
    best_is_ok: bool,
    best_valid: bool,
    best_price: usize,
    candidate_valid: bool,
    candidate_price: usize,
    candidate_fitter: bool,
) -> bool {
    if !best_is_ok {
        true
    } else if !candidate_valid || !best_valid {
        candidate_fitter
    } else {
        candidate_price < best_price || (candidate_price == best_price && candidate_fitter)
    }
}

/// Decides whether a successful run replaces the best result so far.
pub fn replaces_best(
    best_is_ok: bool,
    best_valid: bool,
    best_price: usize,
    candidate_valid: bool,
    candidate_price: usize,
    candidate_fitter: bool,
) -> (r: bool)
    ensures
        r == spec_replaces_best(best_is_ok, best_valid, best_price, candidate_valid, candidate_price, candidate_fitter),
        best_is_ok && best_valid && candidate_valid && candidate_price < best_price ==> r,
        best_is_ok && best_valid && candidate_valid && candidate_price > best_price ==> !r,
        best_is_ok && best_valid && candidate_valid && candidate_price == best_price ==> r == candidate_fitter,
{
    if !best_is_ok {
        true
    } else if !candidate_valid || !best_valid {
        candidate_fitter
    } else {
        candidate_price < best_price || (candidate_price == best_price && candidate_fitter)
    }
}

/// The sum of the bins' prices.
pub open spec fn total_price<B: Bin>(bins: Seq<B>) -> int
    decreases bins.len(),
{
    if bins.len() == 0 {
        0
    } else {
        total_price(bins.drop_last()) + bins.last().spec_price()
    }
}

/// Every placed piece of a reported stock piece lies inside it and has its direction.
pub open spec fn result_pieces_inside(r: ResultStockPiece) -> bool {
    forall|j: int|
        0 <= j < r.cut_pieces@.len() ==> (#[trigger] r.cut_pieces@[j]).x + r.cut_pieces@[j].width <= r.width
            && r.cut_pieces@[j].y + r.cut_pieces@[j].length <= r.length && r.cut_pieces@[j].pattern_direction
            == r.pattern_direction
}

/// The rectangle a reported piece takes.
pub open spec fn result_rect(c: ResultCutPiece) -> Rect {
    Rect { x: c.x, y: c.y, width: c.width, length: c.length }
}

/// No two reported pieces of a stock piece overlap, nor does one contain another.
pub open spec fn result_pieces_apart(r: ResultStockPiece) -> bool {
    forall|a: int, b: int|
        0 <= a < r.cut_pieces@.len() && 0 <= b < r.cut_pieces@.len() && a != b ==> !intersects(
            result_rect(#[trigger] r.cut_pieces@[a]),
            result_rect(#[trigger] r.cut_pieces@[b]),
        ) && !rect_within(result_rect(r.cut_pieces@[a]), result_rect(r.cut_pieces@[b]))
}

/// What a run reports for its best unit: the first unplaced piece as an error
/// if there is one; otherwise each bin as a stock piece, in order, and the
/// total price (saturating at the largest `usize`).
pub fn unit_layout<B: Bin>(unit: OptimizerUnit<B>) -> (r: Result<(Vec<ResultStockPiece>, usize), Error>)
    requires
        unit.wf(),
    ensures
        r is Err <==> unit.unused_cut_pieces@.len() > 0,
        r matches Err(e) ==> e == Error::NoFitForCutPiece(spec_error_piece(unit.unused_cut_pieces@[0])),
        r matches Ok((results, price)) ==> results@.len() == unit.bins@.len() && price == (if total_price(unit.bins@) > usize::MAX {
            usize::MAX as int
        } else {
            total_price(unit.bins@)
        }) && forall|i: int|
            0 <= i < results@.len() ==> (#[trigger] results@[i]).width == unit.bins@[i].spec_width()
                && results@[i].length == unit.bins@[i].spec_length() && results@[i].pattern_direction
                == unit.bins@[i].spec_direction() && results@[i].price == unit.bins@[i].spec_price()
                && results@[i].cut_pieces@.len() == unit.bins@[i].spec_pieces().len()
                && result_pieces_inside(results@[i]) && result_pieces_apart(results@[i]) && forall|j: int|
                0 <= j < results@[i].cut_pieces@.len() ==> #[trigger] results@[i].cut_pieces@[j]
                    == unit.bins@[i].spec_pieces()[j].spec_result(),
{
    if unit.unused_cut_pieces.len() > 0 {
        return Err(no_fit_for_cut_piece_error(&unit.unused_cut_pieces[0]));
    }
    let ghost orig = unit.bins@;
    let mut price: u128 = 0;
    let mut i: usize = 0;
    while i < unit.bins.len()
        invariant
            orig == unit.bins@,
            i <= orig.len(),
            price == total_price(orig.subrange(0, i as int)),
            price <= i * usize::MAX,
        decreases orig.len() - i,
    {
        proof {
            assert(orig.subrange(0, i + 1).drop_last() =~= orig.subrange(0, i as int));
            assert((i + 1) * usize::MAX == i * usize::MAX + usize::MAX) by (nonlinear_arith);
            assert((i + 1) * usize::MAX <= 0x1_0000_0000_0000_0000 * usize::MAX) by (nonlinear_arith)
                requires i + 1 <= 0x1_0000_0000_0000_0000int;
        }
        price = price + unit.bins[i].price() as u128;
        i += 1;
    }
    proof {
        assert(orig.subrange(0, orig.len() as int) =~= orig);
    }
    let price = if price > usize::MAX as u128 {
        usize::MAX
    } else {
        price as usize
    };
    let n = unit.bins.len();
    let mut bins = unit.bins;
    let mut rev: Vec<B> = Vec::new();
    while bins.len() > 0
        invariant
            n == orig.len(),
            bins@ == orig.subrange(0, n - rev@.len()),
            rev@.len() <= n,
            forall|t: int| 0 <= t < rev@.len() ==> #[trigger] rev@[t] == orig[n - 1 - t],
        decreases bins@.len(),
    {
        match bins.pop() {
            Some(b) => {
                rev.push(b);
                proof {
                    assert(bins@ =~= orig.subrange(0, n - rev@.len()));
                }
            },
            None => {},
        }
    }
    let mut results: Vec<ResultStockPiece> = Vec::new();
    while rev.len() > 0
        invariant
            n == orig.len(),
            rev@.len() + results@.len() == n,
            forall|t: int| 0 <= t < rev@.len() ==> #[trigger] rev@[t] == orig[n - 1 - t],
            forall|k: int| 0 <= k < orig.len() ==> (#[trigger] orig[k]).wf(),
            forall|k: int|
                0 <= k < results@.len() ==> (#[trigger] results@[k]).width == orig[k].spec_width()
                    && results@[k].length == orig[k].spec_length() && results@[k].pattern_direction
                    == orig[k].spec_direction() && results@[k].price == orig[k].spec_price()
                    && results@[k].cut_pieces@.len() == orig[k].spec_pieces().len()
                    && result_pieces_inside(results@[k]) && result_pieces_apart(results@[k]) && forall|j: int|
                    0 <= j < results@[k].cut_pieces@.len() ==> #[trigger] results@[k].cut_pieces@[j]
                        == orig[k].spec_pieces()[j].spec_result(),
        decreases rev@.len(),
    {
        let ghost k = results@.len() as int;
        match rev.pop() {
            Some(b) => {
                proof {
                    assert(b == orig[k]);
                    b.lemma_pieces_inside();
                }
                let res = b.into_result();
                proof {
                    assert forall|j: int| 0 <= j < res.cut_pieces@.len() implies (#[trigger] res.cut_pieces@[j]).x + res.cut_pieces@[j].width <= res.width
                        && res.cut_pieces@[j].y + res.cut_pieces@[j].length <= res.length
                        && res.cut_pieces@[j].pattern_direction == res.pattern_direction by {
                        assert(inside_bin(b.spec_pieces()[j].rect, b.spec_width(), b.spec_length()));
                    }
                    assert forall|x: int, y: int| 0 <= x < res.cut_pieces@.len() && 0 <= y < res.cut_pieces@.len() && x != y implies !intersects(
                        result_rect(#[trigger] res.cut_pieces@[x]),
                        result_rect(#[trigger] res.cut_pieces@[y]),
                    ) && !rect_within(result_rect(res.cut_pieces@[x]), result_rect(res.cut_pieces@[y])) by {
                        assert(result_rect(res.cut_pieces@[x]) == b.spec_pieces()[x].rect);
                        assert(result_rect(res.cut_pieces@[y]) == b.spec_pieces()[y].rect);
                    }
                }
                results.push(res);
            },
            None => {},
        }
    }
    Ok((results, price))
}

pub open spec fn results_sorted(s: Seq<ResultStockPiece>) -> bool {
    forall|a: int, b: int| 0 <= a < b < s.len() ==> !size_before((#[trigger] s[b].width, s[b].length), (#[trigger] s[a].width, s[a].length))
}

/// Sorts reported stock pieces by descending (width, length), keeping the
/// order of equal ones.
pub fn sort_results(results: &mut Vec<ResultStockPiece>)
    ensures
        results_sorted(final(results)@),
        final(results)@.to_multiset() == old(results)@.to_multiset(),
{
    let ghost orig = results@;
    if results.len() == 0 {
        return;
    }
    let mut i: usize = 1;
    while i < results.len()
        invariant
            1 <= i <= results@.len(),
            results@.len() == orig.len(),
            results_sorted(results@.subrange(0, i as int)),
            results@.to_multiset() == orig.to_multiset(),
        decreases results@.len() - i,
    {
        let ghost before = results@;
        let x = results.remove(i);
        let mut p: usize = i;
        while p > 0 && (x.width > results[p - 1].width || (x.width == results[p - 1].width && x.length > results[p - 1].length))
            invariant
                p <= i,
                i < before.len(),
                results@ == before.remove(i as int),
                x == before[i as int],
                forall|b: int| p <= b < i ==> size_before((x.width, x.length), (#[trigger] results@[b].width, results@[b].length)),
            decreases p,
        {
            p -= 1;
        }
        let ghost removed = results@;
        results.insert(p, x);
        proof {
            crate::unit::lemma_to_multiset_remove_insert(before, i as int, p as int, x);
            assert(results@ == removed.insert(p as int, x));
            let s = results@.subrange(0, i + 1);
            let old_pre = before.subrange(0, i as int);
            assert(removed.subrange(0, i as int) =~= old_pre);
            assert forall|a: int, b: int| 0 <= a < b < s.len() implies !size_before((#[trigger] s[b].width, s[b].length), (#[trigger] s[a].width, s[a].length)) by {
                if b < p {
                    assert(s[a] == old_pre[a] && s[b] == old_pre[b]);
                } else if b == p {
                    assert(s[b] == x);
                    assert(s[a] == old_pre[a]);
                    if p > 0 {
                        assert(old_pre[p - 1] == removed[p - 1]);
                        if a < p - 1 {
                            assert(!size_before((old_pre[p - 1].width, old_pre[p - 1].length), (old_pre[a].width, old_pre[a].length)));
                        }
                    }
                } else if a < p {
                    assert(s[a] == old_pre[a] && s[b] == old_pre[b - 1]);
                } else if a == p {
                    assert(s[a] == x && s[b] == old_pre[b - 1]);
                    assert(removed[b - 1] == old_pre[b - 1]);
                } else {
                    assert(s[a] == old_pre[a - 1] && s[b] == old_pre[b - 1]);
                }
            }
        }
        i += 1;
    }
    proof {
        assert(results@.subrange(0, results@.len() as int) =~= results@);
    }
}

} // verus!
