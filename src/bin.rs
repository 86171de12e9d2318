//! What the genetic search needs of a bin, whatever its cutting regime.
use crate::guillotine::covered;
use crate::maxrects::intersects;
use crate::geometry::{fits_in, inside_bin, piece_ok, rect_within, CutPieceWithId, PatternDirection, Rect, ResultStockPiece, StockPiece, UsedCutPiece, MAX_DIM};
use rand::rngs::StdRng;
use vstd::prelude::*;

verus! {

/// Keeps a placed piece whose id is not listed.
pub open spec fn kept_by(ids: Seq<usize>) -> spec_fn(UsedCutPiece) -> bool {
    |u: UsedCutPiece| !ids.contains(u.id)
}

/// Picks a placed piece whose id is listed.
pub open spec fn removed_by(ids: Seq<usize>) -> spec_fn(UsedCutPiece) -> bool {
    |u: UsedCutPiece| ids.contains(u.id)
}

/// The rectangle a placed piece takes.
pub open spec fn rect_of(u: UsedCutPiece) -> Rect {
    u.rect
}

/// The placed piece that undoes to `p` is `u`.
pub open spec fn places(u: UsedCutPiece, p: CutPieceWithId) -> bool {
    u.spec_demanded() == p
}

/// A bin used for bin-packing: one unit of stock with the pieces placed in it.
pub trait Bin: Sized {
    /// Heuristic used for inserting pieces.
    type Heuristic;

    spec fn wf(&self) -> bool;

    spec fn spec_width(&self) -> usize;

    spec fn spec_length(&self) -> usize;

    spec fn spec_direction(&self) -> PatternDirection;

    spec fn spec_price(&self) -> usize;

    spec fn spec_blade(&self) -> usize;

    /// The free rectangles.
    spec fn spec_free(&self) -> Seq<Rect>;

    /// The placed pieces, in the order they were placed.
    spec fn spec_pieces(&self) -> Seq<UsedCutPiece>;

    /// Some free rectangle of the bin takes `p` in some orientation.
    spec fn spec_can_place(&self, p: CutPieceWithId) -> bool;

    /// Creates an empty bin whose free space is the whole stock piece.
    fn new(
        width: usize,
        length: usize,
        blade_width: usize,
        pattern_direction: PatternDirection,
        price: usize,
    ) -> (r: Self)
        requires
            width <= MAX_DIM,
            length <= MAX_DIM,
            blade_width <= MAX_DIM,
        ensures
            r.wf(),
            r.spec_width() == width,
            r.spec_length() == length,
            r.spec_direction() == pattern_direction,
            r.spec_price() == price,
            r.spec_blade() == blade_width,
            r.spec_pieces() == Seq::<UsedCutPiece>::empty(),
            forall|p: CutPieceWithId|
                r.spec_can_place(p) == fits_in(
                    Rect { x: 0, y: 0, width: width, length: length },
                    pattern_direction,
                    p,
                ),
    ;

    fn price(&self) -> (r: usize)
        ensures
            r == self.spec_price(),
    ;

    /// Removes the placed pieces whose ids are listed, returns their space to
    /// the free list, and says how many were removed.
    fn remove_cut_pieces(&mut self, ids: &Vec<usize>) -> (r: usize)
        requires
            old(self).wf(),
        ensures
            final(self).wf(),
            final(self).spec_width() == old(self).spec_width(),
            final(self).spec_length() == old(self).spec_length(),
            final(self).spec_direction() == old(self).spec_direction(),
            final(self).spec_price() == old(self).spec_price(),
            final(self).spec_blade() == old(self).spec_blade(),
            final(self).spec_pieces() == old(self).spec_pieces().filter(kept_by(ids@)),
            r == old(self).spec_pieces().len() - final(self).spec_pieces().len(),
            forall|k: int| 0 <= k < old(self).spec_free().len() ==> covered(#[trigger] old(self).spec_free()[k], final(self).spec_free()),
            forall|k: int|
                0 <= k < old(self).spec_pieces().len() && ids@.contains(old(self).spec_pieces()[k].id) ==> covered(
                    #[trigger] old(self).spec_pieces()[k].rect,
                    final(self).spec_free(),
                ),
    ;

    /// The placed pieces.
    fn cut_pieces(&self) -> (r: &[UsedCutPiece])
        ensures
            r@ == self.spec_pieces(),
    ;

    /// How many heuristics there are.
    spec fn spec_heuristic_count() -> nat;

    /// The heuristics, in the order they are tried.
    spec fn spec_heuristics() -> Seq<Self::Heuristic>;

    /// The heuristics that `insert_cut_piece_with_heuristic` takes.
    fn possible_heuristics() -> (r: Vec<Self::Heuristic>)
        ensures
            r@ == Self::spec_heuristics(),
            r@.len() == Self::spec_heuristic_count(),
            r@.len() > 0,
    ;

    /// Inserts the piece with the given heuristic if some free rectangle takes
    /// it; otherwise leaves the bin as it is.
    fn insert_cut_piece_with_heuristic(
        &mut self,
        cut_piece: &CutPieceWithId,
        heuristic: &Self::Heuristic,
    ) -> (r: bool)
        requires
            old(self).wf(),
            piece_ok(*cut_piece),
        ensures
            final(self).wf(),
            r == old(self).spec_can_place(*cut_piece),
            final(self).spec_width() == old(self).spec_width(),
            final(self).spec_length() == old(self).spec_length(),
            final(self).spec_direction() == old(self).spec_direction(),
            final(self).spec_price() == old(self).spec_price(),
            final(self).spec_blade() == old(self).spec_blade(),
            r ==> final(self).spec_pieces().len() == old(self).spec_pieces().len() + 1,
            r ==> final(self).spec_pieces().drop_last() == old(self).spec_pieces(),
            r ==> places(final(self).spec_pieces().last(), *cut_piece),
            !r ==> *final(self) == *old(self),
    ;

    /// Inserts the piece with a heuristic drawn at random; as
    /// `insert_cut_piece_with_heuristic` otherwise.
    fn insert_cut_piece_random_heuristic(&mut self, cut_piece: &CutPieceWithId, rng: &mut StdRng) -> (r: bool)
        requires
            old(self).wf(),
            piece_ok(*cut_piece),
        ensures
            final(self).wf(),
            r == old(self).spec_can_place(*cut_piece),
            final(self).spec_width() == old(self).spec_width(),
            final(self).spec_length() == old(self).spec_length(),
            final(self).spec_direction() == old(self).spec_direction(),
            final(self).spec_price() == old(self).spec_price(),
            final(self).spec_blade() == old(self).spec_blade(),
            r ==> final(self).spec_pieces().len() == old(self).spec_pieces().len() + 1,
            r ==> final(self).spec_pieces().drop_last() == old(self).spec_pieces(),
            r ==> places(final(self).spec_pieces().last(), *cut_piece),
            !r ==> *final(self) == *old(self),
    ;

    /// Whether the stock piece is the one this bin was cut from.
    fn matches_stock_piece(&self, stock_piece: &StockPiece) -> (r: bool)
        ensures
            r == (self.spec_width() == stock_piece.width && self.spec_length() == stock_piece.length
                && self.spec_direction() == stock_piece.pattern_direction && self.spec_price()
                == stock_piece.price),
    ;

    /// A copy of this bin.
    fn copy(&self) -> (r: Self)
        ensures
            r.wf() == self.wf(),
            r.spec_width() == self.spec_width(),
            r.spec_length() == self.spec_length(),
            r.spec_direction() == self.spec_direction(),
            r.spec_price() == self.spec_price(),
            r.spec_blade() == self.spec_blade(),
            r.spec_pieces() == self.spec_pieces(),
            forall|p: CutPieceWithId| r.spec_can_place(p) == self.spec_can_place(p),
    ;

    /// The bin as reported in a solution.
    fn into_result(self) -> (r: ResultStockPiece)
        requires
            self.wf(),
        ensures
            r.width == self.spec_width(),
            r.length == self.spec_length(),
            r.pattern_direction == self.spec_direction(),
            r.price == self.spec_price(),
            r.cut_pieces@.len() == self.spec_pieces().len(),
            forall|i: int|
                0 <= i < r.cut_pieces@.len() ==> r.cut_pieces@[i] == self.spec_pieces()[i].spec_result(),
            forall|i: int|
                0 <= i < r.waste_pieces@.len() ==> inside_bin(r.waste_pieces@[i], r.width, r.length),
    ;

    /// Every placed piece lies inside the bin and has the bin's direction.
    proof fn lemma_pieces_inside(&self)
        requires
            self.wf(),
        ensures
            self.spec_width() <= MAX_DIM,
            self.spec_length() <= MAX_DIM,
            self.spec_blade() <= MAX_DIM,
            forall|i: int|
                0 <= i < self.spec_pieces().len() ==> inside_bin(
                    #[trigger] self.spec_pieces()[i].rect,
                    self.spec_width(),
                    self.spec_length(),
                ) && self.spec_pieces()[i].pattern_direction == self.spec_direction()
                    && piece_ok(self.spec_pieces()[i].spec_demanded()),
            forall|a: int, b: int|
                0 <= a < self.spec_pieces().len() && 0 <= b < self.spec_pieces().len() && a != b ==> !intersects(
                    #[trigger] self.spec_pieces()[a].rect,
                    #[trigger] self.spec_pieces()[b].rect,
                ) && !rect_within(self.spec_pieces()[a].rect, self.spec_pieces()[b].rect),
    ;
}

} // verus!
