//! Rectangles, pieces and the fit test that all bins share.
use vstd::prelude::*;

verus! {

/// The largest dimension, coordinate or kerf that a bin accepts, so that sums of
/// a few of them and products of two stay within machine integers.
pub const MAX_DIM: usize = 0x3fff_ffff;

/// Indicates the linear direction of a pattern, grain, etc.
#[derive(Copy, Clone, Debug, Hash, PartialEq, Eq, Structural)]
pub enum PatternDirection {
    /// No pattern
    NoPattern,
    /// Linear pattern that runs parallel to the width
    ParallelToWidth,
    /// Linear pattern that runs parallel to the length
    ParallelToLength,
}

impl PatternDirection {
    /// The direction after a quarter turn.
    pub open spec fn spec_rotated(self) -> PatternDirection {
        match self {
            PatternDirection::NoPattern => PatternDirection::NoPattern,
            PatternDirection::ParallelToWidth => PatternDirection::ParallelToLength,
            PatternDirection::ParallelToLength => PatternDirection::ParallelToWidth,
        }
    }

    /// Returns the opposite orientation of this `PatternDirection`.
    pub fn rotated(self) -> (r: PatternDirection)
        ensures
            r == self.spec_rotated(),
    {
        match self {
            PatternDirection::NoPattern => PatternDirection::NoPattern,
            PatternDirection::ParallelToWidth => PatternDirection::ParallelToLength,
            PatternDirection::ParallelToLength => PatternDirection::ParallelToWidth,
        }
    }
}

impl Default for PatternDirection {
    fn default() -> (r: Self)
        ensures
            r == PatternDirection::NoPattern,
    {
        PatternDirection::NoPattern
    }
}

/// Turning twice gives the direction back.
pub proof fn lemma_rotated_twice(d: PatternDirection)
    ensures
        d.spec_rotated().spec_rotated() == d,
{
}

/// A rectangular piece that needs to be cut from a stock piece.
#[derive(Clone, Debug)]
pub struct CutPiece {
    /// Quantity of this cut piece.
    pub quantity: usize,
    /// ID used by the caller to match result pieces with this one; it has no
    /// meaning to the optimizer.
    pub external_id: Option<usize>,
    /// Width of this rectangular cut piece.
    pub width: usize,
    /// Length of this rectangular cut piece.
    pub length: usize,
    /// Pattern direction of this cut piece.
    pub pattern_direction: PatternDirection,
    /// Whether or not the optimizer is allowed to rotate this piece to make it fit.
    pub can_rotate: bool,
}

/// One unit of a demand piece, told apart from the others by its `id`.
#[derive(Copy, Clone, Debug)]
pub struct CutPieceWithId {
    pub id: usize,
    pub external_id: Option<usize>,
    pub width: usize,
    pub length: usize,
    pub pattern_direction: PatternDirection,
    pub can_rotate: bool,
}

/// A rectangle: `x` and `y` locate its low corner.
#[derive(Copy, Clone, Debug, Default, PartialEq, Eq, Structural)]
pub struct Rect {
    pub x: usize,
    pub y: usize,
    pub width: usize,
    pub length: usize,
}

/// A piece placed in a bin.
#[derive(Copy, Clone, Debug)]
pub struct UsedCutPiece {
    pub id: usize,
    pub external_id: Option<usize>,
    pub rect: Rect,
    pub pattern_direction: PatternDirection,
    pub is_rotated: bool,
    pub can_rotate: bool,
}

/// A cut piece that has been placed in a solution by the optimizer.
#[derive(Clone, Debug, PartialEq, Eq, Structural)]
pub struct ResultCutPiece {
    /// ID that matches the one on the cut piece that was passed to the optimizer.
    pub external_id: Option<usize>,
    /// X location of the left side of this cut piece within the stock piece.
    pub x: usize,
    /// Y location of the low side of this cut piece within the stock piece.
    pub y: usize,
    /// Width of this cut piece.
    pub width: usize,
    /// Length of this cut piece.
    pub length: usize,
    /// Pattern direction of this cut piece.
    pub pattern_direction: PatternDirection,
    /// Whether this cut piece was turned a quarter from the orientation it was demanded in.
    pub is_rotated: bool,
}

/// A rectangular stock piece that is available to cut one or more cut pieces from.
#[derive(Hash, Copy, Clone, Debug, Eq, PartialEq, Structural)]
pub struct StockPiece {
    /// Width of rectangular stock piece.
    pub width: usize,
    /// Length of rectangular stock piece.
    pub length: usize,
    /// Pattern direction of stock piece.
    pub pattern_direction: PatternDirection,
    /// Price of one unit of this stock piece.
    pub price: usize,
    /// Quantity available. `None` means unlimited.
    pub quantity: Option<usize>,
}

/// Stock piece that was used by the optimizer to get one or more cut pieces.
#[derive(Clone, Debug)]
pub struct ResultStockPiece {
    /// Width of this stock piece.
    pub width: usize,
    /// Length of this stock piece.
    pub length: usize,
    /// Pattern direction of this stock piece.
    pub pattern_direction: PatternDirection,
    /// Cut pieces to cut from this stock piece.
    pub cut_pieces: Vec<ResultCutPiece>,
    /// Waste pieces that remain after cutting the cut pieces.
    pub waste_pieces: Vec<Rect>,
    /// Price of stock piece.
    pub price: usize,
}

/// Error while optimizing.
#[derive(Debug)]
pub enum Error {
    /// There was no stock piece that could contain this demand piece.
    NoFitForCutPiece(CutPiece),
}

/// How a piece fits into a free rectangle.
#[derive(Copy, Clone, Debug, PartialEq, Eq, Structural)]
pub enum Fit {
    NoFit,
    UprightExact,
    RotatedExact,
    Upright,
    Rotated,
}

impl Fit {
    pub open spec fn spec_is_upright(self) -> bool {
        self == Fit::Upright || self == Fit::UprightExact
    }

    pub open spec fn spec_is_rotated(self) -> bool {
        self == Fit::Rotated || self == Fit::RotatedExact
    }

    pub fn is_none(self) -> (r: bool)
        ensures
            r == (self == Fit::NoFit),
    {
        self == Fit::NoFit
    }

    pub fn is_upright(self) -> (r: bool)
        ensures
            r == self.spec_is_upright(),
    {
        self == Fit::Upright || self == Fit::UprightExact
    }

    pub fn is_rotated(self) -> (r: bool)
        ensures
            r == self.spec_is_rotated(),
    {
        self == Fit::Rotated || self == Fit::RotatedExact
    }
}

/// How `p` fits upright into `r` of direction `d`, if at all.
pub open spec fn upright_fit(r: Rect, d: PatternDirection, p: CutPieceWithId) -> Fit {
    if p.pattern_direction != d {
        Fit::NoFit
    } else if p.width == r.width && p.length == r.length {
        Fit::UprightExact
    } else if p.width <= r.width && p.length <= r.length {
        Fit::Upright
    } else {
        Fit::NoFit
    }
}

/// How `p` fits into `r` of direction `d` after a quarter turn, if at all.
pub open spec fn rotated_fit(r: Rect, d: PatternDirection, p: CutPieceWithId) -> Fit {
    if !p.can_rotate || p.pattern_direction.spec_rotated() != d {
        Fit::NoFit
    } else if p.length == r.width && p.width == r.length {
        Fit::RotatedExact
    } else if p.length <= r.width && p.width <= r.length {
        Fit::Rotated
    } else {
        Fit::NoFit
    }
}

/// The fit of `p` in `r`: where both orientations fit, `prefer_rotated` picks.
pub open spec fn spec_fit(r: Rect, d: PatternDirection, p: CutPieceWithId, prefer_rotated: bool) -> Fit {
    let u = upright_fit(r, d, p);
    let t = rotated_fit(r, d, p);
    if u != Fit::NoFit && t != Fit::NoFit {
        if prefer_rotated { t } else { u }
    } else if u != Fit::NoFit {
        u
    } else {
        t
    }
}

/// A demand piece has sides of at least 1.
pub open spec fn piece_ok(p: CutPieceWithId) -> bool {
    p.width >= 1 && p.length >= 1
}

/// `p` fits into `r` in some orientation that its direction allows.
pub open spec fn fits_in(r: Rect, d: PatternDirection, p: CutPieceWithId) -> bool {
    upright_fit(r, d, p) != Fit::NoFit || rotated_fit(r, d, p) != Fit::NoFit
}

/// `inner` lies within `outer`.
pub open spec fn rect_within(inner: Rect, outer: Rect) -> bool {
    &&& outer.x <= inner.x
    &&& inner.x + inner.width <= outer.x + outer.width
    &&& outer.y <= inner.y
    &&& inner.y + inner.length <= outer.y + outer.length
}

/// `r` lies inside a bin of the given size.
pub open spec fn inside_bin(r: Rect, width: usize, length: usize) -> bool {
    r.x + r.width <= width && r.y + r.length <= length
}

/// The rectangle that a piece takes when placed at the low corner of `free`.
pub open spec fn placed_rect(free: Rect, p: CutPieceWithId, rotated: bool) -> Rect {
    if rotated {
        Rect { x: free.x, y: free.y, width: p.length, length: p.width }
    } else {
        Rect { x: free.x, y: free.y, width: p.width, length: p.length }
    }
}

/// The direction a piece has once placed, turned or not.
pub open spec fn placed_direction(p: CutPieceWithId, rotated: bool) -> PatternDirection {
    if rotated { p.pattern_direction.spec_rotated() } else { p.pattern_direction }
}

/// A fit that is not `None` puts the piece inside the free rectangle, with the
/// bin's direction.
pub proof fn lemma_fit_places_inside(r: Rect, d: PatternDirection, p: CutPieceWithId, prefer: bool)
    requires
        spec_fit(r, d, p, prefer) != Fit::NoFit,
    ensures
        rect_within(placed_rect(r, p, spec_fit(r, d, p, prefer).spec_is_rotated()), r),
        placed_direction(p, spec_fit(r, d, p, prefer).spec_is_rotated()) == d,
        spec_fit(r, d, p, prefer).spec_is_upright() || spec_fit(r, d, p, prefer).spec_is_rotated(),
{
}

/// The fit is `None` exactly when the piece fits in no orientation.
pub proof fn lemma_fit_none(r: Rect, d: PatternDirection, p: CutPieceWithId, prefer: bool)
    ensures
        (spec_fit(r, d, p, prefer) == Fit::NoFit) == !fits_in(r, d, p),
{
}

impl Rect {
    /// Classifies how `cut_piece` fits into this rectangle, taken with `pattern_direction`.
    pub fn fit_cut_piece(
        &self,
        pattern_direction: PatternDirection,
        cut_piece: &CutPieceWithId,
        prefer_rotated: bool,
    ) -> (r: Fit)
        ensures
            r == spec_fit(*self, pattern_direction, *cut_piece, prefer_rotated),
    {
        let upright_fit = if cut_piece.pattern_direction == pattern_direction {
            if cut_piece.width == self.width && cut_piece.length == self.length {
                Fit::UprightExact
            } else if cut_piece.width <= self.width && cut_piece.length <= self.length {
                Fit::Upright
            } else {
                Fit::NoFit
            }
        } else {
            Fit::NoFit
        };
        let rotated_fit = if cut_piece.can_rotate && cut_piece.pattern_direction.rotated()
            == pattern_direction {
            if cut_piece.length == self.width && cut_piece.width == self.length {
                Fit::RotatedExact
            } else if cut_piece.length <= self.width && cut_piece.width <= self.length {
                Fit::Rotated
            } else {
                Fit::NoFit
            }
        } else {
            Fit::NoFit
        };
        if upright_fit != Fit::NoFit && rotated_fit != Fit::NoFit {
            if prefer_rotated {
                rotated_fit
            } else {
                upright_fit
            }
        } else if upright_fit != Fit::NoFit {
            upright_fit
        } else {
            rotated_fit
        }
    }

    /// Whether `rect` lies within this rectangle.
    pub fn contains(&self, rect: &Rect) -> (r: bool)
        ensures
            r == rect_within(*rect, *self),
    {
        rect.x >= self.x && rect.x as u128 + rect.width as u128 <= self.x as u128
            + self.width as u128 && rect.y >= self.y && rect.y as u128 + rect.length as u128
            <= self.y as u128 + self.length as u128
    }
}

impl StockPiece {
    /// The stock's whole area as a free rectangle.
    pub open spec fn spec_rect(self) -> Rect {
        Rect { x: 0, y: 0, width: self.width, length: self.length }
    }

    /// Whether the cut piece fits within the bounds of this stock piece.
    pub fn fits_cut_piece(&self, cut_piece: &CutPieceWithId) -> (r: bool)
        ensures
            r == fits_in(self.spec_rect(), self.pattern_direction, *cut_piece),
    {
        let rect = Rect { x: 0, y: 0, width: self.width, length: self.length };
        proof {
            lemma_fit_none(rect, self.pattern_direction, *cut_piece, false);
        }
        rect.fit_cut_piece(self.pattern_direction, cut_piece, false) != Fit::NoFit
    }

    /// Decrements the quantity of this stock piece; an unlimited one stays unlimited.
    pub fn dec_quantity(&mut self)
        requires
            old(self).quantity != Some(0usize),
        ensures
            final(self).quantity == match old(self).quantity {
                Some(q) => Some((q - 1) as usize),
                None => None,
            },
            final(self).width == old(self).width,
            final(self).length == old(self).length,
            final(self).pattern_direction == old(self).pattern_direction,
            final(self).price == old(self).price,
    {
        if let Some(q) = self.quantity {
            self.quantity = Some(q - 1);
        }
    }
}

impl UsedCutPiece {
    /// The piece as demanded, before any turn.
    pub open spec fn spec_demanded(self) -> CutPieceWithId {
        if self.is_rotated {
            CutPieceWithId {
                id: self.id,
                external_id: self.external_id,
                width: self.rect.length,
                length: self.rect.width,
                pattern_direction: self.pattern_direction.spec_rotated(),
                can_rotate: self.can_rotate,
            }
        } else {
            CutPieceWithId {
                id: self.id,
                external_id: self.external_id,
                width: self.rect.width,
                length: self.rect.length,
                pattern_direction: self.pattern_direction,
                can_rotate: self.can_rotate,
            }
        }
    }

    /// Takes the piece back as it was demanded, undoing any turn.
    pub fn to_cut_piece(&self) -> (r: CutPieceWithId)
        ensures
            r == self.spec_demanded(),
    {
        if self.is_rotated {
            CutPieceWithId {
                id: self.id,
                external_id: self.external_id,
                width: self.rect.length,
                length: self.rect.width,
                pattern_direction: self.pattern_direction.rotated(),
                can_rotate: self.can_rotate,
            }
        } else {
            CutPieceWithId {
                id: self.id,
                external_id: self.external_id,
                width: self.rect.width,
                length: self.rect.length,
                pattern_direction: self.pattern_direction,
                can_rotate: self.can_rotate,
            }
        }
    }

    /// The piece as it is reported in a result.
    pub open spec fn spec_result(self) -> ResultCutPiece {
        ResultCutPiece {
            external_id: self.external_id,
            x: self.rect.x,
            y: self.rect.y,
            width: self.rect.width,
            length: self.rect.length,
            pattern_direction: self.pattern_direction,
            is_rotated: self.is_rotated,
        }
    }

    /// Reports the placement.
    pub fn to_result(&self) -> (r: ResultCutPiece)
        ensures
            r == self.spec_result(),
    {
        ResultCutPiece {
            external_id: self.external_id,
            x: self.rect.x,
            y: self.rect.y,
            width: self.rect.width,
            length: self.rect.length,
            pattern_direction: self.pattern_direction,
            is_rotated: self.is_rotated,
        }
    }
}

impl ResultCutPiece {
    /// The rectangle this piece takes.
    pub fn rect(&self) -> (r: Rect)
        ensures
            r == (Rect { x: self.x, y: self.y, width: self.width, length: self.length }),
    {
        Rect { x: self.x, y: self.y, width: self.width, length: self.length }
    }
}

/// The piece as reported in a `NoFitForCutPiece` error: one unit of it.
pub open spec fn spec_error_piece(p: CutPieceWithId) -> CutPiece {
    CutPiece {
        quantity: 1,
        external_id: p.external_id,
        width: p.width,
        length: p.length,
        pattern_direction: p.pattern_direction,
        can_rotate: p.can_rotate,
    }
}

/// The error reported for a piece that could not be placed.
pub fn no_fit_for_cut_piece_error(cut_piece: &CutPieceWithId) -> (r: Error)
    ensures
        r == Error::NoFitForCutPiece(spec_error_piece(*cut_piece)),
{
    Error::NoFitForCutPiece(
        CutPiece {
            quantity: 1,
            external_id: cut_piece.external_id,
            width: cut_piece.width,
            length: cut_piece.length,
            can_rotate: cut_piece.can_rotate,
            pattern_direction: cut_piece.pattern_direction,
        },
    )
}

/// Copies a vector of plain values.
pub fn copy_vec<T: Copy>(v: &Vec<T>) -> (r: Vec<T>)
    ensures
        r@ == v@,
{
    let mut r: Vec<T> = Vec::new();
    let mut i: usize = 0;
    while i < v.len()
        invariant
            i <= v@.len(),
            r@ == v@.subrange(0, i as int),
        decreases v@.len() - i,
    {
        r.push(v[i]);
        i += 1;
        proof {
            assert(r@ =~= v@.subrange(0, i as int));
        }
    }
    proof {
        assert(r@ =~= v@);
    }
    r
}

} // verus!

verus! {

/// Whether `id` is listed.
pub fn contains_id(ids: &Vec<usize>, id: usize) -> (r: bool)
    ensures
        r == ids@.contains(id),
{
    let mut i: usize = 0;
    while i < ids.len()
        invariant
            i <= ids@.len(),
            forall|j: int| 0 <= j < i ==> ids@[j] != id,
        decreases ids@.len() - i,
    {
        if ids[i] == id {
            return true;
        }
        i += 1;
    }
    false
}

/// The piece `p` placed at the low corner of `free`, turned or not.
pub open spec fn placed_piece(free: Rect, p: CutPieceWithId, rotated: bool) -> UsedCutPiece {
    UsedCutPiece {
        id: p.id,
        external_id: p.external_id,
        rect: placed_rect(free, p, rotated),
        pattern_direction: placed_direction(p, rotated),
        is_rotated: rotated,
        can_rotate: p.can_rotate,
    }
}

/// A placed piece undoes to the piece that was placed.
pub proof fn lemma_placed_demanded(free: Rect, p: CutPieceWithId, rotated: bool)
    ensures
        placed_piece(free, p, rotated).spec_demanded() == p,
{
    lemma_rotated_twice(p.pattern_direction);
}

} // verus!
