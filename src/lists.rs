//! The small inline lists that a guillotine bin keeps its free rectangles and
//! placed pieces in. Each holds a `smallvec::SmallVec` with room for eight
//! elements before it spills to the heap.
use crate::geometry::{Rect, UsedCutPiece};
use smallvec::SmallVec;
use vstd::prelude::*;

verus! {

/// Free rectangles, in a `SmallVec`.
#[verifier::external_body]
#[derive(Debug)]
pub struct RectList {
    items: SmallVec<[Rect; 8]>,
}

/// Placed pieces, in a `SmallVec`.
#[verifier::external_body]
#[derive(Debug)]
pub struct PieceList {
    items: SmallVec<[UsedCutPiece; 8]>,
}

/// The rectangles a list holds, in order.
pub uninterp spec fn rect_list(v: RectList) -> Seq<Rect>;

/// The pieces a list holds, in order.
pub uninterp spec fn piece_list(v: PieceList) -> Seq<UsedCutPiece>;

/// Relies on smallvec's `SmallVec::new`: an empty list.
#[verifier::external_body]
pub(crate) fn new_rects() -> (r: RectList)
    ensures
        rect_list(r) == Seq::<Rect>::empty(),
{
    RectList { items: SmallVec::new() }
}

/// Relies on smallvec's `SmallVec::len`: the number of elements.
#[verifier::external_body]
pub(crate) fn rects_len(v: &RectList) -> (r: usize)
    ensures
        r == rect_list(*v).len(),
{
    v.items.len()
}

/// Relies on smallvec's indexing (`Index`, through its slice): the element at
/// `i`, which must be in bounds.
#[verifier::external_body]
pub(crate) fn rect_at(v: &RectList, i: usize) -> (r: Rect)
    requires
        i < rect_list(*v).len(),
    ensures
        r == rect_list(*v)[i as int],
{
    v.items[i]
}

/// Relies on smallvec's `SmallVec::push`: the element is appended.
#[verifier::external_body]
pub(crate) fn push_rect(v: &mut RectList, x: Rect)
    ensures
        rect_list(*final(v)) == rect_list(*old(v)).push(x),
{
    v.items.push(x)
}

/// Relies on smallvec's `SmallVec::swap_remove`: the element at `i` (in bounds)
/// is taken out and the last one takes its place.
#[verifier::external_body]
pub(crate) fn swap_remove_rect(v: &mut RectList, i: usize) -> (r: Rect)
    requires
        i < rect_list(*old(v)).len(),
    ensures
        r == rect_list(*old(v))[i as int],
        rect_list(*final(v)) == rect_list(*old(v)).update(i as int, rect_list(*old(v)).last()).drop_last(),
{
    v.items.swap_remove(i)
}

/// Relies on smallvec's indexing (`IndexMut`, through its slice): the element
/// at `i`, which must be in bounds, is replaced.
#[verifier::external_body]
pub(crate) fn set_rect(v: &mut RectList, i: usize, x: Rect)
    requires
        i < rect_list(*old(v)).len(),
    ensures
        rect_list(*final(v)) == rect_list(*old(v)).update(i as int, x),
{
    v.items[i] = x;
}

/// Relies on smallvec's `SmallVec::into_vec`: the same elements in a `Vec`.
#[verifier::external_body]
pub(crate) fn rects_into_vec(v: RectList) -> (r: Vec<Rect>)
    ensures
        r@ == rect_list(v),
{
    v.items.into_vec()
}

/// Relies on smallvec's `Clone` for `SmallVec`: a copy, element by element.
#[verifier::external_body]
pub(crate) fn copy_rects(v: &RectList) -> (r: RectList)
    ensures
        rect_list(r) == rect_list(*v),
{
    RectList { items: v.items.clone() }
}

/// Relies on smallvec's `SmallVec::new`: an empty list.
#[verifier::external_body]
pub(crate) fn new_pieces() -> (r: PieceList)
    ensures
        piece_list(r) == Seq::<UsedCutPiece>::empty(),
{
    PieceList { items: SmallVec::new() }
}

/// Relies on smallvec's `SmallVec::len`: the number of elements.
#[verifier::external_body]
pub(crate) fn pieces_len(v: &PieceList) -> (r: usize)
    ensures
        r == piece_list(*v).len(),
{
    v.items.len()
}

/// Relies on smallvec's indexing (`Index`, through its slice): the element at
/// `i`, which must be in bounds.
#[verifier::external_body]
pub(crate) fn piece_at(v: &PieceList, i: usize) -> (r: UsedCutPiece)
    requires
        i < piece_list(*v).len(),
    ensures
        r == piece_list(*v)[i as int],
{
    v.items[i]
}

/// Relies on smallvec's `SmallVec::push`: the element is appended.
#[verifier::external_body]
pub(crate) fn push_piece(v: &mut PieceList, x: UsedCutPiece)
    ensures
        piece_list(*final(v)) == piece_list(*old(v)).push(x),
{
    v.items.push(x)
}

/// Relies on smallvec's `SmallVec::from_vec`: the same elements, in order.
#[verifier::external_body]
pub(crate) fn pieces_from_vec(v: Vec<UsedCutPiece>) -> (r: PieceList)
    ensures
        piece_list(r) == v@,
{
    PieceList { items: SmallVec::from_vec(v) }
}

/// Relies on smallvec's `SmallVec::as_slice`: the elements, in order.
#[verifier::external_body]
pub(crate) fn pieces_as_slice(v: &PieceList) -> (r: &[UsedCutPiece])
    ensures
        r@ == piece_list(*v),
{
    v.items.as_slice()
}

/// Relies on smallvec's `Clone` for `SmallVec`: a copy, element by element.
#[verifier::external_body]
pub(crate) fn copy_pieces(v: &PieceList) -> (r: PieceList)
    ensures
        piece_list(r) == piece_list(*v),
{
    PieceList { items: v.items.clone() }
}

} // verus!
