//! Placing rectangles on a page.
use rectutils::pack::RectPacker;
use vstd::prelude::*;

verus! {

/// Holds a `rectutils::pack::RectPacker`, a page that gives away room for
/// rectangles.
#[verifier::external_body]
pub struct Packer {
    inner: RectPacker<u32>,
}

/// Room on a page: x, y, width, height.
pub type Room = (u32, u32, u32, u32);

/// The room that a packer has given away, in order.
pub uninterp spec fn given(p: &Packer) -> Seq<Room>;

/// The width and the height of the page that a packer fills.
pub uninterp spec fn page(p: &Packer) -> (u32, u32);

/// The sizes that a packer was asked for, in order, also those that got no room.
pub uninterp spec fn asked(p: &Packer) -> Seq<(u32, u32)>;

/// The corner that `rectutils::pack::RectPacker::find_free` gives to the last of these
/// sizes on a page of this size, when it was asked for the others before.
pub uninterp spec fn room(page: (u32, u32), sizes: Seq<(u32, u32)>) -> Option<(u32, u32)>;

/// Whether two rectangles have no point in common.
pub open spec fn apart(a: Room, b: Room) -> bool {
    ||| a.0 + a.2 <= b.0
    ||| b.0 + b.2 <= a.0
    ||| a.1 + a.3 <= b.1
    ||| b.1 + b.3 <= a.1
}

/// Calls `RectPacker::new`: a page of this size with nothing given away.
#[verifier::external_body]
pub(crate) fn new_packer(w: u32, h: u32) -> (p: Packer)
    ensures
        given(&p) == Seq::<Room>::empty(),
        asked(&p) == Seq::<(u32, u32)>::empty(),
        page(&p) == (w, h),
{
    Packer { inner: RectPacker::<u32>::new(w, h) }
}

/// Calls `RectPacker::find_free`. The packer splits its page into a tree of
/// rectangles and gives away a leaf of exactly the size asked for, so what it
/// gives lies on the page, apart from all that it gave before. What is larger
/// than the page gets no room, and the first rectangle that fits is put into the
/// corner. Which room a later one gets, and whether it gets any, depends on the page
/// and on what the packer was asked for before.
#[verifier::external_body]
pub(crate) fn find_free(p: &mut Packer, w: u32, h: u32) -> (r: Option<(u32, u32)>)
    requires
        0 < w,
        0 < h,
    ensures
        page(final(p)) == page(old(p)),
        asked(final(p)) == asked(old(p)).push((w, h)),
        r == room(page(old(p)), asked(old(p)).push((w, h))),
        match r {
            Some((x, y)) => {
                &&& given(final(p)) == given(old(p)).push((x, y, w, h))
                &&& x + w <= page(old(p)).0
                &&& y + h <= page(old(p)).1
                &&& forall|i: int|
                    0 <= i < given(old(p)).len() ==> apart(#[trigger] given(old(p))[i], (x, y, w, h))
            },
            None => given(final(p)) == given(old(p)),
        },
        given(old(p)).len() == 0 && w <= page(old(p)).0 && h <= page(old(p)).1 ==> r == Some(
            (0u32, 0u32),
        ),
{
    p.inner.find_free(w, h).map(|r| (r.position.x, r.position.y))
}

} // verus!
