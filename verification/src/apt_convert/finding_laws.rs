//! Which tags of a SWF file hold shapes and images.
use super::bitmaps;
use super::extracting::Found;
use super::geometry;
use super::recovering::Tag;
use super::swf_read;
use super::zlib;
use vstd::prelude::*;

verus! {

/// Whether a tag holds a shape.
pub open spec fn holds_shape(code: u16) -> bool {
    code == 2 || code == 22 || code == 32 || code == 83
}

/// Whether a tag holds a photograph.
pub open spec fn holds_jpeg(code: u16) -> bool {
    code == 21 || code == 35 || code == 90
}

/// Whether a tag holds a lossless image.
pub open spec fn holds_lossless(code: u16) -> bool {
    code == 20 || code == 36
}

/// A tag that holds a shape or an image that can be read adds it under its character, in
/// place of what was there; no other tag adds anything, and none touches the other
/// characters.
pub proof fn law_found(f: Found, t: Tag, version: u8)
    ensures
        ({
            let g = f.with(t, version);
            &&& holds_shape(t.code) ==> g.images == f.images
            &&& !holds_shape(t.code) ==> g.shapes == f.shapes
            &&& holds_shape(t.code) && !geometry::is_whole(t.all, version) ==> g.shapes == f.shapes
            &&& holds_shape(t.code) && geometry::is_whole(t.all, version) ==> (
            swf_read::shape_head_in(t.all, version) matches Some(h) ==> {
                &&& g.shapes.dom() == f.shapes.dom().insert(h.id as u32)
                &&& g.shapes[h.id as u32] == t.all
                &&& forall|id: u32|
                    id != h.id && f.shapes.dom().contains(id) ==> #[trigger] g.shapes[id]
                        == f.shapes[id]
            })
            &&& holds_jpeg(t.code) ==> match swf_read::jpeg_in(t.all, version) {
                Some(j) => match bitmaps::jpeg3_of(j.data, j.alpha_data) {
                    Some(b) => g.images == f.images.insert(j.id as u32, b),
                    None => g.images == f.images,
                },
                None => g.images == f.images,
            }
            &&& holds_lossless(t.code) ==> match swf_read::lossless_in(t.all, version) {
                Some(l) => match zlib::inflated(l.data) {
                    Some(raw) => match bitmaps::image_of(l, raw) {
                        Some(b) => g.images == f.images.insert(l.id as u32, b),
                        None => g.images == f.images,
                    },
                    None => g.images == f.images,
                },
                None => g.images == f.images,
            }
            &&& !holds_jpeg(t.code) && !holds_lossless(t.code) ==> g.images == f.images
        }),
{
}

} // verus!
