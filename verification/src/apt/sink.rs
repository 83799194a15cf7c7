//! Where a movie is written to: the blob, its constants, its out-of-line data.
use super::bytes::power_of_two;
use super::io::{joined, numbers, Arena, Deferred, Patch};
use super::layout;
use super::model;
use super::out::{self, Out};
use super::types::{PtrSize, Value};
use vstd::prelude::*;

verus! {

pub struct Sink {
    pub arena: Arena,
    pub consts: Vec<Value>,
    pub deferred: Deferred,
}

impl View for Sink {
    type V = Out;

    open spec fn view(&self) -> Out {
        Out { img: self.arena@, consts: model::views(self.consts@), def: self.deferred@ }
    }
}

impl Sink {
    pub fn new(ptr_size: PtrSize) -> (s: Sink)
        ensures
            s@ == Out::empty(ptr_size.width()),
            s@.ok(),
            s.arena.ptr_size == ptr_size,
    {
        proof {
            out::lemma_empty(ptr_size.width());
            model::lemma_views_empty::<Value>();
        }
        Sink { arena: Arena::new(ptr_size), consts: Vec::new(), deferred: Deferred::default() }
    }

    pub fn len(&self) -> (n: u64)
        ensures
            n == self@.len(),
    {
        self.arena.len() as u64
    }

    pub fn bytes(&mut self, b: &[u8])
        requires
            old(self)@.ok(),
        ensures
            final(self)@ == old(self)@.raw(b@),
            final(self)@.ok(),
            final(self).arena.ptr_size == old(self).arena.ptr_size,
    {
        broadcast use out::group_ext;

        self.arena.bytes(b);
        assert(self@ == old(self)@.raw(b@));
    }

    pub fn align(&mut self, n: usize)
        requires
            old(self)@.ok(),
            power_of_two(n as int),
        ensures
            final(self)@ == old(self)@.align(n as nat),
            final(self)@.ok(),
            final(self).arena.ptr_size == old(self).arena.ptr_size,
    {
        broadcast use out::group_ext;

        self.arena.align(n);
        assert(self@ == old(self)@.align(n as nat));
    }

    pub fn align_ptr(&mut self)
        requires
            old(self)@.ok(),
        ensures
            final(self)@ == old(self)@.align_ptr(),
            final(self)@.ok(),
            final(self).arena.ptr_size == old(self).arena.ptr_size,
    {
        broadcast use out::group_ext;

        self.arena.align_ptr();
        assert(self@ == old(self)@.align_ptr());
    }

    pub fn u8(&mut self, v: u8)
        requires
            old(self)@.ok(),
        ensures
            final(self)@ == old(self)@.put(1, v as nat),
            final(self)@.ok(),
            final(self).arena.ptr_size == old(self).arena.ptr_size,
    {
        broadcast use out::group_ext;

        self.arena.u8(v);
        assert(self@ == old(self)@.put(1, v as nat));
    }

    pub fn u16(&mut self, v: u16)
        requires
            old(self)@.ok(),
        ensures
            final(self)@ == old(self)@.put(2, v as nat),
            final(self)@.ok(),
            final(self).arena.ptr_size == old(self).arena.ptr_size,
    {
        broadcast use out::group_ext;

        self.arena.u16(v);
        assert(self@ == old(self)@.put(2, v as nat));
    }

    pub fn i16(&mut self, v: i16)
        requires
            old(self)@.ok(),
        ensures
            final(self)@ == old(self)@.put_i16(v),
            final(self)@.ok(),
            final(self).arena.ptr_size == old(self).arena.ptr_size,
    {
        broadcast use out::group_ext;

        self.arena.i16(v);
        assert(self@ == old(self)@.put_i16(v));
    }

    pub fn u32(&mut self, v: u32)
        requires
            old(self)@.ok(),
        ensures
            final(self)@ == old(self)@.put(4, v as nat),
            final(self)@.ok(),
            final(self).arena.ptr_size == old(self).arena.ptr_size,
    {
        broadcast use out::group_ext;

        self.arena.u32(v);
        assert(self@ == old(self)@.put(4, v as nat));
    }

    pub fn i32(&mut self, v: i32)
        requires
            old(self)@.ok(),
        ensures
            final(self)@ == old(self)@.put_i32(v),
            final(self)@.ok(),
            final(self).arena.ptr_size == old(self).arena.ptr_size,
    {
        broadcast use out::group_ext;

        self.arena.i32(v);
        assert(self@ == old(self)@.put_i32(v));
    }

    pub fn ptr_value(&mut self, v: u64)
        requires
            old(self)@.ok(),
        ensures
            final(self)@ == old(self)@.ptr_value(v as nat),
            final(self)@.ok(),
            final(self).arena.ptr_size == old(self).arena.ptr_size,
    {
        broadcast use out::group_ext;

        self.arena.ptr_value(v);
        assert(self@ == old(self)@.ptr_value(v as nat));
        assert(old(self)@.align_ptr().ok());
    }

    /// Reserve a pointer-width slot to be patched later with an offset.
    pub fn ptr_patch(&mut self) -> (p: Patch)
        requires
            old(self)@.ok(),
        ensures
            final(self)@ == old(self)@.ptr_slot(),
            final(self)@.ok(),
            p.pos() == old(self)@.align_ptr().len(),
            final(self)@.pending(p.pos(), old(self)@.ps()),
            final(self).arena.ptr_size == old(self).arena.ptr_size,
    {
        broadcast use out::group_ext;

        let p = self.arena.ptr_patch();
        assert(self@ == old(self)@.ptr_slot());
        assert(old(self)@.align_ptr().ok());
        p
    }

    /// Reserve a 4-byte int to be patched later.
    pub fn i32_patch(&mut self) -> (p: Patch)
        requires
            old(self)@.ok(),
        ensures
            final(self)@ == old(self)@.slot(4),
            final(self)@.ok(),
            p.pos() == old(self)@.len(),
            final(self)@.pending(p.pos(), 4),
            final(self).arena.ptr_size == old(self).arena.ptr_size,
    {
        broadcast use out::group_ext;

        let p = self.arena.i32_patch();
        assert(self@ == old(self)@.slot(4));
        p
    }

    pub fn patch_ptr(&mut self, p: Patch, v: u64)
        requires
            old(self)@.ok(),
            old(self)@.pending(p.pos(), old(self)@.ps()),
        ensures
            final(self)@ == old(self)@.ptr_fill(p.pos(), v as int),
            final(self)@.ok(),
            final(self).arena.ptr_size == old(self).arena.ptr_size,
    {
        broadcast use out::group_ext;

        proof {
            layout::lemma_held_bounds(self.arena@, p.pos(), self@.ps(), (0, 0));
        }
        self.arena.patch_ptr(p, v);
        assert(self@ == old(self)@.ptr_fill(p.pos(), v as int));
    }

    pub fn patch_i32(&mut self, p: Patch, v: i32)
        requires
            old(self)@.ok(),
            old(self)@.pending(p.pos(), 4),
        ensures
            final(self)@ == old(self)@.fill(p.pos(), 4, (v as u32) as nat),
            final(self)@.ok(),
            final(self).arena.ptr_size == old(self).arena.ptr_size,
    {
        broadcast use out::group_ext;

        proof {
            layout::lemma_held_bounds(self.arena@, p.pos(), 4, (0, 0));
        }
        self.arena.patch_i32(p, v);
        assert(self@ == old(self)@.fill(p.pos(), 4, (v as u32) as nat));
    }

    /// A pointer to a string.
    pub fn string(&mut self, s: &str)
        requires
            old(self)@.ok(),
        ensures
            final(self)@ == old(self)@.text(s@),
            final(self)@.ok(),
            final(self).arena.ptr_size == old(self).arena.ptr_size,
    {
        broadcast use out::group_ext;

        self.deferred.string(&mut self.arena, s);
        proof {
            let o = joined(old(self).arena@, old(self).deferred@);
            assert(self.arena@ == o.text(s@).img);
            assert(self.deferred@ == o.text(s@).def);
            assert(self@ == old(self)@.text(s@));
        }
    }

    /// A pointer to an array of pointer-width numbers.
    pub fn ptr_array(&mut self, values: Vec<u64>)
        requires
            old(self)@.ok(),
        ensures
            final(self)@ == old(self)@.ptr_array(numbers(values@)),
            final(self)@.ok(),
            final(self).arena.ptr_size == old(self).arena.ptr_size,
    {
        broadcast use out::group_ext;

        self.deferred.ptr_array(&mut self.arena, values);
        proof {
            let o = joined(old(self).arena@, old(self).deferred@).ptr_array(numbers(values@));
            assert(self.arena@ == o.img);
            assert(self.deferred@ == o.def);
            assert(self@ == old(self)@.ptr_array(numbers(values@)));
        }
    }

    /// A pointer to an array of strings.
    pub fn string_array(&mut self, values: Vec<String>)
        requires
            old(self)@.ok(),
        ensures
            final(self)@ == old(self)@.string_array(model::names(values@)),
            final(self)@.ok(),
            final(self).arena.ptr_size == old(self).arena.ptr_size,
    {
        broadcast use out::group_ext;

        self.deferred.string_array(&mut self.arena, values);
        proof {
            let o = joined(old(self).arena@, old(self).deferred@).string_array(
                model::names(values@),
            );
            assert(self.arena@ == o.img);
            assert(self.deferred@ == o.def);
            assert(self@ == old(self)@.string_array(model::names(values@)));
        }
    }

    /// A pointer to a parameter table.
    pub fn reg_params(&mut self, params: Vec<(u32, String)>)
        requires
            old(self)@.ok(),
        ensures
            final(self)@ == old(self)@.reg_params(model::reg_names(params@)),
            final(self)@.ok(),
            final(self).arena.ptr_size == old(self).arena.ptr_size,
    {
        broadcast use out::group_ext;

        self.deferred.reg_params(&mut self.arena, params);
        proof {
            let o = joined(old(self).arena@, old(self).deferred@).reg_params(
                model::reg_names(params@),
            );
            assert(self.arena@ == o.img);
            assert(self.deferred@ == o.def);
            assert(self@ == old(self)@.reg_params(model::reg_names(params@)));
        }
    }
}

} // verus!
