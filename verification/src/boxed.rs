//! Handles that own a value whose bytes lie in an arena.

use crate::layout::Layout;
use crate::Allocation;
use vstd::prelude::*;
use vstd::utf8::{decode_utf8, valid_utf8};

verus! {

/// Marks the types whose values need nothing done when they are dropped, so
/// that a handle to one may be given up for the plain value. The scalar
/// types carry the mark, and so do references, and arrays, tuples, options
/// and slices of values that can be copied. A type of one's own that can be
/// copied may be given the mark by an impl.
pub trait NoDropGlue {

}

impl NoDropGlue for () {

}

impl NoDropGlue for bool {

}

impl NoDropGlue for char {

}

impl NoDropGlue for u8 {

}

impl NoDropGlue for u16 {

}

impl NoDropGlue for u32 {

}

impl NoDropGlue for u64 {

}

impl NoDropGlue for u128 {

}

impl NoDropGlue for usize {

}

impl NoDropGlue for i8 {

}

impl NoDropGlue for i16 {

}

impl NoDropGlue for i32 {

}

impl NoDropGlue for i64 {

}

impl NoDropGlue for i128 {

}

impl NoDropGlue for isize {

}

/// A reference needs nothing done.
impl<T: ?Sized> NoDropGlue for &T {

}

/// An array of values that can be copied needs nothing done.
impl<T: Copy, const N: usize> NoDropGlue for [T; N] {

}

/// A tuple of values that can be copied needs nothing done.
impl<A: Copy> NoDropGlue for (A,) {

}

impl<A: Copy, B: Copy> NoDropGlue for (A, B) {

}

impl<A: Copy, B: Copy, C: Copy> NoDropGlue for (A, B, C) {

}

impl<A: Copy, B: Copy, C: Copy, D: Copy> NoDropGlue for (A, B, C, D) {

}

impl<A: Copy, B: Copy, C: Copy, D: Copy, E: Copy> NoDropGlue for (A, B, C, D, E) {

}

impl<A: Copy, B: Copy, C: Copy, D: Copy, E: Copy, F: Copy> NoDropGlue for (A, B, C, D, E, F) {

}

/// An optional value that can be copied needs nothing done.
impl<T: Copy> NoDropGlue for Option<T> {

}

/// The values of a slice that can be copied need nothing done.
impl<T: Copy> NoDropGlue for Vec<T> {

}

/// Text needs nothing done.
impl NoDropGlue for String {

}

/// An owned value in a region of an arena. Dropping the handle drops the
/// value; the region stays reserved until the arena is reset. The handle
/// bears the generation of the arena at the time when its region was
/// reserved: after a reset the arena tells by it that the region is no
/// longer the handle's.
#[derive(Debug)]
pub struct Box<T> {
    addr: usize,
    layout: Layout,
    generation: u64,
    value: T,
}

/// `String::from_utf8` of the standard library, with its error dropped: the
/// text that the bytes encode, if they are valid UTF-8, and nothing if they
/// are not.
#[verifier::external_body]
fn string_from_utf8(bytes: Vec<u8>) -> (r: Option<String>)
    ensures
        r is Some <==> valid_utf8(bytes@),
        r matches Some(text) ==> text@ == decode_utf8(bytes@),
{
    String::from_utf8(bytes).ok()
}

impl<T> Box<T> {
    /// The address of the region that holds the value.
    pub closed spec fn spec_addr(&self) -> usize {
        self.addr
    }

    /// The layout of the region that holds the value.
    pub closed spec fn spec_layout(&self) -> Layout {
        self.layout
    }

    /// The generation of the arena when the region was reserved.
    pub closed spec fn spec_generation(&self) -> u64 {
        self.generation
    }

    /// The value that the handle owns.
    pub closed spec fn value(&self) -> T {
        self.value
    }

    /// The handle to a value that is held by the region of the given layout
    /// at the given address. Only a commit of a claim makes one, so every
    /// handle names a region that an arena handed out.
    pub(crate) fn from_raw(addr: usize, layout: Layout, generation: u64, value: T) -> (r: Self)
        ensures
            r.spec_addr() == addr,
            r.spec_layout() == layout,
            r.spec_generation() == generation,
            r.value() == value,
    {
        Box { addr, layout, generation, value }
    }

    /// The generation of the arena when the region was reserved.
    #[verifier::when_used_as_spec(spec_generation)]
    pub fn generation(&self) -> (generation: u64)
        ensures
            generation == self.spec_generation(),
    {
        self.generation
    }

    /// The address of the region that holds the value.
    #[verifier::when_used_as_spec(spec_addr)]
    pub fn addr(&self) -> (addr: usize)
        ensures
            addr == self.spec_addr(),
    {
        self.addr
    }

    /// The layout of the region that holds the value.
    #[verifier::when_used_as_spec(spec_layout)]
    pub fn layout(&self) -> (layout: Layout)
        ensures
            layout == self.spec_layout(),
    {
        self.layout
    }

    /// Gives up the handle for the value, which will then be dropped like
    /// any other.
    pub fn leak(this: Self) -> (value: T)
        ensures
            value == this.value(),
    {
        this.value
    }

    /// Gives up the handle to a value that needs nothing done when dropped.
    pub fn into_mut_ref(this: Self) -> (value: T) where T: NoDropGlue
        ensures
            value == this.value(),
    {
        Self::leak(this)
    }

    /// Gives up the handle to a value that needs nothing done when dropped.
    pub fn into_ref(this: Self) -> (value: T) where T: NoDropGlue
        ensures
            value == this.value(),
    {
        Self::into_mut_ref(this)
    }

    /// Drops the value and gives back the claim to its region, which may
    /// then be written anew.
    pub fn drop_in_place<'a>(this: Self) -> (r: Allocation<'a>)
        ensures
            r.addr() == this.spec_addr(),
            r.layout() == this.spec_layout(),
            r.generation() == this.spec_generation(),
    {
        Allocation::from_parts(this.addr, this.layout, this.generation)
    }
}

impl Box<Vec<u8>> {
    /// The handle to the text that the bytes encode, in the same region.
    pub fn from_utf8_unchecked(this: Self) -> (r: Box<String>)
        requires
            valid_utf8(this.value()@),
        ensures
            r.value()@ == decode_utf8(this.value()@),
            r.spec_addr() == this.spec_addr(),
            r.spec_layout() == this.spec_layout(),
            r.spec_generation() == this.spec_generation(),
    {
        Box {
            addr: this.addr,
            layout: this.layout,
            generation: this.generation,
            value: string_from_utf8(this.value).unwrap(),
        }
    }
}

impl<T> core::ops::Deref for Box<T> {
    type Target = T;

    fn deref(&self) -> (r: &T)
        ensures
            *r == self.value(),
    {
        &self.value
    }
}

impl<T> core::ops::DerefMut for Box<T> {
    fn deref_mut(&mut self) -> (r: &mut T)
        ensures
            *r == old(self).value(),
            final(self).value() == *final(r),
            final(self).spec_addr() == old(self).spec_addr(),
            final(self).spec_layout() == old(self).spec_layout(),
            final(self).spec_generation() == old(self).spec_generation(),
    {
        &mut self.value
    }
}

} // verus!
