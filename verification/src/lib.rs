//! A bump arena: regions of memory are handed out from a cursor that moves
//! down through a chain of growing chunks, and are taken back all at once.
//!
//! The arena keeps the books of a linear address space. An address is a
//! number, a chunk is a block of addresses with a cursor, and reserving a
//! region lowers the cursor of the newest chunk by the size asked for and
//! rounds it down to the alignment asked for. A block begins with the header
//! of its chunk, and what follows the header is handed out. When the newest
//! chunk has no room, the arena places a block above it that can hand out
//! at least twice as much. A reset gives back every block but the newest and
//! rewinds its cursor. Where header and payload together make no valid
//! layout, or the block would end beyond the address space, there is no
//! chunk, and the request is not served.
//!
//! A claim to a region borrows the arena until it is committed. A value that
//! is committed to a region is owned by the handle that the commit gives,
//! which also names the region. Dropping the handle drops the value and
//! leaves the region reserved. Claims and handles bear the generation of the
//! arena, the count of its resets, by which the arena tells a handle whose
//! region it has taken back.
//!
//! What the arena does is stated over a model, the chain of its chunks as a
//! sequence (module `model`), and the properties that hold of every chain
//! are proved in module `laws`.

pub mod align;
pub mod boxed;
pub mod laws;
pub mod layout;
pub mod model;
pub mod raw;

use crate::layout::{lemma_array_fits, lemma_array_within, Layout, LayoutView};
use crate::laws::{lemma_alloc_is_inside, lemma_served_bytes_are_valid};
use crate::model::{
    chain_alloc, chain_reset, chain_wf, fresh_region, head, next_generation, ChunkView,
};
use core::marker::PhantomData;
use vstd::layout::{align_of, size_of};
use vstd::prelude::*;
use vstd::utf8::encode_utf8;

verus! {

/// An arena that hands out regions for values, slices and text.
#[derive(Debug)]
pub struct Bump {
    pub raw: raw::Bump,
}

/// The claim to a region that has been reserved and holds nothing yet. A
/// claim borrows the arena that gave it: until the claim is committed or
/// dropped, the arena can neither be reset nor asked for another region.
#[derive(Debug)]
pub struct Allocation<'a> {
    addr: usize,
    layout: Layout,
    generation: u64,
    bump: PhantomData<&'a mut Bump>,
}

impl View for Bump {
    type V = Seq<ChunkView>;

    /// The chain of the arena, from its oldest chunk to its head.
    open spec fn view(&self) -> Seq<ChunkView> {
        self.raw@
    }
}

impl Bump {
    /// The number of resets so far, counted up to `u64::MAX` and then anew.
    pub open spec fn spec_generation(&self) -> u64 {
        self.raw.spec_generation()
    }

    /// The number of resets so far, counted up to `u64::MAX` and then anew.
    #[verifier::when_used_as_spec(spec_generation)]
    pub fn generation(&self) -> (generation: u64)
        ensures
            generation == self.spec_generation(),
    {
        self.raw.generation()
    }

    /// Whether the region of the handle is still the handle's: the arena has
    /// not been reset since the region was reserved.
    pub fn is_live<T>(&self, handle: &boxed::Box<T>) -> (b: bool)
        ensures
            b == (handle.spec_generation() == self.spec_generation()),
    {
        handle.generation() == self.raw.generation()
    }

    /// Whether the region of the claim is still the claim's: the arena has
    /// not been reset since the region was reserved. A claim that the arena
    /// gave borrows the arena, so it cannot be asked about; a claim that a
    /// handle gave up can.
    pub fn is_current(&self, claim: &Allocation<'_>) -> (b: bool)
        ensures
            b == (claim.spec_generation() == self.spec_generation()),
    {
        claim.generation() == self.raw.generation()
    }

    /// An arena that owns no block yet. Its first chunk, of at least
    /// `DEFAULT_CAPACITY` bytes, is made when the first region that needs
    /// one is reserved.
    pub fn new() -> (bump: Bump)
        ensures
            bump@ == Seq::<ChunkView>::empty(),
            chain_wf(bump@),
            bump.spec_generation() == 0,
    {
        Bump { raw: raw::Bump::new() }
    }

    /// Whether a region of the given layout can be reserved.
    pub fn can_alloc(&self, layout: Layout) -> (b: bool)
        ensures
            b == (chain_alloc(self@, layout@) is Some),
    {
        self.raw.can_alloc(layout)
    }

    /// Gives back every block but that of the head, and takes back
    /// everything that the head handed out.
    pub fn reset(&mut self)
        ensures
            chain_wf(final(self)@),
            final(self)@ == chain_reset(old(self)@),
            final(self).spec_generation() == next_generation(old(self).spec_generation()),
    {
        self.raw.reset()
    }

    /// Reserves a region of the given layout and gives the claim to it.
    /// Where no block can be had for it, the result is `None` and the arena
    /// stays as it is.
    pub fn try_alloc_layout(&mut self, layout: Layout) -> (r: Option<Allocation<'_>>)
        ensures
            chain_wf(final(self)@),
            final(self).spec_generation() == old(self).spec_generation(),
            match chain_alloc(old(self)@, layout@) {
                Some((chain, addr)) => {
                    &&& r matches Some(claim)
                    &&& claim.spec_addr() == addr
                    &&& claim.spec_layout() == layout
                    &&& claim.spec_generation() == old(self).spec_generation()
                    &&& final(self)@ == chain
                },
                None => r is None && final(self)@ == old(self)@,
            },
            r matches Some(claim) ==> fresh_region(
                old(self)@,
                final(self)@,
                claim.spec_addr() as int,
                layout@,
            ),
    {
        let generation: u64 = self.raw.generation();
        match self.raw.try_alloc_layout(layout) {
            Some(addr) => Some(Allocation { addr, layout, generation, bump: PhantomData }),
            None => None,
        }
    }

    /// Reserves a region of the given layout and gives the claim to it.
    pub fn alloc_layout(&mut self, layout: Layout) -> (r: Allocation<'_>)
        requires
            chain_alloc(old(self)@, layout@) is Some,
        ensures
            chain_wf(final(self)@),
            final(self).spec_generation() == old(self).spec_generation(),
            chain_alloc(old(self)@, layout@) == Some((final(self)@, r.spec_addr() as int)),
            fresh_region(old(self)@, final(self)@, r.spec_addr() as int, layout@),
            r.spec_layout() == layout,
            r.spec_generation() == old(self).spec_generation(),
    {
        let generation: u64 = self.raw.generation();
        Allocation { addr: self.raw.alloc_layout(layout), layout, generation, bump: PhantomData }
    }

    /// Reserves a region for the value, moves the value into it and gives
    /// the handle to it.
    pub fn alloc_value<T>(&mut self, value: T) -> (r: boxed::Box<T>)
        requires
            chain_alloc(old(self)@, LayoutView::array::<T>(1)) is Some,
        ensures
            chain_wf(final(self)@),
            final(self).spec_generation() == old(self).spec_generation(),
            chain_alloc(old(self)@, LayoutView::array::<T>(1)) == Some(
                (final(self)@, r.spec_addr() as int),
            ),
            fresh_region(
                old(self)@,
                final(self)@,
                r.spec_addr() as int,
                LayoutView::array::<T>(1),
            ),
            r.value() == value,
            r.spec_layout()@ == LayoutView::array::<T>(1),
            r.spec_generation() == old(self).spec_generation(),
    {
        self.alloc_layout(Layout::new::<T>()).write(value)
    }

    /// Reserves a region for the values of the slice and gives their copies.
    pub fn alloc_copy_slice<T: Copy>(&mut self, value: &[T]) -> (r: Vec<T>)
        requires
            LayoutView::array::<T>(value@.len() as int).valid(),
            chain_alloc(old(self)@, LayoutView::array::<T>(value@.len() as int)) is Some,
        ensures
            chain_wf(final(self)@),
            final(self).spec_generation() == old(self).spec_generation(),
            chain_alloc(old(self)@, LayoutView::array::<T>(value@.len() as int)) matches Some(
                (chain, addr),
            ) && final(self)@ == chain && head(chain).end == addr && fresh_region(
                old(self)@,
                chain,
                addr,
                LayoutView::array::<T>(value@.len() as int),
            ),
            r@ == value@,
    {
        let layout = Layout::array_unchecked::<T>(value.len());
        proof {
            use_type_invariant(&self.raw);
            lemma_alloc_is_inside(self@, layout@);
        }
        boxed::Box::into_mut_ref(self.alloc_layout(layout).copy_from_slice(value))
    }

    /// Reserves a region for the bytes of the text and gives its copy, which
    /// is the same text with the same bytes.
    pub fn alloc_str(&mut self, value: &str) -> (r: String)
        requires
            chain_alloc(old(self)@, LayoutView::array::<u8>(encode_utf8(value@).len() as int))
                is Some,
        ensures
            chain_wf(final(self)@),
            final(self).spec_generation() == old(self).spec_generation(),
            chain_alloc(
                old(self)@,
                LayoutView::array::<u8>(encode_utf8(value@).len() as int),
            ) matches Some((chain, addr)) && final(self)@ == chain && head(chain).end == addr
                && fresh_region(
                old(self)@,
                chain,
                addr,
                LayoutView::array::<u8>(encode_utf8(value@).len() as int),
            ),
            r@ == value@,
            encode_utf8(r@) == encode_utf8(value@),
    {
        proof {
            broadcast use vstd::layout::layout_of_primitives, vstd::layout::align_of_u8;

            use_type_invariant(&self.raw);
            lemma_served_bytes_are_valid(self@, encode_utf8(value@).len() as int);
        }
        let layout = Layout::array_unchecked::<u8>(value.len());
        proof {
            lemma_alloc_is_inside(self@, layout@);
        }
        boxed::Box::into_mut_ref(self.alloc_layout(layout).copy_from_str(value))
    }

    /// Reserves a region for the values of the vector, moves them into it,
    /// which leaves the vector empty, and gives the handle to them.
    pub fn append_from_vec<T>(&mut self, vec: &mut Vec<T>) -> (r: boxed::Box<Vec<T>>)
        requires
            LayoutView::array::<T>(old(vec)@.len() as int).valid(),
            chain_alloc(old(self)@, LayoutView::array::<T>(old(vec)@.len() as int)) is Some,
        ensures
            chain_wf(final(self)@),
            final(self).spec_generation() == old(self).spec_generation(),
            chain_alloc(old(self)@, LayoutView::array::<T>(old(vec)@.len() as int)) == Some(
                (final(self)@, r.spec_addr() as int),
            ),
            fresh_region(
                old(self)@,
                final(self)@,
                r.spec_addr() as int,
                LayoutView::array::<T>(old(vec)@.len() as int),
            ),
            r.value()@ == old(vec)@,
            final(vec)@ == Seq::<T>::empty(),
            r.spec_generation() == old(self).spec_generation(),
    {
        let layout = Layout::array_unchecked::<T>(vec.len());
        self.alloc_layout(layout).append_from_vec(vec)
    }
}

impl Default for Bump {
    fn default() -> (bump: Bump)
        ensures
            bump@ == Seq::<ChunkView>::empty(),
            chain_wf(bump@),
            bump.spec_generation() == 0,
    {
        Bump::new()
    }
}

impl<'a> Allocation<'a> {
    /// The address of the region.
    pub closed spec fn spec_addr(&self) -> usize {
        self.addr
    }

    /// The layout that the region was reserved with.
    pub closed spec fn spec_layout(&self) -> Layout {
        self.layout
    }

    /// The generation of the arena when the region was reserved.
    pub closed spec fn spec_generation(&self) -> u64 {
        self.generation
    }

    /// The claim to the region of the given layout at the given address.
    pub(crate) fn from_parts(addr: usize, layout: Layout, generation: u64) -> (r: Allocation<'a>)
        ensures
            r.spec_addr() == addr,
            r.spec_layout() == layout,
            r.spec_generation() == generation,
    {
        Allocation { addr, layout, generation, bump: PhantomData }
    }

    /// The generation of the arena when the region was reserved.
    #[verifier::when_used_as_spec(spec_generation)]
    pub fn generation(&self) -> (generation: u64)
        ensures
            generation == self.spec_generation(),
    {
        self.generation
    }

    /// The address of the region.
    #[verifier::when_used_as_spec(spec_addr)]
    pub fn addr(&self) -> (addr: usize)
        ensures
            addr == self.spec_addr(),
    {
        self.addr
    }

    /// The layout that the region was reserved with.
    #[verifier::when_used_as_spec(spec_layout)]
    pub fn layout(&self) -> (layout: Layout)
        ensures
            layout == self.spec_layout(),
    {
        self.layout
    }

    /// A claim to the same region that borrows this one, for a use that
    /// would consume it. This claim can be used again once the other is gone.
    pub fn by_ref(&mut self) -> (r: Allocation<'_>)
        ensures
            r.spec_addr() == old(self).spec_addr(),
            r.spec_layout() == old(self).spec_layout(),
            r.spec_generation() == old(self).spec_generation(),
            *final(self) == *old(self),
    {
        Allocation {
            addr: self.addr,
            layout: self.layout,
            generation: self.generation,
            bump: PhantomData,
        }
    }

    /// States that the region can hold a value of the given layout: it is
    /// neither smaller nor less aligned. A caller has to know that it can.
    pub fn fits(&self, layout: Layout)
        requires
            self.spec_layout()@.holds(layout@),
    {
    }

    /// Moves the value into the region and gives the handle to it.
    pub fn write<T>(self, value: T) -> (r: boxed::Box<T>)
        requires
            self.spec_layout()@.holds(LayoutView::array::<T>(1)),
        ensures
            r.value() == value,
            r.spec_addr() == self.spec_addr(),
            r.spec_generation() == self.spec_generation(),
            r.spec_layout()@ == LayoutView::array::<T>(1),
    {
        let layout = Layout::new::<T>();
        self.fits(layout);
        boxed::Box::from_raw(self.addr, layout, self.generation, value)
    }

    /// Fills the region with as many values as it has room for, each made by
    /// a call of `mk_value`, and gives the handle to them.
    pub fn write_slice<T, F: Fn() -> T>(self, mk_value: F) -> (r: boxed::Box<Vec<T>>)
        requires
            self.spec_layout()@.align >= align_of::<T>(),
            size_of::<T>() > 0,
            mk_value.requires(()),
        ensures
            r.value()@.len() == self.spec_layout()@.size / (size_of::<T>() as int),
            forall|i: int| 0 <= i < r.value()@.len() ==> mk_value.ensures((), #[trigger] r.value()@[i]),
            r.spec_addr() == self.spec_addr(),
            r.spec_generation() == self.spec_generation(),
            r.spec_layout()@ == LayoutView::array::<T>(r.value()@.len() as int),
    {
        let element = Layout::new::<T>();
        let len: usize = self.layout.size() / element.size();
        let mut values: Vec<T> = Vec::new();
        let mut filled: usize = 0;
        while filled < len
            invariant
                filled <= len,
                values@.len() == filled,
                mk_value.requires(()),
                forall|i: int| 0 <= i < values@.len() ==> mk_value.ensures((), #[trigger] values@[i]),
            decreases len - filled,
        {
            values.push(mk_value());
            filled += 1;
        }
        proof {
            use_type_invariant(&self.layout);
            lemma_array_within(self.layout@, element@, len as int);
        }
        let layout = Layout::array_unchecked::<T>(len);
        boxed::Box::from_raw(self.addr, layout, self.generation, values)
    }

    /// Fills the region with as many values as it has room for, each made by
    /// a call of `mk_value`, which may change its state from call to call,
    /// and gives the handle to them.
    pub fn write_slice_mut<T, F: FnMut() -> T>(self, mut mk_value: F) -> (r: boxed::Box<Vec<T>>)
        requires
            self.spec_layout()@.align >= align_of::<T>(),
            size_of::<T>() > 0,
            mk_value.requires(()),
        ensures
            r.value()@.len() == self.spec_layout()@.size / (size_of::<T>() as int),
            r.spec_addr() == self.spec_addr(),
            r.spec_generation() == self.spec_generation(),
            r.spec_layout()@ == LayoutView::array::<T>(r.value()@.len() as int),
    {
        let element = Layout::new::<T>();
        let len: usize = self.layout.size() / element.size();
        let mut values: Vec<T> = Vec::new();
        let mut filled: usize = 0;
        while filled < len
            invariant
                filled <= len,
                values@.len() == filled,
                mk_value.requires(()),
            decreases len - filled,
        {
            values.push(mk_value());
            filled += 1;
        }
        proof {
            use_type_invariant(&self.layout);
            lemma_array_within(self.layout@, element@, len as int);
        }
        let layout = Layout::array_unchecked::<T>(len);
        boxed::Box::from_raw(self.addr, layout, self.generation, values)
    }

    /// Copies the values of the slice into the region and gives the handle
    /// to the copies.
    pub fn copy_from_slice<T: Copy>(self, slice: &[T]) -> (r: boxed::Box<Vec<T>>)
        requires
            self.spec_layout()@.holds(LayoutView::array::<T>(slice@.len() as int)),
        ensures
            r.value()@ == slice@,
            r.spec_addr() == self.spec_addr(),
            r.spec_generation() == self.spec_generation(),
            r.spec_layout()@ == LayoutView::array::<T>(slice@.len() as int),
    {
        let element = Layout::new::<T>();
        proof {
            use_type_invariant(&self.layout);
            lemma_array_fits(self.layout@, element@, slice@.len() as int);
        }
        let len: usize = slice.len();
        let layout = Layout::array_unchecked::<T>(len);
        self.fits(layout);
        let mut values: Vec<T> = Vec::new();
        let mut copied: usize = 0;
        while copied < len
            invariant
                len == slice@.len(),
                copied <= len,
                values@ == slice@.subrange(0, copied as int),
            decreases len - copied,
        {
            values.push(slice[copied]);
            copied += 1;
            assert(values@ =~= slice@.subrange(0, copied as int));
        }
        assert(values@ =~= slice@);
        boxed::Box::from_raw(self.addr, layout, self.generation, values)
    }

    /// Copies the bytes of the text into the region and gives the handle to
    /// the text that they encode, which is the same text.
    pub fn copy_from_str(self, slice: &str) -> (r: boxed::Box<String>)
        requires
            self.spec_layout()@.holds(LayoutView::array::<u8>(encode_utf8(slice@).len() as int)),
        ensures
            r.value()@ == slice@,
            r.spec_addr() == self.spec_addr(),
            r.spec_generation() == self.spec_generation(),
            r.spec_layout()@ == LayoutView::array::<u8>(encode_utf8(slice@).len() as int),
    {
        broadcast use vstd::utf8::encode_utf8_valid_utf8, vstd::utf8::encode_utf8_decode_utf8;

        let bytes = self.copy_from_slice(slice.as_bytes());
        boxed::Box::from_utf8_unchecked(bytes)
    }

    /// Moves the values of the vector into the region, which leaves the
    /// vector empty, and gives the handle to them.
    pub fn append_from_vec<T>(self, vec: &mut Vec<T>) -> (r: boxed::Box<Vec<T>>)
        requires
            self.spec_layout()@.holds(LayoutView::array::<T>(old(vec)@.len() as int)),
        ensures
            r.value()@ == old(vec)@,
            final(vec)@ == Seq::<T>::empty(),
            r.spec_addr() == self.spec_addr(),
            r.spec_generation() == self.spec_generation(),
            r.spec_layout()@ == LayoutView::array::<T>(old(vec)@.len() as int),
    {
        let element = Layout::new::<T>();
        proof {
            use_type_invariant(&self.layout);
            lemma_array_fits(self.layout@, element@, vec@.len() as int);
        }
        let layout = Layout::array_unchecked::<T>(vec.len());
        self.fits(layout);
        let mut values: Vec<T> = Vec::new();
        values.append(vec);
        assert(values@ =~= old(vec)@);
        boxed::Box::from_raw(self.addr, layout, self.generation, values)
    }
}

} // verus!
