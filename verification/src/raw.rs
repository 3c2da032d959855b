//! The untyped arena: a chain of chunks, each a block with a cursor that
//! moves downwards as regions are handed out.

use crate::align::{
    lemma_align_down_is_largest, lemma_mask_is_align_down, lemma_pow2_divides,
    lemma_round_up_bounds,
};
use crate::layout::{
    lemma_padded_valid, lemma_pow2_word_bound, lemma_size_limit_is_pow2, Layout, LayoutView,
};
use crate::laws::lemma_alloc_is_fresh;
use crate::model::{
    chain_alloc, chain_reset, chain_wf, chain_with_capacity, fresh_region, head, header,
    lemma_fit_is_inside, lemma_head_wf, lemma_min_align_is_pow2, lemma_new_chunk_fits,
    lemma_placed_is_wf, lemma_reset_wf, lemma_with_head_wf, new_chunk, next_generation, placed,
    sentinel,
    with_head, ChunkView, DEFAULT_CAPACITY, HEADER_ALIGN, HEADER_SIZE, MIN_ALIGN, ORIGIN,
};
use vstd::arithmetic::power2::is_pow2;
use vstd::prelude::*;

verus! {

/// A block of the address space with a cursor. The block begins with the
/// header of the chunk; what lies between the cursor and the top of the
/// block has been handed out.
#[derive(Clone, Copy, Debug)]
pub struct Chunk {
    end: usize,
    start: usize,
    base: usize,
    layout: Layout,
}

impl View for Chunk {
    type V = ChunkView;

    closed spec fn view(&self) -> ChunkView {
        ChunkView {
            base: self.base as int,
            start: self.start as int,
            end: self.end as int,
            layout: self.layout@,
        }
    }
}

impl Chunk {
    /// Every chunk is well formed.
    #[verifier::type_invariant]
    pub open spec fn inv(self) -> bool {
        self@.wf()
    }

    /// The chunk without capacity that heads an arena which owns no block.
    pub fn empty() -> (chunk: Chunk)
        ensures
            chunk@ == sentinel(),
            chunk@.wf(),
    {
        proof {
            lemma_min_align_is_pow2();
            assert(4096int % 8 == 0);
        }
        Chunk {
            end: ORIGIN,
            start: ORIGIN,
            base: ORIGIN,
            layout: Layout::from_size_align_unchecked(0, MIN_ALIGN),
        }
    }

    /// The lowest address of the block, where its header stands.
    pub fn base(&self) -> (base: usize)
        ensures
            base == self@.base,
    {
        self.base
    }

    /// The number of bytes that the chunk can hand out in all.
    pub fn capacity(&self) -> (capacity: usize)
        ensures
            capacity == self@.capacity(),
    {
        proof {
            use_type_invariant(self);
        }
        self.base + self.layout.size() - self.start
    }

    /// The lowest address that the chunk can hand out.
    pub fn start(&self) -> (start: usize)
        ensures
            start == self@.start,
    {
        self.start
    }

    /// The cursor: the lowest address that has been handed out, or the top
    /// of the block where none has.
    pub fn end(&self) -> (end: usize)
        ensures
            end == self@.end,
    {
        self.end
    }

    /// The layout of the block.
    pub fn layout(&self) -> (layout: Layout)
        ensures
            layout@ == self@.layout,
    {
        self.layout
    }

    /// The address that a request of the given layout would get from this
    /// chunk, whether or not the chunk has room for it.
    pub fn calculate_alloc_ptr(&self, layout: Layout) -> (addr: usize)
        ensures
            addr == self@.alloc_addr(layout@),
    {
        let unaligned: usize = self.end.saturating_sub(layout.size());
        let align: usize = layout.align();
        proof {
            lemma_mask_is_align_down(unaligned, align);
        }
        unaligned & !(align - 1)
    }

    /// Reserves a region of the given layout that the chunk is known to have
    /// room for, and gives its address.
    pub fn alloc_layout_unchecked(&mut self, layout: Layout) -> (addr: usize)
        requires
            old(self)@.fits(layout@),
        ensures
            addr == old(self)@.alloc_addr(layout@),
            final(self)@ == old(self)@.bumped(layout@),
            final(self)@.wf(),
            old(self)@.start <= addr,
            addr + layout@.size <= old(self)@.end,
            addr as int % layout@.align == 0,
    {
        proof {
            use_type_invariant(&*self);
            use_type_invariant(&layout);
            lemma_fit_is_inside(self@, layout@);
        }
        let addr: usize = self.calculate_alloc_ptr(layout);
        self.end = addr;
        addr
    }

    /// Reserves a region of the given layout if the chunk has room for it,
    /// and gives its address. A chunk without room stays as it is.
    pub fn alloc_layout(&mut self, layout: Layout) -> (r: Option<usize>)
        ensures
            match r {
                Some(addr) => {
                    &&& old(self)@.fits(layout@)
                    &&& addr == old(self)@.alloc_addr(layout@)
                    &&& final(self)@ == old(self)@.bumped(layout@)
                    &&& old(self)@.start <= addr
                    &&& addr + layout@.size <= old(self)@.end
                    &&& addr as int % layout@.align == 0
                },
                None => !old(self)@.fits(layout@) && final(self)@ == old(self)@,
            },
            final(self)@.wf(),
    {
        proof {
            use_type_invariant(&*self);
            use_type_invariant(&layout);
        }
        let addr: usize = self.calculate_alloc_ptr(layout);
        if addr >= self.start {
            proof {
                lemma_fit_is_inside(self@, layout@);
            }
            self.end = addr;
            Some(addr)
        } else {
            None
        }
    }
}

/// The layout of the header, which begins the block of every chunk.
pub fn header_layout() -> (layout: Layout)
    ensures
        layout@ == header(),
{
    proof {
        lemma_min_align_is_pow2();
    }
    Layout::from_size_align_unchecked(HEADER_SIZE, HEADER_ALIGN)
}

/// Makes a fresh chunk that can hand out what the given layout asks for. Its
/// block, the header followed by that layout, lies above `next`, the chunk
/// that it will link to, or at the bottom of the address space where there
/// is none. There is no chunk where header and layout together make no valid
/// layout, or where the block would end beyond the address space.
pub fn create_chunk(layout: Layout, next: Option<&Chunk>) -> (r: Option<Chunk>)
    ensures
        match placed(
            layout@,
            match next {
                Some(chunk) => chunk@.top(),
                None => ORIGIN as int,
            },
        ) {
            Some(chunk) => r matches Some(made) && made@ == chunk && made@.wf(),
            None => r is None,
        },
{
    proof {
        use_type_invariant(&layout);
        if let Some(chunk) = next {
            use_type_invariant(chunk);
        }
    }
    let floor: usize = match next {
        Some(chunk) => chunk.base + chunk.layout.size(),
        None => ORIGIN,
    };
    let (block, offset) = match header_layout().extend(layout) {
        Ok(made) => made,
        Err(_) => {
            return None;
        },
    };
    let align: usize = block.align();
    let size: usize = block.size();
    proof {
        lemma_pow2_word_bound(align);
        lemma_placed_is_wf(layout@, floor as int);
        lemma_round_up_bounds(floor as int, align as int);
        if floor + (align - 1) > usize::MAX {
            lemma_size_limit_is_pow2();
            assert(is_pow2(usize::MAX + 1)) by {
                reveal(is_pow2);
                assert(usize::MAX + 1 == 2 * (isize::MAX + 1));
            }
            lemma_pow2_divides(align as int, usize::MAX + 1);
            lemma_align_down_is_largest(floor + align - 1, align as int, usize::MAX + 1);
        }
    }
    let low: usize = align - 1;
    match floor.checked_add(low) {
        None => None,
        Some(sum) => {
            proof {
                lemma_mask_is_align_down(sum, align);
            }
            let base: usize = sum & !low;
            match base.checked_add(size) {
                None => None,
                Some(top) => Some(Chunk { end: top, start: base + offset, base, layout: block }),
            }
        },
    }
}

/// Gives back the blocks of a chain, from its newest chunk to its oldest, and
/// leaves the chain without chunks. The result lists, in that order, the
/// address and the layout of each block that was given back.
pub fn free_chunk_list(chain: &mut Vec<Chunk>) -> (freed: Vec<(usize, Layout)>)
    ensures
        final(chain)@.len() == 0,
        freed@.len() == old(chain)@.len(),
        forall|i: int|
            0 <= i < freed@.len() ==> {
                &&& (#[trigger] freed@[i]).0 == old(chain)@[old(chain)@.len() - 1 - i]@.base
                &&& freed@[i].1@ == old(chain)@[old(chain)@.len() - 1 - i]@.layout
            },
{
    let mut freed: Vec<(usize, Layout)> = Vec::new();
    loop
        invariant
            chain@.len() + freed@.len() == old(chain)@.len(),
            chain@ == old(chain)@.subrange(0, chain@.len() as int),
            forall|i: int|
                0 <= i < freed@.len() ==> {
                    &&& (#[trigger] freed@[i]).0 == old(chain)@[old(chain)@.len() - 1 - i]@.base
                    &&& freed@[i].1@ == old(chain)@[old(chain)@.len() - 1 - i]@.layout
                },
        ensures
            chain@.len() == 0,
            freed@.len() == old(chain)@.len(),
        decreases chain@.len(),
    {
        match chain.pop() {
            Some(chunk) => {
                freed.push((chunk.base, chunk.layout));
            },
            None => {
                break ;
            },
        }
    }
    freed
}

/// An arena of untyped regions: a chain of chunks, of which the newest, the
/// head, serves the requests. When the head has no room, the chain grows by a
/// chunk of at least twice its capacity.
///
/// An arena counts its resets. What it hands out can be stamped with the
/// count, the generation, so that a stamp from before a reset can be told
/// from a current one.
#[derive(Debug)]
pub struct Bump {
    chunks: Vec<Chunk>,
    generation: u64,
}

impl View for Bump {
    type V = Seq<ChunkView>;

    /// The chain, from its oldest chunk to its head.
    closed spec fn view(&self) -> Seq<ChunkView> {
        self.chunks@.map_values(|chunk: Chunk| chunk@)
    }
}

impl Default for Bump {
    fn default() -> (bump: Bump)
        ensures
            bump@ == Seq::<ChunkView>::empty(),
            chain_wf(bump@),
            bump.spec_generation() == 0,
    {
        Bump::new()
    }
}

impl Bump {
    /// The chain of every arena is well formed.
    #[verifier::type_invariant]
    pub open spec fn inv(self) -> bool {
        chain_wf(self@)
    }

    /// The number of resets so far, counted up to `u64::MAX` and then anew.
    pub closed spec fn spec_generation(&self) -> u64 {
        self.generation
    }

    /// The number of resets so far, counted up to `u64::MAX` and then anew.
    #[verifier::when_used_as_spec(spec_generation)]
    pub fn generation(&self) -> (generation: u64)
        ensures
            generation == self.spec_generation(),
    {
        self.generation
    }

    /// An arena that owns no block yet. Its first chunk is made when the
    /// first region that needs one is reserved.
    pub fn new() -> (bump: Bump)
        ensures
            bump@ == Seq::<ChunkView>::empty(),
            chain_wf(bump@),
            bump.spec_generation() == 0,
    {
        let bump = Bump { chunks: Vec::new(), generation: 0 };
        assert(bump@ =~= Seq::<ChunkView>::empty());
        bump
    }

    /// An arena whose first chunk has the given capacity, rounded up to
    /// `MIN_ALIGN`, or `None` where no such block can be had.
    pub fn try_with_capacity(capacity: usize) -> (r: Option<Bump>)
        ensures
            match chain_with_capacity(capacity as int) {
                Some(chain) => r matches Some(bump) && bump@ == chain && chain_wf(bump@)
                    && bump.spec_generation() == 0,
                None => r is None,
            },
    {
        let layout = match Layout::from_size_align(capacity, MIN_ALIGN) {
            Ok(layout) => layout.pad_to_align(),
            Err(_) => {
                return None;
            },
        };
        proof {
            lemma_padded_valid(LayoutView { size: capacity as int, align: MIN_ALIGN as int });
            lemma_placed_is_wf(layout@, ORIGIN as int);
        }
        match create_chunk(layout, None) {
            Some(chunk) => {
                let mut chunks: Vec<Chunk> = Vec::new();
                chunks.push(chunk);
                let bump = Bump { chunks, generation: 0 };
                assert(bump@ =~= seq![chunk@]);
                Some(bump)
            },
            None => None,
        }
    }

    /// An arena whose first chunk has the given capacity, rounded up to
    /// `MIN_ALIGN`.
    pub fn with_capacity(capacity: usize) -> (bump: Bump)
        requires
            chain_with_capacity(capacity as int) is Some,
        ensures
            Some(bump@) == chain_with_capacity(capacity as int),
            chain_wf(bump@),
            bump.spec_generation() == 0,
    {
        Bump::try_with_capacity(capacity).unwrap()
    }

    /// The number of chunks in the chain.
    pub fn chunk_count(&self) -> (n: usize)
        ensures
            n == self@.len(),
    {
        self.chunks.len()
    }

    /// The head of the chain: its newest chunk, or the chunk without
    /// capacity where the arena owns no block.
    pub fn head(&self) -> (chunk: Chunk)
        ensures
            chunk@ == head(self@),
    {
        let n: usize = self.chunks.len();
        if n == 0 {
            Chunk::empty()
        } else {
            self.chunks[n - 1]
        }
    }

    /// Replaces the head of a chain that has one.
    fn set_head(&mut self, chunk: Chunk)
        requires
            old(self)@.len() > 0,
            chunk@.base == head(old(self)@).base,
            chunk@.start == head(old(self)@).start,
            chunk@.layout == head(old(self)@).layout,
        ensures
            final(self)@ == with_head(old(self)@, chunk@),
            final(self).spec_generation() == old(self).spec_generation(),
    {
        proof {
            use_type_invariant(&*self);
            use_type_invariant(&chunk);
            lemma_with_head_wf(self@, chunk@);
        }
        let mut chunks: Vec<Chunk> = Vec::new();
        core::mem::swap(&mut self.chunks, &mut chunks);
        let _ = chunks.pop();
        chunks.push(chunk);
        proof {
            assert(chunks@.map_values(|c: Chunk| c@) =~= with_head(old(self)@, chunk@));
        }
        core::mem::swap(&mut self.chunks, &mut chunks);
    }

    /// Reserves a region of the given layout in the head, if the head has
    /// room for it. Otherwise the arena stays as it is.
    pub fn try_alloc_layout_fast(&mut self, layout: Layout) -> (r: Option<usize>)
        ensures
            chain_wf(final(self)@),
            final(self).spec_generation() == old(self).spec_generation(),
            match r {
                Some(addr) => {
                    &&& head(old(self)@).fits(layout@)
                    &&& addr == head(old(self)@).alloc_addr(layout@)
                    &&& final(self)@ == with_head(old(self)@, head(old(self)@).bumped(layout@))
                },
                None => !head(old(self)@).fits(layout@) && final(self)@ == old(self)@,
            },
    {
        proof {
            use_type_invariant(&*self);
        }
        let mut chunk = self.head();
        let r = chunk.alloc_layout(layout);
        if r.is_some() && self.chunks.len() > 0 {
            self.set_head(chunk);
        }
        r
    }

    /// The chunk that the chain would grow by to serve a request of the
    /// given layout, if such a block can be had. The arena stays as it is.
    pub fn next_chunk(&self, layout: Layout) -> (r: Option<Chunk>)
        ensures
            match new_chunk(self@, layout@) {
                Some(chunk) => r matches Some(made) && made@ == chunk,
                None => r is None,
            },
    {
        let chunk = self.head();
        let held_align: usize = chunk.layout.align();
        proof {
            use_type_invariant(self);
            use_type_invariant(&layout);
            lemma_head_wf(self@);
            lemma_pow2_word_bound(held_align);
        }
        let held: usize = chunk.capacity();
        let doubled: usize = if held == 0 {
            DEFAULT_CAPACITY
        } else {
            held * 2
        };
        let size: usize = if layout.size() >= doubled {
            layout.size()
        } else {
            doubled
        };
        let align: usize = if layout.align() >= held_align {
            layout.align()
        } else {
            held_align
        };
        match Layout::from_size_align(size, align) {
            Ok(grown) => create_chunk(grown.pad_to_align(), Some(&chunk)),
            Err(_) => None,
        }
    }

    /// Whether the chain can grow by a chunk that serves a request of the
    /// given layout.
    pub fn can_grow(&self, layout: Layout) -> (b: bool)
        ensures
            b == (new_chunk(self@, layout@) is Some),
    {
        self.next_chunk(layout).is_some()
    }

    /// Whether a region of the given layout can be reserved: the head has
    /// room for it, or the chain can grow by a chunk that has.
    pub fn can_alloc(&self, layout: Layout) -> (b: bool)
        ensures
            b == (chain_alloc(self@, layout@) is Some),
    {
        let chunk = self.head();
        chunk.calculate_alloc_ptr(layout) >= chunk.start() || self.can_grow(layout)
    }

    /// Grows the chain by a chunk that has room for a request of the given
    /// layout, if such a block can be had. Otherwise the arena stays as it is.
    pub fn try_new_chunk(&mut self, layout: Layout) -> (r: Option<()>)
        ensures
            chain_wf(final(self)@),
            final(self).spec_generation() == old(self).spec_generation(),
            match new_chunk(old(self)@, layout@) {
                Some(chunk) => r is Some && final(self)@ == old(self)@.push(chunk),
                None => r is None && final(self)@ == old(self)@,
            },
    {
        proof {
            use_type_invariant(&*self);
            use_type_invariant(&layout);
            lemma_new_chunk_fits(self@, layout@);
        }
        match self.next_chunk(layout) {
            Some(made) => {
                let mut chunks: Vec<Chunk> = Vec::new();
                core::mem::swap(&mut self.chunks, &mut chunks);
                chunks.push(made);
                proof {
                    assert(chunks@.map_values(|c: Chunk| c@) =~= old(self)@.push(made@));
                }
                core::mem::swap(&mut self.chunks, &mut chunks);
                Some(())
            },
            None => None,
        }
    }

    /// Grows the chain by a chunk and reserves a region of the given layout
    /// in it, if such a block can be had. Otherwise the arena stays as it is.
    pub fn try_alloc_layout_slow(&mut self, layout: Layout) -> (r: Option<usize>)
        ensures
            chain_wf(final(self)@),
            final(self).spec_generation() == old(self).spec_generation(),
            match new_chunk(old(self)@, layout@) {
                Some(chunk) => {
                    &&& r == Some(chunk.alloc_addr(layout@) as usize)
                    &&& chunk.alloc_addr(layout@) as usize == chunk.alloc_addr(layout@)
                    &&& final(self)@ == old(self)@.push(chunk.bumped(layout@))
                },
                None => r is None && final(self)@ == old(self)@,
            },
    {
        proof {
            use_type_invariant(&*self);
            use_type_invariant(&layout);
            lemma_new_chunk_fits(self@, layout@);
        }
        match self.try_new_chunk(layout) {
            Some(_) => {
                let mut chunk = self.head();
                let addr: usize = chunk.alloc_layout_unchecked(layout);
                self.set_head(chunk);
                assert(self@ =~= old(self)@.push(chunk@));
                Some(addr)
            },
            None => None,
        }
    }

    /// Reserves a region of the given layout and gives its address: in the
    /// head where it has room, else in a chunk that the chain grows by.
    /// Where no such block can be had, the result is `None` and the arena
    /// stays as it is.
    pub fn try_alloc_layout(&mut self, layout: Layout) -> (r: Option<usize>)
        ensures
            chain_wf(final(self)@),
            final(self).spec_generation() == old(self).spec_generation(),
            match chain_alloc(old(self)@, layout@) {
                Some((chain, addr)) => r == Some(addr as usize) && addr as usize == addr
                    && final(self)@ == chain,
                None => r is None && final(self)@ == old(self)@,
            },
            r matches Some(addr) ==> fresh_region(old(self)@, final(self)@, addr as int, layout@),
    {
        proof {
            use_type_invariant(&*self);
            use_type_invariant(&layout);
            if chain_alloc(self@, layout@) is Some {
                lemma_alloc_is_fresh(self@, layout@);
            }
        }
        match self.try_alloc_layout_fast(layout) {
            Some(addr) => Some(addr),
            None => self.try_alloc_layout_slow(layout),
        }
    }

    /// Grows the chain by a chunk and reserves a region of the given layout
    /// in it.
    pub fn alloc_layout_slow(&mut self, layout: Layout) -> (addr: usize)
        requires
            new_chunk(old(self)@, layout@) is Some,
        ensures
            chain_wf(final(self)@),
            final(self).spec_generation() == old(self).spec_generation(),
            match new_chunk(old(self)@, layout@) {
                Some(chunk) => addr == chunk.alloc_addr(layout@) && final(self)@ == old(
                    self,
                )@.push(chunk.bumped(layout@)),
                None => false,
            },
    {
        self.try_alloc_layout_slow(layout).unwrap()
    }

    /// Reserves a region of the given layout and gives its address: in the
    /// head where it has room, else in a chunk that the chain grows by.
    pub fn alloc_layout(&mut self, layout: Layout) -> (addr: usize)
        requires
            chain_alloc(old(self)@, layout@) is Some,
        ensures
            chain_wf(final(self)@),
            final(self).spec_generation() == old(self).spec_generation(),
            chain_alloc(old(self)@, layout@) == Some((final(self)@, addr as int)),
            fresh_region(old(self)@, final(self)@, addr as int, layout@),
    {
        proof {
            use_type_invariant(&*self);
            use_type_invariant(&layout);
            lemma_alloc_is_fresh(self@, layout@);
        }
        match self.try_alloc_layout_fast(layout) {
            Some(addr) => addr,
            None => self.alloc_layout_slow(layout),
        }
    }

    /// Gives back every block but that of the head, and takes back
    /// everything that the head handed out. The head keeps its block, so the
    /// capacity that the arena grew to stays.
    pub fn reset(&mut self)
        ensures
            chain_wf(final(self)@),
            final(self)@ == chain_reset(old(self)@),
            final(self).spec_generation() == next_generation(old(self).spec_generation()),
    {
        proof {
            use_type_invariant(&*self);
        }
        self.generation = if self.generation == u64::MAX {
            0
        } else {
            self.generation + 1
        };
        let mut chunks: Vec<Chunk> = Vec::new();
        core::mem::swap(&mut self.chunks, &mut chunks);
        match chunks.pop() {
            Some(mut chunk) => {
                proof {
                    let last = old(self)@.len() - 1;
                    assert(chunk@ == old(self)@[last]);
                    use_type_invariant(&chunk);
                    lemma_reset_wf(old(self)@);
                }
                let _ = free_chunk_list(&mut chunks);
                chunk.end = chunk.base + chunk.layout.size();
                chunks.push(chunk);
                proof {
                    assert(chunks@.map_values(|c: Chunk| c@) =~= chain_reset(old(self)@));
                }
                core::mem::swap(&mut self.chunks, &mut chunks);
            },
            None => {},
        }
    }

    /// Gives back every block of the arena, the head's too, and with them
    /// the arena. The result lists the address and the layout of each block,
    /// from the head to the oldest chunk.
    pub fn release(self) -> (freed: Vec<(usize, Layout)>)
        ensures
            freed@.len() == self@.len(),
            forall|i: int|
                0 <= i < freed@.len() ==> {
                    &&& (#[trigger] freed@[i]).0 == self@[self@.len() - 1 - i].base
                    &&& freed@[i].1@ == self@[self@.len() - 1 - i].layout
                },
    {
        let mut chunks = self.chunks;
        free_chunk_list(&mut chunks)
    }

    /// The chunk at the given place in the chain, counted from the oldest.
    pub fn chunk(&self, index: usize) -> (r: Option<Chunk>)
        ensures
            match r {
                Some(chunk) => index < self@.len() && chunk@ == self@[index as int],
                None => index >= self@.len(),
            },
    {
        if index < self.chunks.len() {
            Some(self.chunks[index])
        } else {
            None
        }
    }
}

} // verus!
