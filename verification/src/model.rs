//! The mathematical model of an arena: a chain of chunks over a linear
//! address space, and what reserving a region does to it.

use crate::align::{
    align_down, lemma_align_down_bounds, lemma_align_down_is_largest, lemma_multiple_transitive,
    lemma_multiples_add_sub, lemma_pow2_bits, lemma_pow2_divides, lemma_round_up_bounds,
    round_up,
};
use crate::layout::{lemma_padded_valid, LayoutView};
use vstd::arithmetic::power2::is_pow2;
use vstd::prelude::*;

verus! {

/// The lowest address that a chunk may occupy. Address zero stands for "no
/// address", so nothing is ever placed there.
pub const ORIGIN: usize = 4096;

/// The least alignment that the block of a chunk has: that of a machine word
/// of eight bytes.
pub const MIN_ALIGN: usize = 8;

/// The size of the header, the record of a chunk that stands at the bottom of
/// its block: five machine words of eight bytes, for the cursor, the start,
/// the size and the alignment of the block, and the link to the next chunk.
pub const HEADER_SIZE: usize = 40;

/// The alignment of the header.
pub const HEADER_ALIGN: usize = 8;

/// The capacity, in bytes, that the first chunk of an arena has at least,
/// unless the arena was built with a capacity of its own.
pub const DEFAULT_CAPACITY: usize = 2048;

/// The layout of the header.
pub open spec fn header() -> LayoutView {
    LayoutView { size: HEADER_SIZE as int, align: HEADER_ALIGN as int }
}

/// The mathematical content of a chunk: the block `[base, base + size)` of
/// the given layout, which begins with the header. Regions are handed out of
/// `[start, base + size)`, from the top downwards, and `[end, base + size)`
/// has been handed out.
pub struct ChunkView {
    pub base: int,
    pub start: int,
    pub end: int,
    pub layout: LayoutView,
}

impl ChunkView {
    /// The address just above the block.
    pub open spec fn top(self) -> int {
        self.base + self.layout.size
    }

    /// The number of bytes that the chunk can hand out in all.
    pub open spec fn capacity(self) -> int {
        self.top() - self.start
    }

    /// The block lies in the address space at an aligned address, and the
    /// cursor lies within the part of it that is handed out.
    pub open spec fn wf(self) -> bool {
        &&& self.layout.valid()
        &&& ORIGIN <= self.base
        &&& self.base % self.layout.align == 0
        &&& self.base <= self.start <= self.end <= self.top()
        &&& self.top() <= usize::MAX
    }

    /// The part that is handed out begins and ends at multiples of the
    /// alignment of the block, which is at least `MIN_ALIGN`.
    pub open spec fn aligned(self) -> bool {
        &&& self.start % self.layout.align == 0
        &&& self.capacity() % self.layout.align == 0
        &&& self.layout.align >= MIN_ALIGN
    }

    /// The address that a request of the given layout would get: the cursor
    /// lowered by the size, not below zero, then rounded down to the
    /// alignment.
    pub open spec fn alloc_addr(self, layout: LayoutView) -> int {
        align_down(
            if self.end >= layout.size {
                self.end - layout.size
            } else {
                0
            },
            layout.align,
        )
    }

    /// The chunk has room for a request of the given layout.
    pub open spec fn fits(self, layout: LayoutView) -> bool {
        self.alloc_addr(layout) >= self.start
    }

    /// The chunk after it has served a request of the given layout.
    pub open spec fn bumped(self, layout: LayoutView) -> ChunkView {
        ChunkView { end: self.alloc_addr(layout), ..self }
    }

    /// The chunk with everything that it handed out taken back.
    pub open spec fn rewound(self) -> ChunkView {
        ChunkView { end: self.top(), ..self }
    }

    /// The address `k` lies in the part of the block that has been handed out.
    pub open spec fn used(self, k: int) -> bool {
        self.end <= k < self.top()
    }
}

/// The chunk that stands at the head of an arena before it owns any block:
/// it has no capacity, so it serves no request that needs a byte.
pub open spec fn sentinel() -> ChunkView {
    ChunkView {
        base: ORIGIN as int,
        start: ORIGIN as int,
        end: ORIGIN as int,
        layout: LayoutView { size: 0, align: MIN_ALIGN as int },
    }
}

/// The head of a chain, which is listed from its oldest chunk to its newest:
/// the newest chunk, or the sentinel where there is none.
pub open spec fn head(chain: Seq<ChunkView>) -> ChunkView {
    if chain.len() == 0 {
        sentinel()
    } else {
        chain.last()
    }
}

/// `chunk` may stand in a chain right after `next`, to which it then links:
/// it lies above it, is at least twice as large and at least as aligned.
pub open spec fn linked(next: ChunkView, chunk: ChunkView) -> bool {
    &&& next.top() <= chunk.base
    &&& 2 * next.capacity() <= chunk.capacity()
    &&& next.layout.align <= chunk.layout.align
}

/// Every chunk of the chain is well formed and aligned, and each chunk is
/// linked to the one before it.
pub open spec fn chain_wf(chain: Seq<ChunkView>) -> bool {
    &&& forall|i: int| 0 <= i < chain.len() ==> (#[trigger] chain[i]).wf() && chain[i].aligned()
    &&& forall|i: int| 0 < i < chain.len() ==> linked(chain[i - 1], #[trigger] chain[i])
}

/// The address `k` has been handed out by some chunk of the chain.
pub open spec fn chain_used(chain: Seq<ChunkView>, k: int) -> bool {
    exists|i: int| 0 <= i < chain.len() && (#[trigger] chain[i]).used(k)
}

/// The region of the given layout at `addr` is one that the chain had not
/// handed out before and has handed out afterwards: it lies in the address
/// space above address zero, at a multiple of its alignment; none of its
/// bytes was in use in `before` and each of them is in `after`; and what was
/// in use in `before` still is in `after`.
pub open spec fn fresh_region(
    before: Seq<ChunkView>,
    after: Seq<ChunkView>,
    addr: int,
    layout: LayoutView,
) -> bool {
    &&& 0 < addr
    &&& addr + layout.size <= usize::MAX
    &&& addr % layout.align == 0
    &&& forall|k: int|
        addr <= k < addr + layout.size ==> !chain_used(before, k) && chain_used(after, k)
    &&& forall|k: int| chain_used(before, k) ==> chain_used(after, k)
}

/// The layout of the block that is asked for when the head cannot serve a
/// request of the given layout: large enough for the request, at least twice
/// the head (or the default capacity, where the head has none), and aligned
/// for both.
pub open spec fn grown_layout(head: ChunkView, layout: LayoutView) -> LayoutView {
    let doubled = if head.capacity() == 0 {
        DEFAULT_CAPACITY as int
    } else {
        2 * head.capacity()
    };
    LayoutView {
        size: if layout.size >= doubled {
            layout.size
        } else {
            doubled
        },
        align: if layout.align >= head.layout.align {
            layout.align
        } else {
            head.layout.align
        },
    }
}

/// A fresh chunk that can hand out what the given layout asks for. Its block
/// is the header followed by that layout, at the lowest aligned address that
/// is not below `floor`. There is none where header and layout together make
/// no valid layout, or where the block would end beyond the address space.
pub open spec fn placed(layout: LayoutView, floor: int) -> Option<ChunkView> {
    match header().extend(layout) {
        Some((block, offset)) => {
            let base = round_up(floor, block.align);
            if base + block.size <= usize::MAX {
                Some(
                    ChunkView {
                        base,
                        start: base + offset,
                        end: base + block.size,
                        layout: block,
                    },
                )
            } else {
                None
            }
        },
        None => None,
    }
}

/// The chunk that a chain grows by when its head cannot serve a request of
/// the given layout, if there is one.
pub open spec fn new_chunk(chain: Seq<ChunkView>, layout: LayoutView) -> Option<ChunkView> {
    let grown = grown_layout(head(chain), layout);
    if grown.valid() {
        placed(grown.padded(), head(chain).top())
    } else {
        None
    }
}

/// The chain with its head replaced by `chunk`. A chain without chunks, whose
/// head is the sentinel, stays as it is.
pub open spec fn with_head(chain: Seq<ChunkView>, chunk: ChunkView) -> Seq<ChunkView> {
    if chain.len() == 0 {
        chain
    } else {
        chain.update(chain.len() - 1, chunk)
    }
}

/// What reserving a region of the given layout does: the chain afterwards and
/// the address of the region, or `None` where the head has no room and the
/// chain cannot grow.
pub open spec fn chain_alloc(chain: Seq<ChunkView>, layout: LayoutView) -> Option<
    (Seq<ChunkView>, int),
> {
    if head(chain).fits(layout) {
        Some((with_head(chain, head(chain).bumped(layout)), head(chain).alloc_addr(layout)))
    } else {
        match new_chunk(chain, layout) {
            Some(chunk) => Some((chain.push(chunk.bumped(layout)), chunk.alloc_addr(layout))),
            None => None,
        }
    }
}

/// The number that an arena stamps on what it hands out after a reset, where
/// it stamped `generation` before. After `u64::MAX` the count begins anew.
pub open spec fn next_generation(generation: u64) -> u64 {
    if generation == u64::MAX {
        0
    } else {
        (generation + 1) as u64
    }
}

/// The chain after a reset: its head alone, with nothing handed out.
pub open spec fn chain_reset(chain: Seq<ChunkView>) -> Seq<ChunkView> {
    if chain.len() == 0 {
        chain
    } else {
        seq![chain.last().rewound()]
    }
}

/// The chain of an arena that is built with the given capacity, if its first
/// block can be had.
pub open spec fn chain_with_capacity(capacity: int) -> Option<Seq<ChunkView>> {
    let layout = LayoutView { size: capacity, align: MIN_ALIGN as int };
    if layout.valid() {
        match placed(layout.padded(), ORIGIN as int) {
            Some(chunk) => Some(seq![chunk]),
            None => None,
        }
    } else {
        None
    }
}

/// The chain after a region of the given layout has been asked for: as
/// [`chain_alloc`] says where it gives one, else unchanged.
pub open spec fn chain_after(chain: Seq<ChunkView>, layout: LayoutView) -> Seq<ChunkView> {
    match chain_alloc(chain, layout) {
        Some((after, _)) => after,
        None => chain,
    }
}

/// The address that the request at place `i` of a sequence of requests gets,
/// when the requests are made one after the other, starting from `chain`;
/// `None` where that request is not served.
pub open spec fn address_at(chain: Seq<ChunkView>, layouts: Seq<LayoutView>, i: int) -> Option<int>
    recommends
        0 <= i < layouts.len(),
    decreases i,
{
    if i <= 0 {
        match chain_alloc(chain, layouts[0]) {
            Some((_, addr)) => Some(addr),
            None => None,
        }
    } else {
        address_at(chain_after(chain, layouts[0]), layouts.drop_first(), i - 1)
    }
}

/// The chain after the requests of a sequence have been made one after the
/// other, starting from `chain`.
pub open spec fn chain_after_all(chain: Seq<ChunkView>, layouts: Seq<LayoutView>) -> Seq<
    ChunkView,
>
    decreases layouts.len(),
{
    if layouts.len() == 0 {
        chain
    } else {
        chain_after_all(chain_after(chain, layouts[0]), layouts.drop_first())
    }
}

/// The chunk that serves a request of the given layout: the head where it
/// has room, else the chunk that the chain grows by.
pub open spec fn serving_chunk(chain: Seq<ChunkView>, layout: LayoutView) -> Option<ChunkView> {
    if head(chain).fits(layout) {
        Some(head(chain))
    } else {
        new_chunk(chain, layout)
    }
}

/// The regions `[a, a + s)` and `[b, b + t)` have a byte in common: neither
/// is empty, and each begins below the end of the other.
pub open spec fn overlap(a: int, s: int, b: int, t: int) -> bool {
    s > 0 && t > 0 && a < b + t && b < a + s
}

/// The least alignment of a block is a power of two.
pub proof fn lemma_min_align_is_pow2()
    ensures
        is_pow2(MIN_ALIGN as int),
{
    assert(8usize & ((8usize - 1) as usize) == 0) by (bit_vector);
    lemma_pow2_bits(8usize);
}

/// The head of a well-formed chain, the sentinel too, is a well-formed and
/// aligned chunk.
pub proof fn lemma_head_wf(chain: Seq<ChunkView>)
    requires
        chain_wf(chain),
    ensures
        head(chain).wf(),
        head(chain).aligned(),
{
    lemma_min_align_is_pow2();
    assert(4096int % 8 == 0);
    assert(0int % 8 == 0);
    if chain.len() > 0 {
        assert(chain[chain.len() - 1].wf());
    }
}

/// A request that a well-formed chunk has room for lies between the start of
/// the chunk and its cursor, at an aligned address, and leaves the chunk well
/// formed.
pub proof fn lemma_fit_is_inside(chunk: ChunkView, layout: LayoutView)
    requires
        chunk.wf(),
        layout.valid(),
        chunk.fits(layout),
    ensures
        chunk.start <= chunk.alloc_addr(layout),
        chunk.alloc_addr(layout) + layout.size <= chunk.end,
        chunk.alloc_addr(layout) % layout.align == 0,
        chunk.bumped(layout).wf(),
{
    lemma_pow2_divides(layout.align, layout.align);
    if chunk.end >= layout.size {
        lemma_align_down_bounds(chunk.end - layout.size, layout.align);
    } else {
        lemma_align_down_bounds(0, layout.align);
    }
}

/// A chunk that is placed over a floor at or above `ORIGIN` is well formed
/// and lies at or above the floor. It has handed out nothing, it can hand
/// out exactly what the layout asks for, from a start that is a multiple of
/// the alignment asked for, and its block is aligned for header and layout.
pub proof fn lemma_placed_is_wf(layout: LayoutView, floor: int)
    requires
        layout.valid(),
        ORIGIN <= floor,
    ensures
        match placed(layout, floor) {
            Some(chunk) => {
                &&& chunk.wf()
                &&& floor <= chunk.base
                &&& chunk.end == chunk.top()
                &&& chunk.capacity() == layout.size
                &&& chunk.start % layout.align == 0
                &&& chunk.layout.align >= layout.align
                &&& chunk.layout.align >= HEADER_ALIGN
                &&& layout.align >= HEADER_ALIGN ==> chunk.layout.align == layout.align
            },
            None => true,
        },
{
    if let Some((block, offset)) = header().extend(layout) {
        let base = round_up(floor, block.align);
        lemma_pow2_divides(block.align, block.align);
        lemma_pow2_divides(layout.align, block.align);
        lemma_round_up_bounds(floor, block.align);
        lemma_round_up_bounds(HEADER_SIZE as int, layout.align);
        lemma_multiple_transitive(base, block.align, layout.align);
        lemma_multiples_add_sub(base, offset, layout.align);
    }
}

/// A chunk that was placed for a grown, padded layout has room for the
/// request that it was grown for.
pub proof fn lemma_new_chunk_fits(chain: Seq<ChunkView>, layout: LayoutView)
    requires
        chain_wf(chain),
        layout.valid(),
    ensures
        match new_chunk(chain, layout) {
            Some(chunk) => {
                &&& chunk.wf()
                &&& chunk.aligned()
                &&& chunk.fits(layout)
                &&& chunk.end == chunk.top()
                &&& chunk.capacity() >= layout.size
                &&& linked(head(chain), chunk)
                &&& chain_wf(chain.push(chunk))
            },
            None => true,
        },
{
    let h = head(chain);
    lemma_head_wf(chain);
    let grown = grown_layout(h, layout);
    if grown.valid() {
        lemma_padded_valid(grown);
        lemma_placed_is_wf(grown.padded(), h.top());
        if let Some(chunk) = placed(grown.padded(), h.top()) {
            let a = layout.align;
            let big = chunk.layout.align;
            assert(big == grown.align);
            lemma_pow2_divides(a, big);
            lemma_multiple_transitive(chunk.start, big, a);
            lemma_multiple_transitive(chunk.capacity(), big, a);
            lemma_multiples_add_sub(chunk.start, chunk.capacity(), a);
            // the top is a multiple of the request's alignment, and so is the start
            assert(chunk.end - layout.size >= chunk.start);
            lemma_align_down_is_largest(chunk.end - layout.size, a, chunk.start);
            let longer = chain.push(chunk);
            assert forall|i: int| 0 < i < longer.len() implies linked(
                longer[i - 1],
                #[trigger] longer[i],
            ) by {
                if i < chain.len() {
                    assert(longer[i] == chain[i]);
                    assert(longer[i - 1] == chain[i - 1]);
                }
            }
            assert forall|i: int| 0 <= i < longer.len() implies (#[trigger] longer[i]).wf()
                && longer[i].aligned() by {
                if i < chain.len() {
                    assert(longer[i] == chain[i]);
                }
            }
        }
    }
}

/// A well-formed chain stays so when its head hands out a region or takes
/// everything back: the block of the head stays what it is.
pub proof fn lemma_with_head_wf(chain: Seq<ChunkView>, chunk: ChunkView)
    requires
        chain_wf(chain),
        chunk.wf(),
        chunk.base == head(chain).base,
        chunk.start == head(chain).start,
        chunk.layout == head(chain).layout,
    ensures
        chain_wf(with_head(chain, chunk)),
{
    let after = with_head(chain, chunk);
    if chain.len() > 0 {
        assert forall|i: int| 0 < i < after.len() implies linked(
            after[i - 1],
            #[trigger] after[i],
        ) by {
            assert(linked(chain[i - 1], chain[i]));
        }
        assert forall|i: int| 0 <= i < after.len() implies (#[trigger] after[i]).wf()
            && after[i].aligned() by {
            assert(chain[i].wf());
        }
    }
}

/// A reset leaves a well-formed chain.
pub proof fn lemma_reset_wf(chain: Seq<ChunkView>)
    requires
        chain_wf(chain),
    ensures
        chain_wf(chain_reset(chain)),
{
    if chain.len() > 0 {
        assert(chain.last().wf());
    }
}

} // verus!
