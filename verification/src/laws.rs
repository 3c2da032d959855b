//! What holds of every arena: the regions that it hands out are aligned and
//! apart, a reset keeps the capacity that the arena grew to, and each chunk
//! is at least twice as large as the one before it.

use crate::align::{
    lemma_align_down_is_largest, lemma_align_down_monotone, lemma_multiple_transitive,
    lemma_multiples_add_sub, lemma_pow2_divides,
};
use crate::layout::{lemma_padded_valid, LayoutView};
use crate::model::{
    address_at, chain_after, chain_after_all, chain_alloc, chain_reset, chain_used, chain_wf,
    fresh_region, grown_layout, head, lemma_fit_is_inside, lemma_head_wf, lemma_new_chunk_fits,
    lemma_reset_wf, lemma_with_head_wf, linked, new_chunk, overlap, serving_chunk, with_head, ChunkView,
};
use vstd::arithmetic::power2::{is_pow2, pow2};
use vstd::utf8::{decode_utf8, encode_utf8, valid_utf8};
use vstd::prelude::*;

verus! {

/// In a well-formed chain every chunk lies below the chunks that were made
/// after it.
pub proof fn lemma_chain_ordered(chain: Seq<ChunkView>, i: int, j: int)
    requires
        chain_wf(chain),
        0 <= i < j < chain.len(),
    ensures
        chain[i].top() <= chain[j].start,
    decreases j - i,
{
    assert(linked(chain[j - 1], chain[j]));
    assert(chain[j - 1].wf());
    if i < j - 1 {
        lemma_chain_ordered(chain, i, j - 1);
    }
}

/// Reserving a region leaves the chain well formed. The region is aligned as
/// asked, none of its bytes had been handed out before, all of them have been
/// afterwards, and what had been handed out before still is.
pub proof fn lemma_alloc_is_fresh(chain: Seq<ChunkView>, layout: LayoutView)
    requires
        chain_wf(chain),
        layout.valid(),
        chain_alloc(chain, layout) is Some,
    ensures
        ({
            let (after, addr) = chain_alloc(chain, layout)->0;
            &&& chain_wf(after)
            &&& fresh_region(chain, after, addr, layout)
        }),
{
    let (after, addr) = chain_alloc(chain, layout)->0;
    let h = head(chain);
    lemma_head_wf(chain);
    if h.fits(layout) {
        lemma_fit_is_inside(h, layout);
        lemma_with_head_wf(chain, h.bumped(layout));
        let last = chain.len() - 1;
        assert forall|k: int| addr <= k < addr + layout.size implies !chain_used(chain, k)
            && chain_used(after, k) by {
            // the sentinel has no byte to hand out, so the chain has a chunk here
            assert(chain.len() > 0);
            assert(after[last].used(k));
            assert forall|i: int| 0 <= i < chain.len() implies !(#[trigger] chain[i]).used(k) by {
                if i < last {
                    lemma_chain_ordered(chain, i, last);
                }
            }
        }
        assert forall|k: int| chain_used(chain, k) implies chain_used(after, k) by {
            let i = choose|i: int| 0 <= i < chain.len() && (#[trigger] chain[i]).used(k);
            assert(after[i].used(k));
        }
    } else {
        lemma_new_chunk_fits(chain, layout);
        let chunk = new_chunk(chain, layout)->0;
        lemma_fit_is_inside(chunk, layout);
        lemma_with_head_wf(chain.push(chunk), chunk.bumped(layout));
        assert(with_head(chain.push(chunk), chunk.bumped(layout)) =~= after);
        let last = chain.len() as int;
        assert forall|k: int| addr <= k < addr + layout.size implies !chain_used(chain, k)
            && chain_used(after, k) by {
            assert(after[last].used(k));
            assert forall|i: int| 0 <= i < chain.len() implies !(#[trigger] chain[i]).used(k) by {
                if i < chain.len() - 1 {
                    lemma_chain_ordered(chain, i, chain.len() - 1);
                }
            }
        }
        assert forall|k: int| chain_used(chain, k) implies chain_used(after, k) by {
            let i = choose|i: int| 0 <= i < chain.len() && (#[trigger] chain[i]).used(k);
            assert(after[i] == chain[i]);
            assert(after[i].used(k));
        }
    }
}

/// The region that a request gets lies in the chunk that serves it, between
/// the start of that chunk and the place where its cursor stood, and the
/// cursor stands at the region afterwards.
pub proof fn lemma_alloc_is_inside(chain: Seq<ChunkView>, layout: LayoutView)
    requires
        chain_wf(chain),
        layout.valid(),
        chain_alloc(chain, layout) is Some,
    ensures
        ({
            let (after, addr) = chain_alloc(chain, layout)->0;
            let served = serving_chunk(chain, layout)->0;
            &&& serving_chunk(chain, layout) is Some
            &&& served.start <= addr
            &&& addr + layout.size <= served.end
            &&& layout.size > 0 ==> addr < served.end
            &&& head(after) == served.bumped(layout)
            &&& head(after).end == addr
        }),
{
    lemma_head_wf(chain);
    if head(chain).fits(layout) {
        lemma_fit_is_inside(head(chain), layout);
    } else {
        lemma_new_chunk_fits(chain, layout);
        lemma_fit_is_inside(new_chunk(chain, layout)->0, layout);
    }
}

/// A chain stays well formed whether or not a request is served.
pub proof fn lemma_chain_after_wf(chain: Seq<ChunkView>, layout: LayoutView)
    requires
        chain_wf(chain),
        layout.valid(),
    ensures
        chain_wf(chain_after(chain, layout)),
        forall|k: int| chain_used(chain, k) ==> chain_used(chain_after(chain, layout), k),
{
    if chain_alloc(chain, layout) is Some {
        lemma_alloc_is_fresh(chain, layout);
    }
}

/// Whatever a sequence of requests is given, now or later, is aligned as
/// asked and had not been handed out when the sequence began.
pub proof fn lemma_addresses_are_fresh(chain: Seq<ChunkView>, layouts: Seq<LayoutView>, j: int)
    requires
        chain_wf(chain),
        forall|n: int| 0 <= n < layouts.len() ==> (#[trigger] layouts[n]).valid(),
        0 <= j < layouts.len(),
        address_at(chain, layouts, j) is Some,
    ensures
        address_at(chain, layouts, j)->0 % layouts[j].align == 0,
        forall|k: int|
            address_at(chain, layouts, j)->0 <= k < address_at(chain, layouts, j)->0
                + layouts[j].size ==> !chain_used(chain, k),
    decreases j,
{
    if j == 0 {
        lemma_alloc_is_fresh(chain, layouts[0]);
    } else {
        let after = chain_after(chain, layouts[0]);
        let rest = layouts.drop_first();
        lemma_chain_after_wf(chain, layouts[0]);
        assert forall|n: int| 0 <= n < rest.len() implies (#[trigger] rest[n]).valid() by {
            assert(rest[n] == layouts[n + 1]);
        }
        assert(rest[j - 1] == layouts[j]);
        lemma_addresses_are_fresh(after, rest, j - 1);
    }
}

/// The regions that an arena hands out, one request after the other, are
/// pairwise apart, and each begins at a multiple of the alignment that was
/// asked for it.
pub proof fn lemma_allocations_apart(
    chain: Seq<ChunkView>,
    layouts: Seq<LayoutView>,
    i: int,
    j: int,
)
    requires
        chain_wf(chain),
        forall|n: int| 0 <= n < layouts.len() ==> (#[trigger] layouts[n]).valid(),
        0 <= i < j < layouts.len(),
        address_at(chain, layouts, i) is Some,
        address_at(chain, layouts, j) is Some,
    ensures
        !overlap(
            address_at(chain, layouts, i)->0,
            layouts[i].size,
            address_at(chain, layouts, j)->0,
            layouts[j].size,
        ),
        address_at(chain, layouts, i)->0 % layouts[i].align == 0,
        address_at(chain, layouts, j)->0 % layouts[j].align == 0,
    decreases i,
{
    let after = chain_after(chain, layouts[0]);
    let rest = layouts.drop_first();
    lemma_chain_after_wf(chain, layouts[0]);
    assert forall|n: int| 0 <= n < rest.len() implies (#[trigger] rest[n]).valid() by {
        assert(rest[n] == layouts[n + 1]);
    }
    assert(rest[j - 1] == layouts[j]);
    if i == 0 {
        lemma_alloc_is_fresh(chain, layouts[0]);
        lemma_addresses_are_fresh(after, rest, j - 1);
        let a = address_at(chain, layouts, i)->0;
        let b = address_at(chain, layouts, j)->0;
        if overlap(a, layouts[i].size, b, layouts[j].size) {
            let k = if a >= b {
                a
            } else {
                b
            };
            assert(chain_used(after, k));
            assert(!chain_used(after, k));
        }
    } else {
        assert(rest[i - 1] == layouts[i]);
        lemma_allocations_apart(after, rest, i - 1, j - 1);
    }
}

/// A chunk that has room for a request has room for it all the more once it
/// has taken back what it handed out.
pub proof fn lemma_rewound_keeps_room(chunk: ChunkView, layout: LayoutView)
    requires
        chunk.wf(),
        layout.valid(),
        chunk.fits(layout),
    ensures
        chunk.rewound().wf(),
        chunk.rewound().fits(layout),
{
    lemma_pow2_divides(layout.align, layout.align);
    lemma_fit_is_inside(chunk, layout);
    lemma_align_down_monotone(chunk.end - layout.size, chunk.top() - layout.size, layout.align);
}

/// After a reset the head serves, without the chain growing, every request
/// that the head had room for at some time before the reset.
pub proof fn lemma_reset_keeps_capacity(chain: Seq<ChunkView>, layout: LayoutView)
    requires
        chain_wf(chain),
        layout.valid(),
        head(chain).rewound().fits(layout),
    ensures
        chain_wf(chain_reset(chain)),
        chain_alloc(chain_reset(chain), layout) matches Some((after, addr)) && after.len()
            == chain_reset(chain).len() && addr == head(chain).rewound().alloc_addr(layout),
{
    lemma_reset_wf(chain);
    if chain.len() > 0 {
        assert(head(chain_reset(chain)) == head(chain).rewound());
    }
}

/// After a reset the head serves, without the chain growing, every request
/// that an older chunk of the chain had room for at some time, provided that
/// the request asks for no more alignment than the block of that chunk has.
pub proof fn lemma_reset_serves_what_fit(chain: Seq<ChunkView>, i: int, layout: LayoutView)
    requires
        chain_wf(chain),
        layout.valid(),
        0 <= i < chain.len(),
        chain[i].rewound().fits(layout),
        layout.align <= chain[i].layout.align,
    ensures
        chain_alloc(chain_reset(chain), layout) matches Some((after, _)) && after.len() == 1,
{
    let last = chain.len() - 1;
    let old_chunk = chain[i];
    let top_chunk = chain[last].rewound();
    assert(old_chunk.wf());
    assert(chain[last].wf());
    lemma_reset_wf(chain);
    lemma_head_is_largest(chain, i);
    lemma_pow2_divides(layout.align, layout.align);
    // the request is no larger than the older chunk
    lemma_fit_is_inside(old_chunk.rewound(), layout);
    assert(layout.size <= old_chunk.capacity());
    assert(layout.size <= top_chunk.capacity());
    // the start and the top of the head are multiples of the alignment asked for
    let a = layout.align;
    let big = top_chunk.layout.align;
    lemma_pow2_divides(a, big);
    lemma_multiple_transitive(top_chunk.start, big, a);
    assert(chain[last].aligned());
    lemma_multiple_transitive(top_chunk.capacity(), big, a);
    lemma_multiples_add_sub(top_chunk.start, top_chunk.capacity(), a);
    lemma_align_down_is_largest(top_chunk.top() - layout.size, a, top_chunk.start);
    assert(head(chain_reset(chain)) == top_chunk);
}

/// The head of a chain is at least as large and as aligned as every chunk of
/// the chain.
pub proof fn lemma_head_is_largest(chain: Seq<ChunkView>, i: int)
    requires
        chain_wf(chain),
        0 <= i < chain.len(),
    ensures
        chain[i].capacity() <= head(chain).capacity(),
        chain[i].layout.align <= head(chain).layout.align,
    decreases chain.len() - i,
{
    if i < chain.len() - 1 {
        assert(linked(chain[i], chain[i + 1]));
        assert(chain[i].wf());
        lemma_head_is_largest(chain, i + 1);
    }
}

/// Each time the chain grows, the capacity of its head at least doubles: the
/// head of a chain is at least `2^n` times as large as the chunk that was the
/// head `n` chunks ago.
pub proof fn lemma_capacity_doubles(chain: Seq<ChunkView>, n: nat)
    requires
        chain_wf(chain),
        n < chain.len(),
    ensures
        head(chain).capacity() >= pow2(n) * chain[chain.len() - 1 - n].capacity(),
    decreases n,
{
    let last = chain.len() - 1;
    let small = chain[last - n].capacity();
    if n == 0 {
        vstd::arithmetic::power2::lemma2_to64();
        assert(pow2(0) * small == small);
    } else {
        lemma_capacity_doubles(chain, (n - 1) as nat);
        assert(linked(chain[last - n], chain[last - n + 1]));
        vstd::arithmetic::power2::lemma_pow2_unfold(n);
        let mid = chain[last - n + 1].capacity();
        let p = pow2((n - 1) as nat) as int;
        assert(head(chain).capacity() >= p * mid);
        assert(p * mid >= p * (2 * small)) by (nonlinear_arith)
            requires
                p >= 0,
                mid >= 2 * small,
        ;
        assert(p * (2 * small) == (2 * p) * small) by (nonlinear_arith);
        assert(pow2(n) * small == (2 * p) * small);
    }
}

/// When the chain grows to serve a request, it grows by one chunk, which has
/// at least twice the capacity of the head before it and room for the
/// request.
pub proof fn lemma_growth_doubles(chain: Seq<ChunkView>, layout: LayoutView)
    requires
        chain_wf(chain),
        layout.valid(),
        !head(chain).fits(layout),
        chain_alloc(chain, layout) is Some,
    ensures
        ({
            let (after, _) = chain_alloc(chain, layout)->0;
            &&& after.len() == chain.len() + 1
            &&& head(after).capacity() >= 2 * head(chain).capacity()
            &&& head(after).capacity() >= layout.size
            &&& after.subrange(0, chain.len() as int) == chain
        }),
{
    lemma_new_chunk_fits(chain, layout);
    let (after, _) = chain_alloc(chain, layout)->0;
    assert(after.subrange(0, chain.len() as int) =~= chain);
    lemma_padded_valid(grown_layout(head(chain), layout));
}

/// However many times a chain grows while it serves a sequence of requests,
/// the capacity of its head at least doubles each time: after `n` growths it
/// is at least `2^n` times what it was.
pub proof fn lemma_growths_double(chain: Seq<ChunkView>, layouts: Seq<LayoutView>)
    requires
        chain_wf(chain),
        forall|n: int| 0 <= n < layouts.len() ==> (#[trigger] layouts[n]).valid(),
    ensures
        chain_wf(chain_after_all(chain, layouts)),
        chain_after_all(chain, layouts).len() >= chain.len(),
        head(chain_after_all(chain, layouts)).capacity() >= pow2(
            (chain_after_all(chain, layouts).len() - chain.len()) as nat,
        ) * head(chain).capacity(),
    decreases layouts.len(),
{
    vstd::arithmetic::power2::lemma2_to64();
    if layouts.len() > 0 {
        let next = chain_after(chain, layouts[0]);
        let rest = layouts.drop_first();
        let last = chain_after_all(chain, layouts);
        lemma_chain_after_wf(chain, layouts[0]);
        assert forall|n: int| 0 <= n < rest.len() implies (#[trigger] rest[n]).valid() by {
            assert(rest[n] == layouts[n + 1]);
        }
        lemma_growths_double(next, rest);
        lemma_head_wf(chain);
        let later = (last.len() - next.len()) as nat;
        let p = pow2(later) as int;
        let before = head(chain).capacity();
        let between = head(next).capacity();
        assert(head(last).capacity() >= p * between);
        if chain_alloc(chain, layouts[0]) is Some && !head(chain).fits(layouts[0]) {
            lemma_growth_doubles(chain, layouts[0]);
            assert(last.len() - chain.len() == later + 1);
            vstd::arithmetic::power2::lemma_pow2_unfold(later + 1);
            assert(pow2(later + 1) == 2 * p);
            assert(p * between >= p * (2 * before)) by (nonlinear_arith)
                requires
                    p >= 0,
                    between >= 2 * before,
            ;
            assert(p * (2 * before) == (2 * p) * before) by (nonlinear_arith);
            let grown = (last.len() - chain.len()) as nat;
            assert(grown == later + 1);
            assert(pow2(grown) * before == (2 * p) * before);
        } else {
            assert(next.len() == chain.len());
            assert(between == before);
            let grown = (last.len() - chain.len()) as nat;
            assert(grown == later);
            assert(pow2(grown) * before == p * between);
        }
    } else {
        assert(pow2(0) == 1);
        assert(chain_after_all(chain, layouts) == chain);
        assert(pow2(0) * head(chain).capacity() == head(chain).capacity());
    }
}

/// Text that is committed as its bytes and read back as what those bytes
/// encode is the same text, with the same bytes.
pub proof fn lemma_text_round_trip(text: Seq<char>)
    ensures
        valid_utf8(encode_utf8(text)),
        decode_utf8(encode_utf8(text)) == text,
        encode_utf8(decode_utf8(encode_utf8(text))) == encode_utf8(text),
{
    vstd::utf8::encode_utf8_valid_utf8(text);
    vstd::utf8::encode_utf8_decode_utf8(text);
}

/// A request for bytes that an arena can serve has a valid layout: no chunk
/// has room for more than `isize::MAX` bytes.
pub proof fn lemma_served_bytes_are_valid(chain: Seq<ChunkView>, size: int)
    requires
        chain_wf(chain),
        size >= 0,
        chain_alloc(chain, LayoutView { size, align: 1 }) is Some,
    ensures
        (LayoutView { size, align: 1 }).valid(),
{
    let layout = LayoutView { size, align: 1 };
    assert(is_pow2(1)) by {
        reveal(is_pow2);
    }
    lemma_head_wf(chain);
    lemma_pow2_divides(head(chain).layout.align, head(chain).layout.align);
    if head(chain).fits(layout) {
        if head(chain).end < size {
            assert(head(chain).alloc_addr(layout) == 0);
        }
    } else {
        lemma_pow2_divides(
            grown_layout(head(chain), layout).align,
            grown_layout(head(chain), layout).align,
        );
    }
}

} // verus!
