use bumpme::layout::{Layout, LayoutError};
use bumpme::model::{DEFAULT_CAPACITY, HEADER_ALIGN, HEADER_SIZE, MIN_ALIGN, ORIGIN};
use bumpme::raw::{create_chunk, free_chunk_list, header_layout, Bump, Chunk};

fn layout(size: usize, align: usize) -> Layout {
    Layout::from_size_align(size, align).unwrap()
}

#[test]
fn test_extremely_large_layout() {
    let chunk = create_chunk(Layout::new::<()>(), None).unwrap();
    let ptr = chunk.calculate_alloc_ptr(Layout::from_size_align(chunk.end() + 1, 1).unwrap());
    assert!(ptr == 0)
}

#[test]
fn layout_rejects_bad_alignment() {
    assert_eq!(Layout::from_size_align(8, 0), Err(LayoutError));
    assert_eq!(Layout::from_size_align(8, 3), Err(LayoutError));
    assert_eq!(Layout::from_size_align(8, 12), Err(LayoutError));
    assert!(Layout::from_size_align(8, 1).is_ok());
    assert!(Layout::from_size_align(0, 1 << 20).is_ok());
}

#[test]
fn layout_rejects_oversized() {
    let max = isize::MAX as usize;
    assert!(Layout::from_size_align(max, 1).is_ok());
    assert_eq!(Layout::from_size_align(max + 1, 1), Err(LayoutError));
    assert!(Layout::from_size_align(max - 7, 8).is_ok());
    assert_eq!(Layout::from_size_align(max - 6, 8), Err(LayoutError));
    assert_eq!(Layout::from_size_align(1, max + 1), Err(LayoutError));
    assert!(Layout::from_size_align(0, max + 1).is_ok());
}

#[test]
fn layout_keeps_size_and_align() {
    let l = layout(13, 8);
    assert_eq!(l.size(), 13);
    assert_eq!(l.align(), 8);
    let unchecked = Layout::from_size_align_unchecked(13, 8);
    assert_eq!(unchecked, l);
}

#[test]
fn layout_pads_to_align() {
    assert_eq!(layout(13, 8).pad_to_align(), layout(16, 8));
    assert_eq!(layout(16, 8).pad_to_align(), layout(16, 8));
    assert_eq!(layout(0, 8).pad_to_align(), layout(0, 8));
    assert_eq!(layout(1, 1).pad_to_align(), layout(1, 1));
    assert_eq!(layout(4097, 4096).pad_to_align(), layout(8192, 4096));
}

#[test]
fn layout_of_types() {
    assert_eq!(Layout::new::<u8>(), layout(1, 1));
    assert_eq!(Layout::new::<u32>(), layout(4, 4));
    assert_eq!(Layout::new::<()>(), layout(0, 1));
    assert_eq!(Layout::new::<[u16; 3]>(), layout(6, 2));
}

#[test]
fn layout_of_arrays() {
    assert_eq!(Layout::array::<u32>(5), Ok(layout(20, 4)));
    assert_eq!(Layout::array::<u8>(0), Ok(layout(0, 1)));
    assert_eq!(Layout::array::<u64>(usize::MAX), Err(LayoutError));
    assert_eq!(Layout::array::<u64>(usize::MAX / 8), Err(LayoutError));
    assert_eq!(Layout::array_unchecked::<u32>(5), layout(20, 4));
}

#[test]
fn layout_extends_by_another() {
    assert_eq!(layout(40, 8).extend(layout(64, 8)), Ok((layout(104, 8), 40)));
    assert_eq!(layout(40, 8).extend(layout(256, 128)), Ok((layout(384, 128), 128)));
    assert_eq!(layout(5, 1).extend(layout(3, 2)), Ok((layout(9, 2), 6)));
    assert_eq!(layout(40, 8).extend(layout(0, 1)), Ok((layout(40, 8), 40)));
    let max = isize::MAX as usize;
    assert_eq!(layout(40, 8).extend(layout(max - 47, 8)), Ok((layout(max - 7, 8), 40)));
    assert_eq!(layout(40, 8).extend(layout(max - 39, 8)), Err(LayoutError));
    assert_eq!(layout(40, 8).extend(layout(max - 7, 8)), Err(LayoutError));
}

#[test]
fn header_has_its_layout() {
    assert_eq!(header_layout(), layout(HEADER_SIZE, HEADER_ALIGN));
    assert_eq!(header_layout(), layout(40, 8));
}

#[test]
fn sentinel_has_no_capacity() {
    let chunk = Chunk::empty();
    assert_eq!(chunk.base(), ORIGIN);
    assert_eq!(chunk.start(), ORIGIN);
    assert_eq!(chunk.end(), ORIGIN);
    assert_eq!(chunk.capacity(), 0);
    assert_eq!(chunk.layout(), layout(0, MIN_ALIGN));
}

#[test]
fn sentinel_serves_only_empty_requests() {
    let mut chunk = Chunk::empty();
    assert_eq!(chunk.alloc_layout(layout(1, 1)), None);
    assert_eq!(chunk.alloc_layout(layout(0, 8)), Some(ORIGIN));
    assert_eq!(chunk.end(), ORIGIN);
}

#[test]
fn create_chunk_places_first_block_at_origin() {
    let chunk = create_chunk(layout(64, 8), None).unwrap();
    assert_eq!(chunk.base(), ORIGIN);
    assert_eq!(chunk.start(), ORIGIN + 40);
    assert_eq!(chunk.end(), ORIGIN + 104);
    assert_eq!(chunk.capacity(), 64);
    assert_eq!(chunk.layout(), layout(104, 8));
}

#[test]
fn create_chunk_places_block_above_next() {
    let first = create_chunk(layout(64, 8), None).unwrap();
    let second = create_chunk(layout(256, 128), Some(&first)).unwrap();
    // the first block ends at 4096 + 104 = 4200, which rounds up to 4224;
    // the header takes 128 bytes before a payload that is aligned to 128
    assert_eq!(second.base(), 4224);
    assert_eq!(second.start(), 4352);
    assert_eq!(second.end(), 4608);
    assert_eq!(second.capacity(), 256);
    assert_eq!(second.layout(), layout(384, 128));
}

#[test]
fn create_chunk_fails_where_header_and_payload_overflow() {
    let max = isize::MAX as usize;
    assert!(create_chunk(layout(max - 7, 8), None).is_none());
    assert!(create_chunk(layout(max - 39, 8), None).is_none());
    assert!(create_chunk(layout(max, 1), None).is_none());
    assert!(create_chunk(layout(max - 47, 8), None).is_some());
}

#[test]
fn create_chunk_fails_beyond_address_space() {
    let huge = layout(isize::MAX as usize - 47, 8);
    let first = create_chunk(huge, None).unwrap();
    assert_eq!(first.base(), ORIGIN);
    assert_eq!(first.capacity(), isize::MAX as usize - 47);
    assert!(create_chunk(huge, Some(&first)).is_none());
    assert!(create_chunk(layout(64, 8), Some(&first)).is_some());
}

#[test]
fn chunk_bumps_downwards_and_masks() {
    let mut chunk = create_chunk(layout(64, 8), None).unwrap();
    // 4200 - 3 = 4197, rounded down to a multiple of 4
    assert_eq!(chunk.calculate_alloc_ptr(layout(3, 4)), 4196);
    assert_eq!(chunk.end(), 4200);
    assert_eq!(chunk.alloc_layout(layout(3, 4)), Some(4196));
    assert_eq!(chunk.end(), 4196);
    assert_eq!(chunk.alloc_layout(layout(1, 1)), Some(4195));
    assert_eq!(chunk.alloc_layout(layout(8, 16)), Some(4176));
    assert_eq!(chunk.alloc_layout_unchecked(layout(40, 1)), 4136);
    assert_eq!(chunk.end(), chunk.start());
}

#[test]
fn chunk_without_room_stays() {
    let mut chunk = create_chunk(layout(64, 8), None).unwrap();
    assert_eq!(chunk.alloc_layout(layout(65, 1)), None);
    assert_eq!(chunk.end(), 4200);
    assert_eq!(chunk.alloc_layout(layout(64, 1)), Some(4136));
    assert_eq!(chunk.alloc_layout(layout(1, 1)), None);
    assert_eq!(chunk.alloc_layout(layout(0, 1)), Some(4136));
    assert_eq!(chunk.end(), 4136);
}

#[test]
fn new_arena_owns_no_block() {
    let bump = Bump::new();
    assert_eq!(bump.chunk_count(), 0);
    assert_eq!(bump.head().capacity(), 0);
    assert!(bump.chunk(0).is_none());
    let other = Bump::default();
    assert_eq!(other.chunk_count(), 0);
}

#[test]
fn first_chunk_has_default_capacity() {
    let mut bump = Bump::new();
    assert_eq!(
        bump.try_alloc_layout(layout(11, 1)),
        Some(ORIGIN + HEADER_SIZE + DEFAULT_CAPACITY - 11)
    );
    assert_eq!(bump.chunk_count(), 1);
    assert_eq!(bump.head().capacity(), DEFAULT_CAPACITY);
    assert_eq!(bump.head().layout(), layout(2088, MIN_ALIGN));
    assert_eq!(bump.head().base(), ORIGIN);
    assert_eq!(bump.head().start(), 4136);
    assert_eq!(bump.head().end(), 6173);
}

#[test]
fn first_chunk_is_as_large_as_the_request() {
    let mut bump = Bump::new();
    // 5000 rounds up to 5056, and the header takes 64 bytes before it
    assert_eq!(bump.try_alloc_layout(layout(5000, 64)), Some(4160));
    assert_eq!(bump.head().layout(), layout(5120, 64));
    assert_eq!(bump.head().capacity(), 5056);
    assert_eq!(bump.head().start(), 4160);
    assert_eq!(bump.head().end(), 4160);
}

#[test]
fn with_capacity_rounds_up() {
    let bump = Bump::with_capacity(61);
    assert_eq!(bump.chunk_count(), 1);
    assert_eq!(bump.head().capacity(), 64);
    assert_eq!(bump.head().layout(), layout(104, MIN_ALIGN));
    assert_eq!(bump.head().base(), ORIGIN);
    assert_eq!(bump.head().start(), ORIGIN + 40);
    assert_eq!(bump.head().end(), ORIGIN + 104);
}

#[test]
fn try_with_capacity_fails_on_overflow() {
    assert!(Bump::try_with_capacity(usize::MAX).is_none());
    assert!(Bump::try_with_capacity(isize::MAX as usize).is_none());
    assert!(Bump::try_with_capacity(0).is_some());
}

#[test]
fn try_with_capacity_fails_where_the_header_does_not_fit() {
    // the payload alone has a layout, header and payload together have none
    assert!(Layout::from_size_align(isize::MAX as usize - 7, 8).is_ok());
    assert!(Bump::try_with_capacity(isize::MAX as usize - 7).is_none());
    assert!(Bump::try_with_capacity(isize::MAX as usize - 46).is_none());
    let largest = Bump::try_with_capacity(isize::MAX as usize - 47).unwrap();
    assert_eq!(largest.head().capacity(), isize::MAX as usize - 47);
    assert_eq!(largest.head().layout(), layout(isize::MAX as usize - 7, 8));
}

#[test]
fn growth_keeps_old_chunk() {
    let mut bump = Bump::with_capacity(64);
    assert_eq!(bump.try_alloc_layout(layout(100, 1)), Some(4268));
    assert_eq!(bump.chunk_count(), 2);
    let head = bump.head();
    assert!(head.capacity() >= 128);
    assert_eq!(head.capacity(), 128);
    assert_eq!(head.layout(), layout(168, 8));
    assert_eq!(head.base(), 4200);
    assert_eq!(head.start(), 4240);
    assert_eq!(head.end(), 4268);
    let old = bump.chunk(0).unwrap();
    assert_eq!(old.base(), 4096);
    assert_eq!(old.capacity(), 64);
    assert_eq!(old.layout(), layout(104, 8));
    assert_eq!(old.end(), 4200);
}

#[test]
fn reset_keeps_only_head() {
    let mut bump = Bump::with_capacity(64);
    assert_eq!(bump.try_alloc_layout(layout(100, 1)), Some(4268));
    bump.reset();
    assert_eq!(bump.chunk_count(), 1);
    let head = bump.head();
    assert_eq!(head.capacity(), 128);
    assert_eq!(head.base(), 4200);
    assert_eq!(head.start(), 4240);
    assert_eq!(head.end(), 4240 + 128);
}

#[test]
fn reset_of_empty_arena_does_nothing() {
    let mut bump = Bump::new();
    bump.reset();
    assert_eq!(bump.chunk_count(), 0);
}

#[test]
fn reset_then_same_request_needs_no_growth() {
    let mut bump = Bump::with_capacity(64);
    let request = layout(40, 8);
    assert!(bump.try_alloc_layout(request).is_some());
    assert!(bump.try_alloc_layout(request).is_some());
    assert_eq!(bump.chunk_count(), 2);
    bump.reset();
    assert_eq!(bump.chunk_count(), 1);
    assert!(bump.try_alloc_layout_fast(request).is_some());
    assert!(bump.try_alloc_layout(request).is_some());
    assert!(bump.try_alloc_layout(request).is_some());
    assert_eq!(bump.chunk_count(), 1);
}

#[test]
fn allocations_are_aligned_and_apart() {
    let mut bump = Bump::with_capacity(32);
    let requests = [(3, 1), (8, 8), (1, 1), (24, 16), (100, 4), (7, 2), (0, 8), (300, 64), (5, 1)];
    let mut regions: Vec<(usize, usize)> = Vec::new();
    for (size, align) in requests {
        let addr = bump.try_alloc_layout(layout(size, align)).unwrap();
        assert_eq!(addr % align, 0);
        regions.push((addr, size));
    }
    for i in 0..regions.len() {
        for j in (i + 1)..regions.len() {
            let (a, s) = regions[i];
            let (b, t) = regions[j];
            assert!(s == 0 || t == 0 || a + s <= b || b + t <= a);
        }
    }
}

#[test]
fn allocation_lies_within_serving_chunk() {
    let mut bump = Bump::with_capacity(64);
    let before = bump.head();
    let addr = bump.try_alloc_layout(layout(10, 4)).unwrap();
    assert!(before.start() <= addr && addr < before.end());
    assert!(addr + 10 <= before.end());
    assert_eq!(bump.head().end(), addr);
    // a request that needs a new chunk lies in that chunk
    let addr = bump.try_alloc_layout(layout(1000, 4)).unwrap();
    let head = bump.head();
    assert!(head.start() <= addr && addr + 1000 <= head.start() + head.capacity());
}

#[test]
fn capacity_doubles_with_each_growth() {
    let mut bump = Bump::with_capacity(64);
    let mut growths: u32 = 0;
    while growths < 6 {
        let before = bump.chunk_count();
        let size = bump.head().capacity();
        bump.try_alloc_layout(layout(size / 2 + 1, 1)).unwrap();
        bump.try_alloc_layout(layout(size / 2 + 1, 1)).unwrap();
        assert_eq!(bump.chunk_count(), before + 1);
        growths += 1;
        assert!(bump.head().capacity() >= (64usize << growths));
    }
    for i in 1..bump.chunk_count() {
        let older = bump.chunk(i - 1).unwrap();
        let newer = bump.chunk(i).unwrap();
        assert!(newer.capacity() >= 2 * older.capacity());
        assert!(newer.base() >= older.base() + older.layout().size());
    }
}

#[test]
fn growth_takes_the_stricter_alignment() {
    let mut bump = Bump::with_capacity(64);
    let addr = bump.try_alloc_layout(layout(70, 256)).unwrap();
    assert_eq!(addr, 4608);
    assert_eq!(bump.head().layout(), layout(512, 256));
    assert_eq!(bump.head().capacity(), 256);
    assert_eq!(bump.head().base(), 4352);
    assert_eq!(bump.head().start(), 4608);
}

#[test]
fn failed_growth_leaves_arena_unchanged() {
    let mut bump = Bump::try_with_capacity(isize::MAX as usize - 47).unwrap();
    let end = bump.head().end();
    assert_eq!(bump.try_alloc_layout(layout(isize::MAX as usize - 47, 8)), Some(ORIGIN + 40));
    assert!(!bump.can_alloc(layout(1, 1)));
    assert!(!bump.can_grow(layout(1, 1)));
    assert_eq!(bump.try_alloc_layout(layout(1, 1)), None);
    assert_eq!(bump.try_alloc_layout_slow(layout(1, 1)), None);
    assert_eq!(bump.try_new_chunk(layout(1, 1)), None);
    assert!(bump.next_chunk(layout(1, 1)).is_none());
    assert_eq!(bump.chunk_count(), 1);
    assert_eq!(bump.head().end(), ORIGIN + 40);
    assert!(end > ORIGIN);
}

#[test]
fn growth_fails_where_the_header_does_not_fit() {
    let mut bump = Bump::new();
    assert!(!bump.can_alloc(layout(isize::MAX as usize - 7, 8)));
    assert_eq!(bump.try_alloc_layout(layout(isize::MAX as usize - 7, 8)), None);
    assert_eq!(bump.chunk_count(), 0);
    assert!(bump.can_alloc(layout(isize::MAX as usize - 47, 8)));
    assert_eq!(bump.try_alloc_layout(layout(isize::MAX as usize - 47, 8)), Some(ORIGIN + 40));
}

#[test]
fn can_alloc_tells_what_try_alloc_does() {
    let mut bump = Bump::with_capacity(64);
    for (size, align) in [(10, 2), (60, 8), (0, 1), (200, 32), (isize::MAX as usize, 1)] {
        let request = layout(size, align);
        let fits = bump.head().calculate_alloc_ptr(request) >= bump.head().start();
        assert_eq!(bump.can_alloc(request), fits || bump.can_grow(request));
        let able = bump.can_alloc(request);
        let count = bump.chunk_count();
        assert_eq!(bump.try_alloc_layout(request).is_some(), able);
        assert_eq!(bump.chunk_count() > count, able && !fits);
    }
}

#[test]
fn next_chunk_leaves_the_arena() {
    let bump = Bump::with_capacity(64);
    let next = bump.next_chunk(layout(8, 8)).unwrap();
    assert_eq!(next.base(), 4200);
    assert_eq!(next.capacity(), 128);
    assert_eq!(bump.chunk_count(), 1);
    assert!(bump.can_grow(layout(8, 8)));
}

#[test]
fn slow_path_always_grows() {
    let mut bump = Bump::with_capacity(64);
    assert_eq!(bump.try_alloc_layout_slow(layout(8, 8)), Some(4240 + 128 - 8));
    assert_eq!(bump.chunk_count(), 2);
    assert_eq!(bump.alloc_layout_slow(layout(8, 8)), 4408 + 256 - 8);
    assert_eq!(bump.chunk_count(), 3);
    assert_eq!(bump.try_new_chunk(layout(8, 8)), Some(()));
    assert_eq!(bump.chunk_count(), 4);
    assert_eq!(bump.head().base(), 4664);
    assert_eq!(bump.head().end(), bump.head().start() + 512);
}

#[test]
fn fast_path_never_grows() {
    let mut bump = Bump::with_capacity(64);
    assert_eq!(bump.try_alloc_layout_fast(layout(60, 1)), Some(4140));
    assert_eq!(bump.try_alloc_layout_fast(layout(8, 1)), None);
    assert_eq!(bump.chunk_count(), 1);
    assert_eq!(bump.head().end(), 4140);
}

#[test]
fn infallible_alloc_matches_fallible() {
    let mut a = Bump::with_capacity(64);
    let mut b = Bump::with_capacity(64);
    for (size, align) in [(10, 2), (30, 8), (40, 4), (200, 32)] {
        let l = layout(size, align);
        assert_eq!(Some(a.alloc_layout(l)), b.try_alloc_layout(l));
    }
    assert_eq!(a.chunk_count(), b.chunk_count());
}

#[test]
fn release_frees_every_chunk_head_first() {
    let mut bump = Bump::with_capacity(64);
    bump.try_alloc_layout(layout(100, 1)).unwrap();
    bump.try_alloc_layout(layout(200, 1)).unwrap();
    assert_eq!(bump.chunk_count(), 3);
    let freed = bump.release();
    assert_eq!(freed, vec![(4368, layout(296, 8)), (4200, layout(168, 8)), (4096, layout(104, 8))]);
}

#[test]
fn release_of_empty_arena_frees_nothing() {
    assert!(Bump::new().release().is_empty());
}

#[test]
fn free_chunk_list_empties_the_chain() {
    let first = create_chunk(layout(64, 8), None).unwrap();
    let second = create_chunk(layout(128, 8), Some(&first)).unwrap();
    let mut chain = vec![first, second];
    let freed = free_chunk_list(&mut chain);
    assert!(chain.is_empty());
    assert_eq!(freed, vec![(4200, layout(168, 8)), (4096, layout(104, 8))]);
}

#[test]
fn reset_serves_what_an_older_chunk_served() {
    let mut bump = Bump::with_capacity(64);
    let small = layout(48, 8);
    assert!(bump.try_alloc_layout_fast(small).is_some());
    assert!(bump.try_alloc_layout(layout(100, 1)).is_some());
    assert_eq!(bump.chunk_count(), 2);
    bump.reset();
    assert_eq!(bump.try_alloc_layout_fast(small), Some(4240 + 128 - 48));
    assert_eq!(bump.chunk_count(), 1);
}

#[test]
fn overaligned_request_may_need_a_chunk_after_reset() {
    // the first chunk hands out 4136 to 8200, which holds the address 8192
    let mut bump = Bump::with_capacity(4064);
    let wide = layout(8, 8192);
    assert_eq!(bump.try_alloc_layout_fast(wide), Some(8192));
    assert!(bump.try_alloc_layout(layout(4057, 1)).is_some());
    assert_eq!(bump.chunk_count(), 2);
    bump.reset();
    // the head hands out 8240 to 16368, which holds no multiple of 8192
    assert_eq!(bump.chunk_count(), 1);
    assert_eq!(bump.head().start(), 8240);
    assert_eq!(bump.head().end(), 16368);
    assert_eq!(bump.try_alloc_layout_fast(wide), None);
    assert_eq!(bump.try_alloc_layout(wide), Some(32768));
    assert_eq!(bump.chunk_count(), 2);
}

#[test]
fn empty_request_may_sit_at_the_cursor() {
    let mut bump = Bump::with_capacity(64);
    let end = bump.head().end();
    assert_eq!(bump.try_alloc_layout(layout(0, 1)), Some(end));
    assert_eq!(bump.head().end(), end);
}

#[test]
fn generation_counts_resets() {
    let mut bump = Bump::with_capacity(64);
    assert_eq!(bump.generation(), 0);
    bump.try_alloc_layout(layout(100, 1)).unwrap();
    assert_eq!(bump.generation(), 0);
    bump.reset();
    assert_eq!(bump.generation(), 1);
    bump.reset();
    assert_eq!(bump.generation(), 2);
    assert_eq!(Bump::new().generation(), 0);
}
