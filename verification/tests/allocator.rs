use gcmalloc::allocator::{layout_with_header, Block, GlobalAllocator, PtrInfo};
use gcmalloc::gc::Colour;
use gcmalloc::layout::Layout;
use gcmalloc::model::Region;

fn layout(size: u64, align: u64) -> Layout {
    Layout::from_size_align(size, align).unwrap()
}

fn bases(heap: &GlobalAllocator) -> Vec<u64> {
    let mut r = Vec::new();
    let mut it = heap.iter();
    while let Some(block) = it.next(heap) {
        r.push(block.base);
    }
    r
}

#[test]
fn block_layouts() {
    assert_eq!(layout_with_header(layout(24, 8)), Some((layout(56, 8), 32)));
    assert_eq!(layout_with_header(layout(3, 1)), Some((layout(35, 8), 32)));
    assert_eq!(layout_with_header(layout(0, 1)), Some((layout(32, 8), 32)));
    assert_eq!(layout_with_header(layout(128, 64)), Some((layout(192, 64), 64)));
    let max = 0x7fff_ffff_ffff_ffff;
    assert_eq!(layout_with_header(Layout { size: max, align: 1 }), None);
}

#[test]
fn alloc_then_dealloc() {
    let mut heap = GlobalAllocator::new();
    assert_eq!(heap.heap_top(), 0);
    let l = layout(24, 8);
    assert_eq!(heap.alloc_block(l, false, 0x1000), 0x1020);
    assert_eq!(heap.heap_top(), 0x1038);
    assert_eq!(bases(&heap), vec![0x1020]);
    let freed = heap.dealloc(0x1020, l);
    assert_eq!(freed, Region { raw: 0x1000, layout: layout(56, 8) });
    assert_eq!(bases(&heap), vec![]);
    // The highest address is never lowered.
    assert_eq!(heap.heap_top(), 0x1038);
}

#[test]
fn blocks_come_newest_first() {
    let mut heap = GlobalAllocator::new();
    let l = layout(16, 8);
    for raw in [0x3000, 0x1000, 0x4000, 0x2000] {
        heap.alloc_block(l, raw == 0x4000, raw);
    }
    assert_eq!(bases(&heap), vec![0x2020, 0x4020, 0x1020, 0x3020]);
    // The first, the last and one in between leave the list.
    heap.dealloc(0x4020, l);
    assert_eq!(bases(&heap), vec![0x2020, 0x1020, 0x3020]);
    heap.dealloc(0x2020, l);
    assert_eq!(bases(&heap), vec![0x1020, 0x3020]);
    heap.alloc_block(l, false, 0x5000);
    heap.dealloc(0x3020, l);
    assert_eq!(bases(&heap), vec![0x5020, 0x1020]);
    heap.dealloc(0x1020, l);
    heap.dealloc(0x5020, l);
    assert_eq!(bases(&heap), vec![]);
}

#[test]
fn realloc_moves_a_block() {
    let mut heap = GlobalAllocator::new();
    let l = layout(16, 8);
    heap.alloc_block(l, false, 0x1000);
    heap.alloc_block(l, true, 0x2000);
    heap.alloc_block(l, false, 0x3000);
    Block::new(0x2020).set_colour(&mut heap, Colour::Black);
    Block::new(0x2020).set_drop_vptr(&mut heap, 0x400);
    assert_eq!(heap.realloc(0x2020, l, 64, 0x8000), 0x8020);
    // The block keeps its place, its flags and its vtable pointer.
    assert_eq!(bases(&heap), vec![0x3020, 0x8020, 0x1020]);
    let md = Block::new(0x8020).header(&heap).metadata();
    assert_eq!((md.size, md.is_gc, md.mark_bit, md.drop_vptr), (64, true, true, 0x400));
    // The highest address is raised by the new size.
    assert_eq!(heap.heap_top(), 0x8060);
    // In place, and the newest block.
    assert_eq!(heap.realloc(0x3020, l, 8, 0x3000), 0x3020);
    assert_eq!(Block::new(0x3020).range(&heap), 0x3020..0x3028);
    assert_eq!(heap.realloc(0x3020, layout(8, 8), 8, 0x6000), 0x6020);
    assert_eq!(bases(&heap), vec![0x6020, 0x8020, 0x1020]);
    heap.alloc_block(l, false, 0x7000);
    assert_eq!(bases(&heap), vec![0x7020, 0x6020, 0x8020, 0x1020]);
}

#[test]
fn find_identifies_pointers() {
    let mut heap = GlobalAllocator::new();
    let l = layout(16, 8);
    heap.alloc_block(l, false, 0x2000);
    heap.alloc_block(l, false, 0x1000);
    let cache = heap.sorted_cache();
    assert_eq!(cache.len(), 2);
    assert_eq!(cache.get(0), Block { base: 0x1020 });
    assert_eq!(cache.get(1), Block { base: 0x2020 });
    for (word, found) in [
        (0x1020, Some(0x1020)),
        (0x1021, Some(0x1020)),
        (0x102f, Some(0x1020)),
        (0x1030, Some(0x1020)),
        (0x1031, None),
        (0x101f, None),
        (0x1000, None),
        (0x2020, Some(0x2020)),
        (0x2030, Some(0x2020)),
        (0x2031, None),
        (0, None),
        (u64::MAX, None),
    ] {
        let found = found.map(|base| Block { base });
        assert_eq!(Block::find(word, 0x10, &heap), found);
        assert_eq!(cache.find(word, &heap), found);
    }
    // Below the end of the data segment there is no heap.
    assert_eq!(Block::find(0x1020, 0x1021, &heap), None);
    assert_eq!(Block::find(0x1021, 0x1021, &heap), Some(Block { base: 0x1020 }));
}

#[test]
fn a_grown_block_is_found_up_to_its_end() {
    let mut heap = GlobalAllocator::new();
    let l = layout(16, 8);
    heap.alloc_block(l, false, 0x1000);
    heap.realloc(0x1020, l, 64, 0x1000);
    assert_eq!(heap.heap_top(), 0x1060);
    for word in [0x1020, 0x1030, 0x1031, 0x1040, 0x1060] {
        assert_eq!(Block::find(word, 0x10, &heap), Some(Block { base: 0x1020 }));
        assert_eq!(heap.sorted_cache().find(word, &heap), Some(Block { base: 0x1020 }));
    }
    assert_eq!(Block::find(0x1061, 0x10, &heap), None);
}

#[test]
fn a_shrunk_block_raises_the_highest_address_by_its_old_size() {
    let mut heap = GlobalAllocator::new();
    let l = layout(64, 8);
    heap.alloc_block(l, false, 0x1000);
    assert_eq!(heap.heap_top(), 0x1060);
    heap.realloc(0x1020, l, 8, 0x2000);
    assert_eq!(heap.heap_top(), 0x2060);
    assert_eq!(Block::find(0x2028, 0x10, &heap), Some(Block { base: 0x2020 }));
    assert_eq!(Block::find(0x2029, 0x10, &heap), None);
}

#[test]
fn a_block_gives_back_the_memory_it_was_given() {
    let mut heap = GlobalAllocator::new();
    heap.alloc_block(layout(100, 64), true, 0x1000);
    heap.alloc_block(layout(3, 1), true, 0x2000);
    let freed = Block::new(0x1040).dealloc(&mut heap);
    assert_eq!(freed, Region { raw: 0x1000, layout: layout(164, 64) });
    // Also after it has moved.
    heap.realloc(0x2020, layout(3, 1), 7, 0x3000);
    let freed = Block::new(0x3020).dealloc(&mut heap);
    assert_eq!(freed, Region { raw: 0x3000, layout: layout(39, 8) });
    assert_eq!(bases(&heap), vec![]);
}

#[test]
fn headers_hold_colours_and_vtables() {
    let mut heap = GlobalAllocator::new();
    heap.alloc_block(layout(8, 8), true, 0x1000);
    let block = Block::new(0x1020);
    assert_eq!(block.colour(&heap), Colour::White);
    assert_eq!(block.drop_vptr(&heap), 0);
    block.set_colour(&mut heap, Colour::Black);
    assert_eq!(block.colour(&heap), Colour::Black);
    block.set_drop_vptr(&mut heap, u64::MAX);
    assert_eq!(block.drop_vptr(&heap), 0x7fff_ffff_ffff_ffff);
    assert_eq!(block.colour(&heap), Colour::Black);
    block.set_colour(&mut heap, Colour::White);
    assert_eq!(block.colour(&heap), Colour::White);
    assert_eq!(block.range(&heap), 0x1020..0x1028);
}

#[test]
fn blocks_can_be_described() {
    let mut heap = GlobalAllocator::new();
    heap.alloc_block(layout(8, 8), true, 0x1000);
    heap.alloc_block(layout(24, 8), false, 0x2000);
    let mut it = heap.iter();
    assert_eq!(it.next_info(&heap), Some(PtrInfo { ptr: 0x2020, size: 24, gc: false }));
    assert_eq!(it.next_info(&heap), Some(PtrInfo { ptr: 0x1020, size: 8, gc: true }));
    assert_eq!(it.next_info(&heap), None);
    assert_eq!(it.next_info(&heap), None);
}

#[test]
fn blocks_are_known_by_their_addresses() {
    let mut heap = GlobalAllocator::new();
    heap.alloc_block(layout(8, 8), false, 0x1000);
    assert!(heap.is_block(0x1020));
    for base in [0, 1, 32, 0x1000, 0x101f, 0x1021, 0x1028, u64::MAX] {
        assert!(!heap.is_block(base));
    }
    heap.dealloc(0x1020, layout(8, 8));
    assert!(!heap.is_block(0x1020));
}

#[test]
fn vacancy() {
    let mut heap = GlobalAllocator::new();
    assert!(heap.is_vacant(0, u64::MAX));
    heap.alloc_block(layout(8, 8), false, 0x1000);
    assert!(heap.is_vacant(0, 0x1000));
    assert!(!heap.is_vacant(0, 0x1001));
    assert!(heap.is_vacant(0x1028, 0x2000));
    assert!(!heap.is_vacant(0x1027, 0x2000));
    assert!(!heap.is_vacant(0x1008, 0x1010));
}
