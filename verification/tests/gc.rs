use gcmalloc::allocator::layout_with_header;
use gcmalloc::gc::{layout_fits, GcBox};
use gcmalloc::gcalloc::GcAllocator;
use gcmalloc::layout::Layout;
use gcmalloc::memory::World;
use gcmalloc::Gc;
use std::mem::{align_of, size_of};

const DUMMY: u64 = 0x100;

/// Allocates a collected value in a block whose memory is at `raw`.
fn new<T>(heap: &mut GcAllocator, raw: u64, value: T) -> Gc<T> {
    assert!(heap.poll(&World::unknown()).is_none());
    let boxed = GcBox::new(heap, raw, value, 0x200);
    Gc::new(Box::leak(Box::new(boxed)))
}

/// The address that a reference holds.
fn address<T: ?Sized>(r: &T) -> String {
    format!("{:p}", r)
}

#[test]
fn test_trait_obj() {
    trait HelloWorld {
        fn hello(&self) -> usize;
    }

    struct HelloWorldStruct(usize);

    impl HelloWorld for HelloWorldStruct {
        fn hello(&self) -> usize {
            self.0
        }
    }

    let s = HelloWorldStruct(123);
    let mut heap = GcAllocator::new(DUMMY);
    let gc = new(&mut heap, 0x1000, s);
    let ptr: &'static GcBox<dyn HelloWorld> = Gc::<HelloWorldStruct>::inner(gc);
    let gcto: Gc<dyn HelloWorld> = Gc::from_inner(ptr);
    assert_eq!(size_of::<Gc<dyn HelloWorld>>(), 2 * size_of::<usize>());
    assert_eq!(gcto.hello(), 123);
}

#[test]
fn test_unsized() {
    let mut heap = GcAllocator::new(DUMMY);
    let gc = new(&mut heap, 0x1000, [1, 2, 3]);
    let ptr: &'static GcBox<[i32]> = Gc::<[i32; 3]>::inner(gc);
    let foo: Gc<[i32]> = Gc::from_inner(ptr);
    assert!(foo == foo.clone());
}

#[test]
fn test_nonnull_opt() {
    assert_eq!(size_of::<Option<Gc<usize>>>(), size_of::<usize>())
}

#[test]
fn into_raw_and_back() {
    let mut heap = GcAllocator::new(DUMMY);
    let a = new(&mut heap, 0x1000, 5u64);
    let b = new(&mut heap, 0x2000, 5u64);
    assert!(Gc::from_raw(Gc::into_raw(a), Gc::inner(a)) == a);
    // The raw pointer points to the value itself, which is at the base of its
    // block.
    let raw = Gc::into_raw(a);
    assert_eq!((raw.addr, *raw.value), (0x1020, 5));
    assert_eq!(address(raw.value), address(&*a));
    assert_eq!(raw.addr, Gc::into_raw(a.clone()).addr);
    assert!(Gc::ptr_eq(&a, &a.clone()));
    // Equal values in different blocks are different pointers.
    assert!(!Gc::ptr_eq(&a, &b));
    assert!(a != b);
    assert_eq!(*a, *b);
    assert_eq!(Gc::inner(a).block().base, 0x1020);
    assert_eq!(Gc::inner(b).block().base, 0x2020);
}

#[test]
fn new_enters_a_block() {
    let mut heap = GcAllocator::new(DUMMY);
    let gc = new(&mut heap, 0x1000, [7u64; 3]);
    let block = Gc::inner(gc).block();
    let md = block.header(&heap.heap).metadata();
    // The block is as large as the value.
    assert_eq!(md.size, 24);
    assert!(md.is_gc);
    assert!(!md.mark_bit);
    assert_eq!(md.drop_vptr, 0x200);
    assert_eq!(heap.heap.heap_top(), 0x1020 + 24);
    assert_eq!(heap.collector.allocations, 1);
    let gc = new(&mut heap, 0x2000, 7u8);
    assert_eq!(Gc::inner(gc).block().range(&heap.heap), 0x2020..0x2021);
    let gc = new(&mut heap, 0x3000, ());
    assert_eq!(Gc::inner(gc).block().range(&heap.heap), 0x3020..0x3020);
}

#[test]
fn over_aligned_values_are_aligned() {
    #[derive(Clone, Copy)]
    struct Wide(#[allow(dead_code)] u128);
    let mut heap = GcAllocator::new(DUMMY);
    let (l2, offset) = layout_with_header(Layout::new::<Wide>()).unwrap();
    assert_eq!(offset, 32);
    assert_eq!(l2, Layout { size: 48, align: 16 });
    let gc = new(&mut heap, 0x1000, Wide(1));
    assert_eq!(Gc::inner(gc).block().range(&heap.heap), 0x1020..0x1030);
}

#[test]
fn boxes_lie_in_front_of_their_values() {
    assert_eq!(GcBox::<u8>::address_for(0x1020), 0x1018);
    assert_eq!(GcBox::<u64>::address_for(0x1020), 0x1018);
    assert_eq!(GcBox::<[u64; 9]>::address_for(0x1020), 0x1018);
    let wide = 8u64.max(align_of::<u128>() as u64);
    assert_eq!(GcBox::<u128>::address_for(0x1020), 0x1020 - wide);
    // That is where the value is in the box.
    let boxed = GcBox::at(0x1020, 7u8);
    let parse = |s: String| u64::from_str_radix(s.trim_start_matches("0x"), 16).unwrap();
    assert_eq!(parse(address(boxed.get())) - parse(address(&boxed)), 8);
    let boxed = GcBox::at(0x1020, 7u128);
    assert_eq!(parse(address(boxed.get())) - parse(address(&boxed)), wide);
}

#[test]
fn downcast() {
    let mut heap = GcAllocator::new(DUMMY);
    let gc = new(&mut heap, 0x1000, 9u64);
    let ptr = Gc::inner(gc);
    let any: &'static GcBox<dyn std::any::Any> = Gc::<u64>::inner(gc);
    let any = Gc::from_inner(any);
    assert!(any.is::<u64>());
    let found = any.downcast(Some(ptr)).ok().unwrap();
    assert_eq!(*found, 9);
    assert!(Gc::ptr_eq(&found, &gc));
    let missed = any.downcast::<String>(None).err().unwrap();
    assert!(Gc::ptr_eq(&missed, &any));
}

#[test]
fn fitting_layouts() {
    let layout = |size, align| Layout::from_size_align(size, align).unwrap();
    assert!(layout_fits::<u32>(layout(4, 4)));
    assert!(layout_fits::<u32>(layout(8, 8)));
    assert!(!layout_fits::<u32>(layout(3, 4)));
    assert!(!layout_fits::<u32>(layout(4, 2)));
    assert!(!layout_fits::<u32>(layout(0, 1)));
    assert!(layout_fits::<()>(layout(0, 1)));
}

#[test]
fn a_block_of_a_given_layout() {
    let mut heap = GcAllocator::new(DUMMY);
    assert!(heap.poll(&World::unknown()).is_none());
    let layout = Layout::from_size_align(100, 64).unwrap();
    let boxed = Gc::<u32>::new_from_layout(&mut heap, layout, 0x1000).unwrap();
    assert_eq!(boxed.block().base, 0x1040);
    let md = boxed.block().header(&heap.heap).metadata();
    assert_eq!((md.size, md.is_gc, md.mark_bit, md.drop_vptr), (100, true, false, DUMMY));
    assert_eq!(heap.heap.heap_top(), 0x1040 + 100);
}

#[test]
fn slices_of_different_lengths_are_different() {
    let all: &'static GcBox<[i32]> = Box::leak(Box::new(GcBox::at(0x1020, [1, 2, 3])));
    let part: &'static GcBox<[i32]> = Box::leak(Box::new(GcBox::at(0x1020, [1, 2])));
    let (all, part) = (Gc::from_inner(all), Gc::from_inner(part));
    assert!(!Gc::ptr_eq(&all, &part));
    assert!(all != part);
    assert!(all == all.clone());
    assert!(part == part.clone());
}
