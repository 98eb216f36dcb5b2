use gcmalloc::allocator::layout_with_header;
use gcmalloc::collector::CollectorPhase;
use gcmalloc::garbage::Finalizer;
use gcmalloc::gc::GcBox;
use gcmalloc::gcalloc::GcAllocator;
use gcmalloc::layout::Layout;
use gcmalloc::memory::{Memory, World};
use gcmalloc::model::Region;
use gcmalloc::{collect, debug_flags, set_threshold, DebugFlags, Gc};
use std::any::TypeId;
use std::collections::HashMap;
use std::mem::MaybeUninit;

const DUMMY: u64 = 0x100;
const STATICS: u64 = 0x1000;
const HEAP: u64 = 0x10_0000;
const STACK: u64 = 0x7fff_0000;

/// A process with an address space of its own: what the collector sees of a
/// real one.
struct Process {
    heap: GcAllocator,
    /// The words in the blocks.
    words: HashMap<u64, u64>,
    stack: Vec<u64>,
    statics: Vec<u64>,
    next_raw: u64,
    /// All memory that the system allocator handed out.
    raws: Vec<u64>,
    vptrs: HashMap<TypeId, u64>,
    /// The destructors that ran, in order.
    dropped: Vec<Finalizer>,
    /// The memory of the blocks that went without a destructor.
    freed: Vec<Region>,
    /// The memory of the blocks whose destructors ran.
    returned: Vec<Region>,
    collections: usize,
}

impl Process {
    fn new() -> Process {
        Process {
            heap: GcAllocator::new(DUMMY),
            words: HashMap::new(),
            stack: Vec::new(),
            statics: Vec::new(),
            next_raw: HEAP,
            raws: Vec::new(),
            vptrs: HashMap::new(),
            dropped: Vec::new(),
            freed: Vec::new(),
            returned: Vec::new(),
            collections: 0,
        }
    }

    fn world(&self) -> World {
        let mut memory = Memory::new();
        for (i, word) in self.stack.iter().enumerate() {
            memory.write(STACK + 8 * i as u64, *word);
        }
        for (i, word) in self.statics.iter().enumerate() {
            memory.write(STATICS + 8 * i as u64, *word);
        }
        let mut it = self.heap.heap.iter();
        while let Some(block) = it.next(&self.heap.heap) {
            let mut addr = block.base;
            while addr < block.range(&self.heap.heap).end {
                memory.write(addr, self.words.get(&addr).copied().unwrap_or(0));
                addr += 8;
            }
        }
        World {
            memory,
            rsp: STACK,
            stack_start: STACK + 8 * self.stack.len() as u64,
            data_segment_start: STATICS,
            data_segment_end: STATICS + 8 * self.statics.len() as u64,
        }
    }

    fn raw(&mut self, layout: Layout) -> (u64, u64) {
        let (l2, offset) = layout_with_header(layout).unwrap();
        let raw = self.next_raw;
        self.raws.push(raw);
        self.next_raw += (l2.size + 63) / 64 * 64;
        assert!(self.heap.heap.is_vacant(raw, raw + l2.size));
        (raw, offset)
    }

    fn vptr<T: 'static>(&mut self) -> u64 {
        let next = 0x200 + 8 * self.vptrs.len() as u64;
        *self.vptrs.entry(TypeId::of::<T>()).or_insert(next)
    }

    fn fill(&mut self, base: u64, words: &[u64]) {
        for (i, word) in words.iter().enumerate() {
            self.words.insert(base + 8 * i as u64, *word);
        }
    }

    /// Runs the destructors that are due.
    fn finish(&mut self, freed: Vec<Region>) {
        self.collections += 1;
        self.freed.extend(freed);
        assert_eq!(self.heap.phase, CollectorPhase::Finalization);
        while let Some(f) = self.heap.next_destructor() {
            // The block is there for as long as its destructor runs.
            assert!(self.has(f.base));
            if f.runs {
                self.dropped.push(f);
            }
            let region = self.heap.destructor_ran();
            self.returned.push(region);
            assert!(!self.has(f.base));
        }
        assert_eq!(self.heap.phase, CollectorPhase::Ready);
    }

    /// Asks the collector if it needs to collect garbage. A value that holds
    /// these words is on the stack.
    fn poll(&mut self, words: &[u64]) {
        let n = self.stack.len();
        self.stack.extend(words);
        let world = self.world();
        assert!(self.heap.is_collectable(&world));
        if let Some(freed) = self.heap.poll(&world) {
            self.finish(freed);
        }
        self.stack.truncate(n);
    }

    /// Allocates a collected value that holds these words.
    fn gc<T: 'static>(&mut self, value: T, words: &[u64]) -> Gc<T> {
        self.poll(words);
        let (raw, offset) = self.raw(Layout::new::<T>());
        let vptr = self.vptr::<T>();
        let boxed = GcBox::new(&mut self.heap, raw, value, vptr);
        assert_eq!(boxed.block().base, raw + offset);
        self.fill(raw + offset, words);
        Gc::new(Box::leak(Box::new(boxed)))
    }

    /// Allocates a collected block that has no value yet.
    fn uninit<T: 'static>(&mut self, layout: Layout) -> Option<Gc<MaybeUninit<T>>> {
        self.poll(&[]);
        let (raw, _) = self.raw(layout);
        let boxed = Gc::<T>::new_from_layout(&mut self.heap, layout, raw)?;
        Some(Gc::new(Box::leak(Box::new(boxed))))
    }

    /// Allocates a block that is not collected.
    fn plain(&mut self, words: &[u64]) -> u64 {
        let layout = Layout::from_size_align(8 * words.len() as u64, 8).unwrap();
        let (raw, _) = self.raw(layout);
        let base = self.heap.heap.alloc_block(layout, false, raw);
        self.fill(base, words);
        base
    }

    fn collect(&mut self) {
        let world = self.world();
        assert!(self.heap.is_collectable(&world));
        let freed = collect(&mut self.heap, &world);
        self.finish(freed);
    }

    fn has(&self, base: u64) -> bool {
        let mut it = self.heap.heap.iter();
        while let Some(block) = it.next(&self.heap.heap) {
            if block.base == base {
                return true;
            }
        }
        false
    }

    fn count(&self) -> usize {
        let mut n = 0;
        let mut it = self.heap.heap.iter();
        while it.next(&self.heap.heap).is_some() {
            n += 1;
        }
        n
    }
}

fn address<T>(gc: Gc<T>) -> u64 {
    Gc::inner(gc).block().base
}

#[test]
fn auto_collection() {
    let threshold = 5;
    let mut p = Process::new();
    set_threshold(&mut p.heap, threshold);

    let x = p.gc("Hello World".to_string(), &[]);
    p.stack.push(address(x));
    assert!(!gcmalloc::Debug::is_black(&p.heap, address(x)));

    for _ in 0..threshold {
        p.gc(123usize, &[]);
    }

    assert!(gcmalloc::Debug::is_black(&p.heap, address(x)));
    assert_eq!(p.collections, 1);
    assert_eq!(p.dropped.len(), 4);
}

#[test]
fn collections_are_periodic() {
    let mut p = Process::new();
    set_threshold(&mut p.heap, 3);
    let mut collected_before = Vec::new();
    for n in 0..10 {
        let before = p.collections;
        p.gc(n as usize, &[]);
        if p.collections > before {
            collected_before.push(n);
        }
    }
    assert_eq!(collected_before, vec![3, 6, 9]);
    assert_eq!(p.heap.collector.allocations, 1);
}

#[test]
fn no_automatic_collection_when_switched_off() {
    let mut p = Process::new();
    set_threshold(&mut p.heap, 1);
    let flags = DebugFlags { automatic_collection: false, ..DebugFlags::new() };
    debug_flags(&mut p.heap, flags);
    for _ in 0..5 {
        p.gc(1usize, &[]);
    }
    assert_eq!(p.collections, 0);
    assert_eq!(p.heap.collector.allocations, 5);
    p.collect();
    assert_eq!(p.heap.collector.allocations, 0);
    assert_eq!(p.count(), 0);
}

#[test]
fn default_threshold() {
    let p = Process::new();
    assert_eq!(p.heap.collector.allocation_threshold, 100);
    assert_eq!(p.heap.collector.debug_flags, DebugFlags::new());
}

#[test]
fn c_pointer_after() {
    let mut p = Process::new();
    debug_flags(&mut p.heap, DebugFlags::new().sweep_phase(false));
    let a = p.gc(123u8, &[]);
    let base = address(a);
    let end = Gc::inner(a).block().range(&p.heap.heap).end;
    assert_eq!(end, base + 1);
    let boxed = p.plain(&[end]);
    p.stack.push(boxed);
    p.collect();
    assert!(gcmalloc::Debug::is_black(&p.heap, base));
    // Two bytes past the end is no pointer to the block any more.
    p.fill(boxed, &[end + 1]);
    p.collect();
    assert!(!gcmalloc::Debug::is_black(&p.heap, base));
}

#[test]
fn collect_runs_drop() {
    let mut p = Process::new();
    debug_flags(&mut p.heap, DebugFlags::new().mark_phase(false));
    let gc = p.gc(123usize, &[]);
    // It does not matter whether the value can be reached.
    p.stack.push(address(gc));
    p.collect();
    assert_eq!(p.dropped.len(), 1);
    let f = p.dropped[0];
    assert_eq!(f.base, address(gc));
    assert_eq!(f.vptr, 0x200);
    assert_eq!(p.returned, vec![Region { raw: HEAP, layout: Layout { size: 40, align: 8 } }]);
    assert!(p.freed.is_empty());
    assert_eq!(p.count(), 0);
}

#[test]
fn cycle_in_non_gc_value_object_graph() {
    let mut p = Process::new();
    debug_flags(&mut p.heap, DebugFlags::new().sweep_phase(false));
    let y = p.gc(123usize, &[]);
    let s = p.plain(&[0, address(y)]);
    p.fill(s, &[s]);
    p.stack.push(s);
    p.collect();
    assert!(gcmalloc::Debug::is_black(&p.heap, s));
    assert!(gcmalloc::Debug::is_black(&p.heap, address(y)));
}

/// Three nodes that point to each other in a circle.
fn make_objgraph(p: &mut Process) -> [Gc<&'static str>; 3] {
    let a = p.gc("a", &[]);
    let b = p.gc("b", &[]);
    let c = p.gc("c", &[]);
    p.fill(address(a), &[address(b)]);
    p.fill(address(b), &[address(c)]);
    p.fill(address(c), &[address(a)]);
    [a, b, c]
}

#[test]
fn cyclic_destructors() {
    let mut p = Process::new();
    debug_flags(&mut p.heap, DebugFlags::new().mark_phase(false));
    let nodes = make_objgraph(&mut p);
    p.stack.push(address(nodes[0]));
    p.collect();
    assert_eq!(p.dropped.len(), 3);
    // From the oldest block to the newest, and none of them twice.
    let order: Vec<u64> = p.dropped.iter().map(|f| f.base).collect();
    assert_eq!(order, nodes.iter().map(|n| address(*n)).collect::<Vec<u64>>());
    p.collect();
    assert_eq!(p.dropped.len(), 3);
}

#[test]
fn simple_cyclic_objgraph() {
    let mut p = Process::new();
    debug_flags(&mut p.heap, DebugFlags::new().sweep_phase(false));
    let [a, b, c] = make_objgraph(&mut p);
    p.stack.push(address(a));
    p.collect();
    assert_eq!((*a, *b, *c), ("a", "b", "c"));
    assert!(gcmalloc::Debug::is_black(&p.heap, address(a)));
    assert!(gcmalloc::Debug::is_black(&p.heap, address(b)));
    assert!(gcmalloc::Debug::is_black(&p.heap, address(c)));
}

#[test]
fn unreachable_cycles_go() {
    let mut p = Process::new();
    let [a, _, _] = make_objgraph(&mut p);
    p.stack.push(address(a));
    p.collect();
    assert_eq!(p.count(), 3);
    p.stack.clear();
    p.collect();
    assert_eq!(p.count(), 0);
    assert_eq!(p.dropped.len(), 3);
}

#[test]
fn destructors_inner_gc() {
    let mut p = Process::new();
    debug_flags(&mut p.heap, DebugFlags::new().mark_phase(false));
    struct IncrOnDrop;
    struct HasInnerGc(#[allow(dead_code)] Gc<IncrOnDrop>);
    let inner = p.gc(IncrOnDrop, &[]);
    p.gc(HasInnerGc(inner), &[address(inner)]);
    p.collect();
    // One destructor for each of the two values.
    assert_eq!(p.dropped.len(), 2);
    assert_ne!(p.dropped[0].vptr, p.dropped[1].vptr);
    let vptr = p.vptr::<IncrOnDrop>();
    assert_eq!(p.dropped.iter().filter(|f| f.vptr == vptr).count(), 1);
}

#[test]
fn no_drop_live_inner() {
    let mut p = Process::new();
    debug_flags(&mut p.heap, DebugFlags::new().prep_phase(false).mark_phase(false));
    let inner = p.gc(1u8, &[]);
    gcmalloc::Debug::keep_alive(&mut p.heap, inner);
    let outer = p.gc([0u64; 2], &[address(inner)]);
    assert!(!Gc::inner(inner).drops_value(&p.heap.heap));
    assert!(Gc::inner(outer).drops_value(&p.heap.heap));
    p.collect();
    assert_eq!(p.dropped.len(), 1);
    assert_eq!(p.dropped[0].base, address(outer));
    assert!(p.has(address(inner)));
    assert!(gcmalloc::Debug::is_black(&p.heap, address(inner)));
}

#[test]
fn mark_through_gc_objects() {
    let mut p = Process::new();
    debug_flags(&mut p.heap, DebugFlags::new().sweep_phase(false));
    let leaves: Vec<u64> = (1..5).map(|i| address(p.gc(10 * i as usize, &[]))).collect();
    let x = p.gc([0u64; 2], &[leaves[0], leaves[1]]);
    let y = p.gc([0u64; 2], &[leaves[2], leaves[3]]);
    let inner = p.plain(&[0, address(x)]);
    let outer = p.plain(&[inner, address(y)]);
    p.stack.push(outer);
    p.collect();
    assert!(gcmalloc::Debug::is_black(&p.heap, address(x)));
    assert!(gcmalloc::Debug::is_black(&p.heap, address(y)));
    for leaf in leaves {
        assert!(gcmalloc::Debug::is_black(&p.heap, leaf));
    }
}

#[test]
fn mark_through_std_collections() {
    let mut p = Process::new();
    debug_flags(&mut p.heap, DebugFlags::new().sweep_phase(false));
    let mut gcs = Vec::new();
    for i in 1..100 {
        gcs.push(p.gc(i as i32, &[]));
    }
    let words: Vec<u64> = gcs.iter().map(|gc| address(*gc)).collect();
    let buffer = p.plain(&words);
    p.stack.push(buffer);
    p.collect();
    for gc in gcs.iter() {
        assert!(gcmalloc::Debug::is_black(&p.heap, address(*gc)));
    }
}

#[test]
fn multiple_collections() {
    let mut p = Process::new();
    let y = p.gc(456usize, &[]);
    p.stack.push(address(y));
    p.collect();
    assert!(gcmalloc::Debug::is_black(&p.heap, address(y)));

    // Enable only the preparation phase, to see if it clears y's mark-bit.
    debug_flags(&mut p.heap, DebugFlags::new().mark_phase(false).sweep_phase(false));
    p.collect();
    assert!(!gcmalloc::Debug::is_black(&p.heap, address(y)));

    // Now do a full collection...
    debug_flags(&mut p.heap, DebugFlags::new());
    p.collect();
    // ... and y should still be reachable.
    assert!(gcmalloc::Debug::is_black(&p.heap, address(y)));
    assert_eq!(p.dropped.len(), 0);
}

#[test]
fn on_stack_root_marking() {
    let mut p = Process::new();
    debug_flags(&mut p.heap, DebugFlags::new().sweep_phase(false));
    let x = p.gc(123usize, &[]);
    let y = p.gc(456usize, &[]);
    p.stack.push(address(x));
    p.stack.push(address(y));
    p.collect();
    assert!(gcmalloc::Debug::is_black(&p.heap, address(y)));
    assert!(gcmalloc::Debug::is_black(&p.heap, address(x)));
}

#[test]
fn prep_phase_resets_non_gc_objects() {
    let mut p = Process::new();
    debug_flags(&mut p.heap, DebugFlags::new().sweep_phase(false));
    let gc = p.gc(123i32, &[]);
    let x = p.plain(&[address(gc)]);
    p.stack.push(x);

    // The first collection should colour x black.
    p.collect();
    assert!(gcmalloc::Debug::is_black(&p.heap, x));

    // The preparation phase for the second collection should reset x to white.
    debug_flags(&mut p.heap, DebugFlags::new().sweep_phase(false).mark_phase(false));
    p.collect();
    assert!(!gcmalloc::Debug::is_black(&p.heap, x));
}

#[test]
fn static_roots() {
    let mut p = Process::new();
    debug_flags(&mut p.heap, DebugFlags::new().sweep_phase(false));
    let root = p.gc("hello world".to_string(), &[]);
    p.statics.push(address(root));
    p.collect();
    assert!(gcmalloc::Debug::is_black(&p.heap, address(root)));
}

#[test]
fn new_from_layout() {
    struct Inner;
    struct Large(#[allow(dead_code)] [usize; 10]);

    let mut p = Process::new();
    // Ensure that collection will always reclaim the object.
    debug_flags(&mut p.heap, DebugFlags::new().mark_phase(false));
    let layout = Layout::from_size_align(8, 8).unwrap();

    fn init<T: 'static>(p: &mut Process, gc: Gc<MaybeUninit<T>>, value: T) -> Gc<T> {
        let init: &'static GcBox<T> =
            Box::leak(Box::new(GcBox::at(address(gc), value)));
        let vptr = p.vptr::<T>();
        gc.assume_init(&mut p.heap, init, vptr)
    }

    // First, check that we can't create a Gc value for a layout smaller than T.
    let l = p.uninit::<Large>(layout);
    assert!(l.is_none());
    assert_eq!(p.count(), 0);
    assert_eq!(p.heap.collector.allocations, 0);

    // Nor for one that is less aligned.
    let l = p.uninit::<u64>(Layout::from_size_align(64, 4).unwrap());
    assert!(l.is_none());

    // Since we obtain a Gc<MaybeUninit<T>>, no drop should be called on T if it
    // was never initialized.
    p.uninit::<Inner>(layout).unwrap();
    assert_eq!(p.heap.collector.allocations, 1);
    p.collect();
    assert_eq!(p.dropped.len(), 0);
    assert_eq!(p.freed.len(), 1);
    let (raw, l2) = (*p.raws.last().unwrap(), Layout { size: 40, align: 8 });
    assert_eq!(p.freed, vec![Region { raw, layout: l2 }]);
    assert_eq!(p.count(), 0);

    // Calling `assume_init()` will promote a Gc<MaybeUninit<T> to a Gc<T>,
    // meaning that T's drop method should now be called upon collection.
    let x = p.uninit::<Inner>(layout).unwrap();
    init(&mut p, x, Inner);
    p.collect();
    assert_eq!(p.dropped.len(), 1);

    let x = p.uninit::<Inner>(layout).unwrap();
    let y = init(&mut p, x.clone(), Inner);
    let z = init(&mut p, x.clone(), Inner);
    let w = init(&mut p, x, Inner);
    assert!(Gc::ptr_eq(&y, &z) && Gc::ptr_eq(&z, &w));

    // We can do this multiple times, but the end result should still be that
    // the underlying Gc value is only dropped once upon collection.
    p.collect();
    assert_eq!(p.dropped.len(), 2);
}

#[test]
fn unmarked_values_go_and_plain_blocks_stay() {
    let mut p = Process::new();
    let kept = p.gc(1usize, &[]);
    let gone = p.gc(2usize, &[]);
    let plain = p.plain(&[7]);
    p.stack.push(address(kept));
    p.collect();
    assert!(p.has(address(kept)));
    assert!(!p.has(address(gone)));
    // A block that is not collected stays, reachable or not.
    assert!(p.has(plain));
    assert!(!gcmalloc::Debug::is_black(&p.heap, plain));
    assert_eq!(p.dropped.len(), 1);
    assert_eq!(p.dropped[0].base, address(gone));
    assert_eq!(p.count() + p.dropped.len() + p.freed.len(), 3);
}

#[test]
fn without_sweeping_nothing_goes() {
    let mut p = Process::new();
    debug_flags(&mut p.heap, DebugFlags::new().sweep_phase(false));
    p.gc(1usize, &[]);
    p.gc(2usize, &[]);
    p.collect();
    assert_eq!(p.count(), 2);
    assert_eq!(p.dropped.len() + p.freed.len(), 0);
}

#[test]
fn collecting_again_changes_nothing() {
    let mut p = Process::new();
    let a = p.gc(1usize, &[]);
    let b = p.gc(2usize, &[]);
    // Stale words in dead blocks keep nothing alive.
    p.fill(address(b), &[address(a)]);
    let c = p.plain(&[address(a)]);
    p.stack.push(c);
    p.collect();
    assert_eq!(p.count(), 2);
    assert_eq!(p.dropped.len(), 1);
    p.collect();
    p.collect();
    assert_eq!(p.count(), 2);
    assert_eq!(p.dropped.len(), 1);
    assert!(gcmalloc::Debug::is_black(&p.heap, address(a)));
}

#[test]
fn integers_below_the_heap_are_no_pointers() {
    let mut p = Process::new();
    let a = p.gc(1usize, &[]);
    p.stack.push(address(a) - 1);
    p.stack.push(HEAP);
    p.stack.push(0);
    p.stack.push(u64::MAX);
    p.collect();
    assert!(!p.has(address(a)));
}

#[test]
fn unknown_words_or_destructors_are_noticed() {
    let mut p = Process::new();
    p.gc(1usize, &[]);
    let mut world = p.world();
    assert!(p.heap.is_collectable(&world));
    // A stack of which nothing is known.
    world.rsp = 0x5000;
    world.stack_start = 0x5008;
    assert!(!p.heap.is_collectable(&world));
    debug_flags(&mut p.heap, DebugFlags::new().mark_phase(false));
    assert!(p.heap.is_collectable(&world));
    // A collected block without a destructor.
    let layout = Layout::from_size_align(8, 8).unwrap();
    let (raw, _) = p.raw(layout);
    assert!(p.heap.poll(&world).is_none());
    p.heap.alloc_block(layout, raw);
    assert!(!p.heap.is_collectable(&world));
    debug_flags(&mut p.heap, DebugFlags::new().mark_phase(false).sweep_phase(false));
    assert!(p.heap.is_collectable(&world));
}

#[test]
fn memory_goes_back_where_it_came_from() {
    let mut p = Process::new();
    debug_flags(&mut p.heap, DebugFlags::new().mark_phase(false));
    p.gc(1u8, &[]);
    p.gc(1u128, &[]);
    p.gc([1u64; 9], &[]);
    let raws = p.raws.clone();
    p.collect();
    assert_eq!(p.returned.iter().map(|r| r.raw).collect::<Vec<u64>>(), raws);
    let sizes: Vec<u64> = p.returned.iter().map(|r| r.layout.size).collect();
    assert_eq!(sizes, vec![33, 48, 104]);
    // Also where the alignment is larger than a header.
    let layout = Layout::from_size_align(100, 64).unwrap();
    p.uninit::<u8>(layout).unwrap();
    let raw = *p.raws.last().unwrap();
    p.collect();
    let region = Region { raw, layout: Layout { size: 164, align: 64 } };
    assert_eq!(p.freed, vec![region]);
    let x = p.uninit::<u8>(layout).unwrap();
    let init: &'static GcBox<u8> = Box::leak(Box::new(GcBox::at(address(x), 1)));
    x.assume_init(&mut p.heap, init, 0x300);
    let raw = *p.raws.last().unwrap();
    p.collect();
    assert_eq!(p.returned[3], Region { raw, ..region });
}

#[test]
fn values_are_roots_until_they_are_in_their_blocks() {
    let mut p = Process::new();
    set_threshold(&mut p.heap, 2);
    let inner = p.gc(1usize, &[]);
    let lost = p.gc(2usize, &[]);
    // The collection that is due before this allocation sees the value.
    let outer = p.gc(inner, &[address(inner)]);
    assert_eq!(p.collections, 1);
    assert!(p.has(address(inner)));
    assert!(!p.has(address(lost)));
    assert!(p.has(address(outer)));
}

#[test]
fn destructors_may_use_the_heap() {
    let mut p = Process::new();
    let kept = p.plain(&[1]);
    let a = p.gc(1usize, &[]);
    let b = p.gc(2usize, &[]);
    let world = p.world();
    let freed = collect(&mut p.heap, &world);
    assert!(freed.is_empty());
    assert_eq!(p.count(), 3);
    // The first destructor frees one block that is not collected, and
    // allocates and moves another.
    let f = p.heap.next_destructor().unwrap();
    assert_eq!((f.base, f.runs), (address(a), true));
    assert_eq!(p.heap.next_destructor(), Some(f));
    let layout = Layout::from_size_align(8, 8).unwrap();
    p.heap.heap.dealloc(kept, layout);
    let (raw, _) = p.raw(layout);
    let new = p.heap.heap.alloc_block(layout, false, raw);
    let (raw, _) = p.raw(Layout::from_size_align(16, 8).unwrap());
    let new = p.heap.heap.realloc(new, layout, 16, raw);
    p.heap.destructor_ran();
    // The second one is not harmed.
    let f = p.heap.next_destructor().unwrap();
    assert_eq!((f.base, f.runs), (address(b), true));
    p.heap.destructor_ran();
    assert!(p.heap.next_destructor().is_none());
    assert_eq!(p.count(), 1);
    assert!(p.has(new));
}

#[test]
fn destructors_run_oldest_first_and_memory_goes_newest_first() {
    let mut p = Process::new();
    debug_flags(&mut p.heap, DebugFlags::new().mark_phase(false));
    let layout = Layout::from_size_align(8, 8).unwrap();
    let mut plain = Vec::new();
    for i in 0..3 {
        p.gc(i as u64, &[]);
        p.uninit::<u64>(layout).unwrap();
        plain.push(*p.raws.last().unwrap());
    }
    p.collect();
    assert!(p.dropped[0].base < p.dropped[1].base && p.dropped[1].base < p.dropped[2].base);
    plain.reverse();
    assert_eq!(p.freed.iter().map(|f| f.raw).collect::<Vec<u64>>(), plain);
    assert!(p.freed.iter().all(|f| f.layout == Layout { size: 40, align: 8 }));
}
