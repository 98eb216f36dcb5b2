//! Garbage-collected pointers.
use crate::allocator::{block_layout, has_block_layout, value_offset, Block, GlobalAllocator};
use crate::gcalloc::{fresh_chunk, GcAllocator};
use crate::layout::{max, round_up, Layout};
use crate::metadata::{BlockMetadata, VPTR_MASK};
use crate::model::{
    has_base, index_of, lemma_index_of, lemma_index_unique, md_of, vacant, with_md, WORD_SIZE,
};
use core::mem::{size_of_val, ManuallyDrop, MaybeUninit};
use core::ops::Deref;
use vstd::prelude::*;
use vstd::std_specs::cmp::PartialEqSpec;
use vstd::std_specs::manually_drop::ManuallyDropAdditionalFns;

verus! {

/// The colour of a block during marking.
#[derive(Clone, Copy, Debug, PartialEq, Eq, Structural)]
pub enum Colour {
    /// The block was reached.
    Black,
    /// The block was not reached.
    White,
}

/// A `GcBox` wraps the value in a collected block. It allows multiple, copyable
/// `Gc` references, and it keeps the destructor of the value from running unless
/// the value is really dead.
///
/// The value is at the address of the block, and the block is no larger than the
/// value. The word in front of the value, which tells that address, lies in the
/// memory that every block has for its header.
pub struct GcBox<T: ?Sized> {
    base: u64,
    value: ManuallyDrop<T>,
}

impl<T: ?Sized> GcBox<T> {
    /// The address of the value: that of the block it is in.
    pub closed spec fn base(&self) -> u64 {
        self.base
    }

    /// The value in the box.
    pub closed spec fn value(&self) -> &T {
        self.value.view_ref()
    }

    /// The value in the box.
    pub fn get(&self) -> (r: &T)
        ensures
            r == self.value(),
    {
        &self.value
    }

    /// The block that the box is in.
    pub fn block(&self) -> (r: Block)
        ensures
            r.base == self.base(),
    {
        Block::new(self.base)
    }

    /// Is the destructor of the value to run when the box is dropped? It is
    /// not unless the value is really dead.
    pub fn drops_value(&self, heap: &GlobalAllocator) -> (r: bool)
        requires
            heap.wf(),
            has_base(heap@, self.base()),
        ensures
            r == !md_of(heap@, self.base()).mark_bit,
    {
        if self.block().colour(heap) == Colour::Black {
            return false;
        }
        true
    }
}

/// The layout of a value of type `T`.
pub open spec fn layout_of<T>() -> Layout {
    Layout {
        size: vstd::layout::size_of::<T>() as u64,
        align: vstd::layout::align_of::<T>() as u64,
    }
}

/// Is a layout large enough, and aligned enough, for a value of type `T`?
pub open spec fn fits<T>(layout: Layout) -> bool {
    &&& layout.size >= vstd::layout::size_of::<T>()
    &&& layout.align >= vstd::layout::align_of::<T>()
}

/// Is a layout large enough, and aligned enough, for a value of type `T`?
pub fn layout_fits<T>(layout: Layout) -> (r: bool)
    ensures
        r == fits::<T>(layout),
        r == (layout.size >= vstd::layout::size_of::<T>() && layout.align
            >= vstd::layout::align_of::<T>()),
{
    let tl = Layout::new::<T>();
    !(layout.size < tl.size || layout.align < tl.align)
}

impl<T> GcBox<T> {
    /// The box of a value in the block at `base`.
    pub fn at(base: u64, value: T) -> (r: GcBox<T>)
        ensures
            r.base() == base,
            *r.value() == value,
    {
        GcBox { base, value: ManuallyDrop::new(value) }
    }

    /// Enters a new block for a value of type `T` and returns the box to be
    /// placed in it. The system allocator handed the memory of the block out at
    /// `raw`. The vtable of the box's `Drop` implementation is at `vptr`.
    ///
    /// While the collector was asked whether it needs to collect garbage, the
    /// value was with the caller, whose stack is scanned for roots.
    pub fn new(heap: &mut GcAllocator, raw: u64, value: T, vptr: u64) -> (r: GcBox<T>)
        requires
            old(heap).ready(),
            old(heap).polled,
            old(heap).collector.allocations < usize::MAX,
            has_block_layout(layout_of::<T>()),
            raw != 0,
            raw + block_layout(layout_of::<T>()).size <= u64::MAX,
            vacant(
                old(heap).heap@,
                raw as int,
                raw + block_layout(layout_of::<T>()).size,
            ),
            0 < vptr <= VPTR_MASK,
            vptr != old(heap).dummy_vptr,
        ensures
            final(heap).ready(),
            !final(heap).polled,
            old(heap).settled() ==> final(heap).settled(),
            r.base() == raw + value_offset(layout_of::<T>()),
            raw % layout_of::<T>().align == 0 ==> r.base() % layout_of::<T>().align == 0,
            *r.value() == value,
            final(heap).heap@ == old(heap).heap@.push(
                fresh_chunk(r.base(), layout_of::<T>(), vptr, raw),
            ),
            final(heap).heap@.last().base == r.base(),
            final(heap).heap@.last().md.is_gc,
            !final(heap).heap@.last().md.mark_bit,
            final(heap).heap@.last().md.drop_vptr == vptr,
            vstd::layout::size_of::<T>() < 0x4000_0000_0000_0000
                ==> final(heap).heap@.last().md.size == vstd::layout::size_of::<T>(),
            final(heap).heap@.last().region.raw == raw,
            final(heap).heap.top() == max(
                old(heap).heap.top() as int,
                r.base() + layout_of::<T>().size,
            ),
            final(heap).collector.debug_flags == old(heap).collector.debug_flags,
            final(heap).collector.allocation_threshold
                == old(heap).collector.allocation_threshold,
            final(heap).collector.allocations == old(heap).collector.allocations + 1,
            final(heap).dummy_vptr == old(heap).dummy_vptr,
    {
        let base = alloc_value(heap, Layout::new::<T>(), raw, vptr);
        proof {
            crate::laws::law_new_block_is_collected(base, layout_of::<T>(), vptr, raw);
        }
        GcBox::at(base, value)
    }

    /// Enters a new block of layout `layout` and returns the box, without a
    /// value, to be placed in it. Until the value is initialized, its block has
    /// the vtable of values that need no dropping.
    fn new_from_layout(heap: &mut GcAllocator, layout: Layout, raw: u64) -> (r: GcBox<
        MaybeUninit<T>,
    >)
        requires
            old(heap).ready(),
            old(heap).polled,
            old(heap).collector.allocations < usize::MAX,
            layout.wf(),
            has_block_layout(layout),
            raw != 0,
            raw + block_layout(layout).size <= u64::MAX,
            vacant(old(heap).heap@, raw as int, raw + block_layout(layout).size),
        ensures
            final(heap).ready(),
            !final(heap).polled,
            old(heap).settled() ==> final(heap).settled(),
            r.base() == raw + value_offset(layout),
            raw % layout.align == 0 ==> r.base() % layout.align == 0,
            final(heap).heap@ == old(heap).heap@.push(
                fresh_chunk(r.base(), layout, old(heap).dummy_vptr, raw),
            ),
            final(heap).heap.top() == max(
                old(heap).heap.top() as int,
                r.base() + layout.size,
            ),
            final(heap).collector.debug_flags == old(heap).collector.debug_flags,
            final(heap).collector.allocation_threshold
                == old(heap).collector.allocation_threshold,
            final(heap).collector.allocations == old(heap).collector.allocations + 1,
            final(heap).dummy_vptr == old(heap).dummy_vptr,
    {
        let dummy_vptr = heap.dummy_vptr;
        let base = alloc_value(heap, layout, raw, dummy_vptr);
        GcBox::at(base, MaybeUninit::uninit())
    }

    /// The address where a box has to be placed for its value to be at `base`:
    /// one word in front of it, and as much further as the alignment of the
    /// value asks for.
    pub fn address_for(base: u64) -> (r: u64)
        requires
            base >= round_up(WORD_SIZE as int, layout_of::<T>().align as int),
        ensures
            r == base - round_up(WORD_SIZE as int, layout_of::<T>().align as int),
    {
        let layout = Layout::new::<T>();
        proof {
            crate::layout::lemma_word_rounds_up(layout);
        }
        let over = WORD_SIZE % layout.align;
        if over == 0 {
            base - WORD_SIZE
        } else {
            base - (WORD_SIZE + (layout.align - over))
        }
    }
}

/// Enters a new collected block for a value of layout `layout`, whose destructor
/// is in the vtable at `vptr`.
fn alloc_value(heap: &mut GcAllocator, layout: Layout, raw: u64, vptr: u64) -> (p: u64)
    requires
        old(heap).ready(),
        old(heap).polled,
        old(heap).collector.allocations < usize::MAX,
        layout.wf(),
        has_block_layout(layout),
        raw != 0,
        raw + block_layout(layout).size <= u64::MAX,
        vacant(old(heap).heap@, raw as int, raw + block_layout(layout).size),
        0 < vptr <= VPTR_MASK,
    ensures
        final(heap).ready(),
        !final(heap).polled,
        old(heap).settled() ==> final(heap).settled(),
        p == raw + value_offset(layout),
        raw % layout.align == 0 ==> p % layout.align == 0,
        final(heap).heap@ == old(heap).heap@.push(fresh_chunk(p, layout, vptr, raw)),
        final(heap).heap.top() == max(old(heap).heap.top() as int, p + layout.size),
        final(heap).collector.debug_flags == old(heap).collector.debug_flags,
        final(heap).collector.allocation_threshold == old(heap).collector.allocation_threshold,
        final(heap).collector.allocations == old(heap).collector.allocations + 1,
        final(heap).dummy_vptr == old(heap).dummy_vptr,
{
    let p = heap.alloc_block(layout, raw);
    proof {
        let h = old(heap).heap@;
        let c = fresh_chunk(p, layout, 0, raw);
        let d = fresh_chunk(p, layout, vptr, raw);
        heap.heap.lemma_heap_wf();
        assert(heap.heap@ == h.push(c));
        lemma_index_unique(heap.heap@, h.len() as int);
        assert(vptr & 0x7fff_ffff_ffff_ffffu64 == vptr) by (bit_vector)
            requires
                vptr <= 0x7fff_ffff_ffff_ffffu64,
        ;
        assert(h.push(c).update(h.len() as int, d) =~= h.push(d));
    }
    Block::new(p).set_drop_vptr(&mut heap.heap, vptr);
    p
}

/// A garbage collected pointer. 'Gc' stands for 'Garbage collected'.
///
/// The type `Gc<T>` provides shared ownership of a value of type `T`,
/// allocated in the heap. `Gc` pointers are copyable, so new pointers to the
/// same value in the heap can be produced trivially. The lifetime of `T` is
/// tracked automatically: it is freed when the application determines that no
/// references to `T` are in scope. This does not happen deterministically, and
/// no guarantees are given about when a value managed by `Gc` is freed.
///
/// Unlike `Rc<T>`, cycles between `Gc` pointers are allowed and can be
/// deallocated without issue.
///
/// `Gc<T>` automatically dereferences to `T` (via the `Deref` trait), so you
/// can call `T`'s methods on a value of type `Gc<T>`.
pub struct Gc<T: ?Sized + 'static> {
    ptr: &'static GcBox<T>,
}

/// A raw pointer to a value in a block: the address that it holds, and what is
/// there.
pub struct RawPtr<T: ?Sized + 'static> {
    /// The address.
    pub addr: u64,
    /// The value at that address.
    pub value: &'static T,
}

impl<T> Gc<T> {
    /// Constructs a new `Gc<T>`: the pointer to the box that [`GcBox::new`] made
    /// for a value, once the box is in its place.
    pub fn new(ptr: &'static GcBox<T>) -> (r: Self)
        ensures
            r.target() == ptr,
            r.address() == ptr.base(),
    {
        Gc::from_inner(ptr)
    }

    /// Enters a new block which is capable of storing data up to the size
    /// permissible by `layout`, and returns the box to be placed in it. The
    /// system allocator handed the memory of the block out at `raw`.
    ///
    /// This can be useful if you want to store a value with a custom layout,
    /// but have the collector treat the value as if it were T.
    ///
    /// `layout` must be at least as large as `T`, and have an alignment which
    /// is the same, or bigger than `T`. Otherwise nothing is allocated.
    pub fn new_from_layout(
        heap: &mut GcAllocator,
        layout: Layout,
        raw: u64,
    ) -> (r: Option<GcBox<MaybeUninit<T>>>)
        requires
            fits::<T>(layout) ==> {
                &&& old(heap).ready()
                &&& old(heap).polled
                &&& old(heap).collector.allocations < usize::MAX
                &&& layout.wf()
                &&& has_block_layout(layout)
                &&& raw != 0
                &&& raw + block_layout(layout).size <= u64::MAX
                &&& vacant(old(heap).heap@, raw as int, raw + block_layout(layout).size)
            },
        ensures
            r is Some <==> fits::<T>(layout),
            r is Some <==> layout.size >= vstd::layout::size_of::<T>() && layout.align
                >= vstd::layout::align_of::<T>(),
            r is None ==> *final(heap) == *old(heap),
            r matches Some(b) ==> {
                &&& final(heap).ready()
                &&& !final(heap).polled
                &&& old(heap).settled() ==> final(heap).settled()
                &&& b.base() == raw + value_offset(layout)
                &&& raw % layout.align == 0 ==> b.base() % layout.align == 0
                &&& final(heap).heap@ == old(heap).heap@.push(
                    fresh_chunk(b.base(), layout, old(heap).dummy_vptr, raw),
                )
                &&& final(heap).heap@.last().base == b.base()
                &&& final(heap).heap@.last().md.is_gc
                &&& !final(heap).heap@.last().md.mark_bit
                &&& final(heap).heap@.last().md.drop_vptr == old(heap).dummy_vptr
                &&& layout.size < 0x4000_0000_0000_0000 ==> {
                    &&& final(heap).heap@.last().md.size == layout.size
                    &&& final(heap).heap@.last().md.size >= vstd::layout::size_of::<T>()
                }
                &&& final(heap).heap@.last().region.raw == raw
                &&& final(heap).heap.top() == max(
                    old(heap).heap.top() as int,
                    b.base() + layout.size,
                )
                &&& final(heap).collector.debug_flags == old(heap).collector.debug_flags
                &&& final(heap).collector.allocation_threshold
                    == old(heap).collector.allocation_threshold
                &&& final(heap).collector.allocations == old(heap).collector.allocations + 1
                &&& final(heap).dummy_vptr == old(heap).dummy_vptr
            },
    {
        if !layout_fits::<T>(layout) {
            return None;
        }
        let boxed = GcBox::<T>::new_from_layout(heap, layout, raw);
        proof {
            crate::laws::law_new_block_is_collected(boxed.base(), layout, heap.dummy_vptr, raw);
        }
        Some(boxed)
    }
}

impl<T: ?Sized> Gc<T> {
    /// The box that is pointed to.
    pub closed spec fn target(&self) -> &'static GcBox<T> {
        self.ptr
    }

    /// The address that is pointed to.
    pub open spec fn address(&self) -> u64 {
        self.target().base()
    }

    /// The raw pointer to the underlying value: the value is at the address of
    /// its block.
    pub open spec fn raw(&self) -> RawPtr<T> {
        RawPtr { addr: self.address(), value: self.target().value() }
    }

    /// Do two pointers point to the same block, and to as much of it?
    pub open spec fn is_same(&self, other: &Self) -> bool {
        &&& self.address() == other.address()
        &&& vstd::layout::spec_size_of_val::<T>(self.target().value())
            == vstd::layout::spec_size_of_val::<T>(other.target().value())
    }

    /// Get a raw pointer to the underlying value `T`.
    pub fn into_raw(this: Self) -> (r: RawPtr<T>)
        ensures
            r == this.raw(),
    {
        RawPtr { addr: this.ptr.base, value: this.ptr.get() }
    }

    /// The box that is pointed to.
    pub fn inner(this: Self) -> (r: &'static GcBox<T>)
        ensures
            r == this.target(),
    {
        this.ptr
    }

    /// Do two pointers point to the same block, and to as much of it? Slices of
    /// different lengths that start at one address are different.
    pub fn ptr_eq(this: &Self, other: &Self) -> (r: bool)
        ensures
            r == this.is_same(other),
            this.address() != other.address() ==> !r,
            r <==> this.address() == other.address() && vstd::layout::spec_size_of_val::<T>(
                this.target().value(),
            ) == vstd::layout::spec_size_of_val::<T>(other.target().value()),
    {
        this.ptr.base == other.ptr.base && size_of_val(this.ptr.get()) == size_of_val(
            other.ptr.get(),
        )
    }

    /// Makes a `Gc` of what [`Gc::into_raw`] returned: `ptr` is the box around
    /// the value.
    pub fn from_raw(raw: RawPtr<T>, ptr: &'static GcBox<T>) -> (r: Gc<T>)
        requires
            ptr.base() == raw.addr,
            ptr.value() == raw.value,
        ensures
            r.target() == ptr,
            r.raw() == raw,
    {
        Gc { ptr }
    }

    /// The pointer to a box.
    pub fn from_inner(ptr: &'static GcBox<T>) -> (r: Gc<T>)
        ensures
            r.target() == ptr,
    {
        Gc { ptr }
    }

    /// The pointer to the same block at the type `U`, if the value in the block
    /// was found to be of that type: then `found` is its box. Otherwise the
    /// pointer is handed back as it is.
    pub fn downcast<U>(&self, found: Option<&'static GcBox<U>>) -> (r: Result<Gc<U>, Gc<T>>)
        requires
            found matches Some(ptr) ==> ptr.base() == self.address(),
        ensures
            r is Ok <==> found is Some,
            r matches Ok(gc) ==> gc.target() == found->Some_0 && gc.address() == self.address(),
            r matches Err(gc) ==> gc == *self,
    {
        match found {
            Some(ptr) => Ok(Gc::from_inner(ptr)),
            None => Err(Gc::from_inner(self.ptr)),
        }
    }
}

/// A pointer is what it points to: making a pointer of what another one was
/// turned into gives that pointer back.
pub proof fn law_target_is_all<T: ?Sized>(a: Gc<T>, b: Gc<T>)
    requires
        a.target() == b.target(),
    ensures
        a == b,
{
}

/// The raw pointer of a `Gc` to a box in a block is not null, holds the address of
/// the block, and leads to the value in the box. Copies of a `Gc` have the same
/// one.
pub proof fn law_raw_pointer<T: ?Sized>(
    heap: &GlobalAllocator,
    boxed: &'static GcBox<T>,
    gc: Gc<T>,
    copy: Gc<T>,
)
    requires
        heap.wf(),
        has_base(heap@, boxed.base()),
        gc.target() == boxed,
        copy == gc,
    ensures
        gc.raw().addr != 0,
        gc.raw().addr == heap@[index_of(heap@, boxed.base())].base,
        gc.raw().value == boxed.value(),
        copy.raw() == gc.raw(),
{
    heap.lemma_heap_wf();
    lemma_index_of(heap@, boxed.base());
    assert(crate::model::chunk_wf(heap@[index_of(heap@, boxed.base())]));
}

impl<T> Gc<MaybeUninit<T>> {
    /// The pointer to the same block once the value in it is initialized:
    /// `init` is the box at its new type. From now on, if the block is
    /// reclaimed, the value will be dropped by the destructor in the vtable at
    /// `vptr`.
    pub fn assume_init(
        self,
        heap: &mut GcAllocator,
        init: &'static GcBox<T>,
        vptr: u64,
    ) -> (r: Gc<T>)
        requires
            old(heap).wf(),
            has_base(old(heap).heap@, self.address()),
            init.base() == self.address(),
            0 < vptr <= VPTR_MASK,
            vptr != old(heap).dummy_vptr,
        ensures
            final(heap).wf(),
            old(heap).settled() ==> final(heap).settled(),
            final(heap).heap@ == with_md(
                old(heap).heap@,
                self.address(),
                BlockMetadata {
                    drop_vptr: vptr,
                    ..md_of(old(heap).heap@, self.address())
                },
            ),
            final(heap).heap.top() == old(heap).heap.top(),
            final(heap).collector == old(heap).collector,
            final(heap).phase == old(heap).phase,
            final(heap).dummy_vptr == old(heap).dummy_vptr,
            final(heap).polled == old(heap).polled,
            r.target() == init,
    {
        self.ptr.assume_init(heap, vptr);
        Gc::from_inner(init)
    }
}

impl<T> GcBox<MaybeUninit<T>> {
    /// With `T` now considered initialized, we must make sure that if the box
    /// is reclaimed, `T` will be dropped: its vtable replaces the one of values
    /// that need no dropping.
    fn assume_init(&self, heap: &mut GcAllocator, vptr: u64)
        requires
            old(heap).wf(),
            has_base(old(heap).heap@, self.base()),
            0 < vptr <= VPTR_MASK,
        ensures
            final(heap).wf(),
            old(heap).settled() ==> final(heap).settled(),
            final(heap).heap@ == with_md(
                old(heap).heap@,
                self.base(),
                BlockMetadata { drop_vptr: vptr, ..md_of(old(heap).heap@, self.base()) },
            ),
            final(heap).heap.top() == old(heap).heap.top(),
            final(heap).collector == old(heap).collector,
            final(heap).phase == old(heap).phase,
            final(heap).dummy_vptr == old(heap).dummy_vptr,
            final(heap).polled == old(heap).polled,
    {
        proof {
            assert(vptr & 0x7fff_ffff_ffff_ffffu64 == vptr) by (bit_vector)
                requires
                    vptr <= 0x7fff_ffff_ffff_ffffu64,
            ;
        }
        self.block().set_drop_vptr(&mut heap.heap, vptr);
        proof {
            let h = old(heap).heap@;
            lemma_index_of(h, self.base());
            if old(heap).settled() {
                let g = heap.heap@;
                assert forall|k: int| 0 <= k < g.len() && (#[trigger] g[k]).md.is_gc implies g[k].md.drop_vptr
                    != 0 by {
                    if k != index_of(h, self.base()) {
                        assert(g[k] == h[k]);
                    }
                }
            }
        }
    }
}

impl<T: ?Sized> Deref for Gc<T> {
    type Target = T;

    fn deref(&self) -> (r: &T)
        ensures
            r == self.target().value(),
    {
        self.ptr.get()
    }
}

/// Two `Gc` pointers are equal when they point to the same block, and to as much
/// of it.
impl<T: ?Sized> PartialEq for Gc<T> {
    fn eq(&self, other: &Self) -> (r: bool) {
        Gc::ptr_eq(self, other)
    }
}

impl<T: ?Sized> vstd::std_specs::cmp::PartialEqSpecImpl for Gc<T> {
    open spec fn obeys_eq_spec() -> bool {
        true
    }

    open spec fn eq_spec(&self, other: &Self) -> bool {
        self.is_same(other)
    }
}

impl<T: ?Sized> Eq for Gc<T> {

}

/// A reference to `Gc<T>` is copyable regardless of `T`.
impl<T: ?Sized> Copy for Gc<T> {

}

impl<T: ?Sized> Clone for Gc<T> {
    fn clone(&self) -> (r: Self)
        ensures
            r == *self,
    {
        Gc::from_inner(self.ptr)
    }
}

/// A layout fits a type exactly when it is no smaller and no less aligned than the
/// type. A layout that fits also fits every type that is no larger and no more
/// aligned.
pub proof fn law_what_fits<T>(layout: Layout)
    ensures
        fits::<T>(layout) <==> layout.size >= vstd::layout::size_of::<T>() && layout.align
            >= vstd::layout::align_of::<T>(),
        layout_of::<T>().size == vstd::layout::size_of::<T>() as u64,
        layout_of::<T>().align == vstd::layout::align_of::<T>() as u64,
{
}

/// Pointers to different blocks differ. Pointers to the same address are the same
/// exactly when what they point to is as large. Being the same is an equivalence.
pub proof fn law_pointers_to_different_blocks_differ<T: ?Sized>(a: Gc<T>, b: Gc<T>, c: Gc<T>)
    ensures
        a.target().base() != b.target().base() ==> !a.is_same(&b),
        a.target().base() == b.target().base() ==> (a.is_same(&b)
            <==> vstd::layout::spec_size_of_val::<T>(a.target().value())
            == vstd::layout::spec_size_of_val::<T>(b.target().value())),
        a.is_same(&a),
        a.is_same(&b) ==> b.is_same(&a),
        a.is_same(&b) && b.is_same(&c) ==> a.is_same(&c),
        a.address() == a.target().base(),
        a.raw().addr == a.target().base(),
        a.raw().value == a.target().value(),
{
}

/// Comparing two pointers with `==` tells whether they point to one address and to
/// values of one size.
pub proof fn law_equal_pointers<T: ?Sized>(a: Gc<T>, b: Gc<T>)
    ensures
        Gc::<T>::obeys_eq_spec(),
        a.eq_spec(&b) <==> a.target().base() == b.target().base()
            && vstd::layout::spec_size_of_val::<T>(a.target().value())
            == vstd::layout::spec_size_of_val::<T>(b.target().value()),
{
}

} // verus!
