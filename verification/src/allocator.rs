//! The list of all allocation blocks.
//!
//! Every block of memory that the system allocator hands out gets a header,
//! which links it to the block allocated before it and to the one allocated
//! after it. The newest block is the entry to the list.
use crate::layout::{can_extend, extended, max, next_offset, Layout};
use crate::gc::Colour;
use crate::metadata::{
    integer62, integer63, unpacked, BlockMetadata, SIZE_BLOCKMETADATA, SIZE_MASK, VPTR_MASK,
};
use crate::model::{
    apart, below_top, block_at, chunk_end, chunk_wf, has_base, heap_wf, holds, index_of, md_of,
    points_at, vacant, with_md, Chunk, Region, HEADER_SIZE,
};
use std::collections::HashMap;
use vstd::prelude::*;

verus! {

/// The header in front of every block.
#[derive(Clone, Copy)]
pub struct BlockHeader {
    /// The address of the header of the block allocated before this one, or
    /// null.
    prev: u64,
    /// The address of the header of the block allocated after this one, or
    /// null.
    next: u64,
    metadata: [u8; SIZE_BLOCKMETADATA],
    /// The memory that the header and the value are in.
    region: Region,
}

/// The block behind the header at `hp`.
spec fn chunk_at(hp: u64, header: BlockHeader) -> Chunk {
    Chunk { base: (hp + HEADER_SIZE) as u64, md: header.md(), region: header.region }
}

/// The layout of a block header.
pub open spec fn header_layout() -> Layout {
    Layout { size: HEADER_SIZE, align: 8 }
}

/// Is there a block, header included, for a value of this layout?
pub open spec fn has_block_layout(layout: Layout) -> bool {
    can_extend(header_layout(), layout)
}

/// The layout of the block, header included, for a value of this layout.
pub open spec fn block_layout(layout: Layout) -> Layout {
    extended(header_layout(), layout)
}

/// The position of the value in such a block.
pub open spec fn value_offset(layout: Layout) -> int {
    next_offset(header_layout(), layout)
}

/// The memory of a block for a value of this layout, once the system allocator
/// has moved it to `raw` and given the value a new size.
pub open spec fn moved_region(layout: Layout, new_size: u64, raw: u64) -> Region {
    Region {
        raw,
        layout: Layout {
            size: (value_offset(layout) + new_size) as u64,
            align: block_layout(layout).align,
        },
    }
}

/// The layout of the block, header included, for a value of this layout, with
/// the position of the value in it. There is none when the block would be too
/// large.
pub fn layout_with_header(layout: Layout) -> (r: Option<(Layout, u64)>)
    requires
        layout.wf(),
    ensures
        r is Some <==> has_block_layout(layout),
        r matches Some((l, uoff)) ==> {
            &&& l == block_layout(layout)
            &&& l.wf()
            &&& uoff == value_offset(layout)
            &&& HEADER_SIZE <= uoff
            &&& uoff % layout.align == 0
            &&& l.size == uoff + layout.size
        },
{
    proof {
        reveal_with_fuel(vstd::arithmetic::power2::is_pow2, 4);
        crate::layout::lemma_round_up(HEADER_SIZE as int, layout.align as int);
    }
    (Layout { size: HEADER_SIZE, align: 8 }).extend(layout)
}

impl BlockHeader {
    /// The metadata in the header.
    pub closed spec fn md(self) -> BlockMetadata {
        unpacked(self.metadata@)
    }

    /// The addresses of the headers before and after this one.
    pub closed spec fn links(self) -> (u64, u64) {
        (self.prev, self.next)
    }

    /// The memory that the header and the value are in.
    pub closed spec fn memory(self) -> Region {
        self.region
    }

    /// The header of a fresh block behind the block `last`.
    fn new(size: u64, is_gc: bool, last: u64, region: Region) -> (r: Self)
        ensures
            r.prev == last,
            r.next == 0,
            r.region == region,
            r.md() == (BlockMetadata {
                size: size & SIZE_MASK,
                is_gc,
                mark_bit: false,
                drop_vptr: 0,
            }),
            r.md().wf(),
    {
        let metadata = BlockMetadata::new(size, is_gc);
        BlockHeader { prev: last, next: 0, metadata: metadata.pack(), region }
    }

    /// Makes `next` the successor of the block at `header`, if there is one.
    fn patch_next(headers: &mut HashMap<u64, BlockHeader>, header: u64, next: u64)
        requires
            header != 0 ==> old(headers)@.contains_key(header),
        ensures
            final(headers)@ == next_patched(old(headers)@, header, next),
    {
        if header != 0 {
            let mut h = *headers.get(&header).unwrap();
            h.next = next;
            headers.insert(header, h);
        }
    }

    /// Makes `prev` the predecessor of the block at `header`, if there is one.
    fn patch_prev(headers: &mut HashMap<u64, BlockHeader>, header: u64, prev: u64)
        requires
            header != 0 ==> old(headers)@.contains_key(header),
        ensures
            final(headers)@ == prev_patched(old(headers)@, header, prev),
    {
        if header != 0 {
            let mut h = *headers.get(&header).unwrap();
            h.prev = prev;
            headers.insert(header, h);
        }
    }

    /// Reads the metadata.
    pub fn metadata(&self) -> (r: BlockMetadata)
        ensures
            r == self.md(),
            r.wf(),
    {
        BlockMetadata::unpack(&self.metadata)
    }

    /// Replaces the metadata.
    pub fn set_metadata(&mut self, metadata: BlockMetadata)
        requires
            metadata.wf(),
        ensures
            final(self).md() == metadata,
            final(self).links() == old(self).links(),
            final(self).memory() == old(self).memory(),
    {
        self.metadata = metadata.pack();
    }
}

/// The allocator of all blocks, collected or not.
pub struct GlobalAllocator {
    /// The headers, by their addresses.
    headers: HashMap<u64, BlockHeader>,
    /// The address of the header of the newest block, or null.
    last_alloced: u64,
    /// The highest address so far: no block ends above it.
    heap_top: u64,
    /// The addresses of the headers, from the oldest block to the newest.
    chain: Ghost<Seq<u64>>,
}

/// The headers form a doubly linked list in the order of the chain.
#[verifier::opaque]
spec fn linked(headers: Map<u64, BlockHeader>, chain: Seq<u64>) -> bool {
    &&& forall|a: u64|
        #![trigger headers.contains_key(a)]
        #![trigger chain.contains(a)]
        headers.contains_key(a) <==> chain.contains(a)
    &&& forall|i: int|
        0 <= i < chain.len() ==> (#[trigger] headers[chain[i]]).prev == (if i == 0 {
            0
        } else {
            chain[i - 1]
        })
    &&& forall|i: int|
        0 <= i < chain.len() ==> (#[trigger] headers[chain[i]]).next == (if i == chain.len() - 1 {
            0
        } else {
            chain[i + 1]
        })
}

/// The blocks that the headers in the chain belong to.
spec fn chunks(headers: Map<u64, BlockHeader>, chain: Seq<u64>) -> Seq<Chunk> {
    Seq::new(
        chain.len(),
        |i: int|
            chunk_at(chain[i], headers[chain[i]]),
    )
}

impl View for GlobalAllocator {
    type V = Seq<Chunk>;

    closed spec fn view(&self) -> Seq<Chunk> {
        chunks(self.headers@, self.chain@)
    }
}

impl GlobalAllocator {
    /// The headers form a list, no two blocks overlap, and none ends above the
    /// highest address.
    pub closed spec fn wf(&self) -> bool {
        &&& linked(self.headers@, self.chain@)
        &&& forall|i: int|
            0 <= i < self.chain@.len() ==> #[trigger] self.chain@[i] <= u64::MAX - HEADER_SIZE
        &&& self.last_alloced == (if self.chain@.len() == 0 {
            0
        } else {
            self.chain@.last()
        })
        &&& heap_wf(self@)
        &&& below_top(self@, self.heap_top)
    }

    /// The highest address so far: no block ends above it.
    pub closed spec fn top(&self) -> u64 {
        self.heap_top
    }

    /// The blocks of a well-formed allocator do not overlap, and none ends above
    /// the highest address.
    pub proof fn lemma_heap_wf(&self)
        requires
            self.wf(),
        ensures
            heap_wf(self@),
            below_top(self@, self.top()),
    {
    }

    /// No two headers have the same address.
    proof fn lemma_chain(&self)
        requires
            self.wf(),
        ensures
            distinct(self.chain@),
            forall|i: int|
                0 <= i < self.chain@.len() ==> {
                    &&& (#[trigger] self.chain@[i]) == self@[i].base - HEADER_SIZE
                    &&& self.chain@[i] != 0
                    &&& self.headers@.contains_key(self.chain@[i])
                },
    {
        reveal(linked);
        assert forall|i: int| 0 <= i < self.chain@.len() implies {
            &&& (#[trigger] self.chain@[i]) == self@[i].base - HEADER_SIZE
            &&& self.chain@[i] != 0
            &&& self.headers@.contains_key(self.chain@[i])
        } by {
            assert(chunk_wf(self@[i]));
            assert(self.chain@.contains(self.chain@[i]));
        }
        assert forall|i: int, j: int|
            0 <= i < self.chain@.len() && 0 <= j < self.chain@.len() && #[trigger] self.chain@[i]
                == #[trigger] self.chain@[j] implies i == j by {
            if i != j {
                assert(apart(self@[i], self@[j]));
            }
        }
    }

    /// An allocator without blocks.
    pub fn new() -> (r: Self)
        ensures
            r.wf(),
            r@ == Seq::<Chunk>::empty(),
            r.top() == 0,
    {
        let r = GlobalAllocator {
            headers: HashMap::new(),
            last_alloced: 0,
            heap_top: 0,
            chain: Ghost(Seq::empty()),
        };
        proof {
            reveal(linked);
            assert(r@ =~= Seq::<Chunk>::empty());
        }
        r
    }

    /// The highest address so far: no block ends above it.
    pub fn heap_top(&self) -> (r: u64)
        ensures
            r == self.top(),
    {
        self.heap_top
    }

    /// Raises the highest address to `top`.
    fn raise_top(&mut self, top: u64)
        ensures
            final(self).headers == old(self).headers,
            final(self).last_alloced == old(self).last_alloced,
            final(self).chain == old(self).chain,
            final(self).heap_top == max(old(self).heap_top as int, top as int),
    {
        if top > self.heap_top {
            self.heap_top = top;
        }
    }

    /// Enters a new block at the end of the list and returns the address of the
    /// value in it. The system allocator handed the memory of the block out at
    /// `raw`, with the layout that [`layout_with_header`] tells.
    pub fn alloc_block(&mut self, layout: Layout, is_gc: bool, raw: u64) -> (p: u64)
        requires
            old(self).wf(),
            layout.wf(),
            has_block_layout(layout),
            raw != 0,
            raw + block_layout(layout).size <= u64::MAX,
            vacant(old(self)@, raw as int, raw + block_layout(layout).size),
        ensures
            final(self).wf(),
            p == raw + value_offset(layout),
            raw % layout.align == 0 ==> p % layout.align == 0,
            final(self)@ == old(self)@.push(
                Chunk {
                    base: p,
                    md: BlockMetadata {
                        size: layout.size & SIZE_MASK,
                        is_gc,
                        mark_bit: false,
                        drop_vptr: 0,
                    },
                    region: Region { raw, layout: block_layout(layout) },
                },
            ),
            final(self).top() == max(old(self).top() as int, p + layout.size),
    {
        let (l2, uoff) = layout_with_header(layout).unwrap();
        let p = raw + uoff;
        let headerptr = p - HEADER_SIZE;
        let region = Region { raw, layout: l2 };
        let header = BlockHeader::new(layout.size, is_gc, self.last_alloced, region);
        let ghost chain = self.chain@.push(headerptr);
        proof {
            self.lemma_chain();
            if raw % layout.align == 0 {
                vstd::arithmetic::div_mod::lemma_mod_adds(
                    raw as int,
                    uoff as int,
                    layout.align as int,
                );
            }
            let size = layout.size;
            assert(size & 0x3fff_ffff_ffff_ffffu64 <= size) by (bit_vector);
            crate::model::lemma_push_wf(self@, chunk_at(headerptr, header));
            if self.chain@.contains(headerptr) {
                let i = self.chain@.index_of(headerptr);
                assert(self@[i].base == p);
            }
        }
        BlockHeader::patch_next(&mut self.headers, self.last_alloced, headerptr);
        self.headers.insert(headerptr, header);
        self.last_alloced = headerptr;
        self.chain = Ghost(chain);
        proof {
            lemma_linked_push(old(self).headers@, old(self).chain@, headerptr, header);
        }
        self.raise_top(p + layout.size);
        p
    }

    /// Takes the block whose value is at `ptr` off the list. What is returned
    /// goes back to the system allocator: the memory of a block for a value of
    /// layout `layout`.
    pub fn dealloc(&mut self, ptr: u64, layout: Layout) -> (r: Region)
        requires
            old(self).wf(),
            layout.wf(),
            has_block_layout(layout),
            has_base(old(self)@, ptr),
            value_offset(layout) <= ptr,
        ensures
            final(self).wf(),
            final(self)@ == old(self)@.remove(index_of(old(self)@, ptr)),
            final(self).top() == old(self).top(),
            r == (Region {
                raw: (ptr - value_offset(layout)) as u64,
                layout: block_layout(layout),
            }),
    {
        let (l2, uoff) = layout_with_header(layout).unwrap();
        self.unlink(ptr);
        Region { raw: ptr - uoff, layout: l2 }
    }

    /// Takes the block whose value is at `ptr` off the list and returns the
    /// memory that it was given.
    fn unlink(&mut self, ptr: u64) -> (r: Region)
        requires
            old(self).wf(),
            has_base(old(self)@, ptr),
        ensures
            final(self).wf(),
            final(self)@ == old(self)@.remove(index_of(old(self)@, ptr)),
            final(self).top() == old(self).top(),
            r == old(self)@[index_of(old(self)@, ptr)].region,
    {
        let ghost i = index_of(self@, ptr);
        proof {
            self.lemma_chain();
            assert(chunk_wf(self@[i]));
            assert(self.chain@[i] == ptr - HEADER_SIZE);
            lemma_neighbours(self.headers@, self.chain@, i);
            lemma_linked_remove(self.headers@, self.chain@, i);
            crate::model::lemma_remove_wf(self@, i);
        }
        let headerptr = ptr - HEADER_SIZE;
        let header = *self.headers.get(&headerptr).unwrap();
        BlockHeader::patch_next(&mut self.headers, header.prev, header.next);
        BlockHeader::patch_prev(&mut self.headers, header.next, header.prev);
        if headerptr == self.last_alloced {
            self.last_alloced = header.prev;
        }
        self.headers.remove(&headerptr);
        self.chain = Ghost(old(self).chain@.remove(i));
        header.region
    }

    /// Gives the block whose value is at `ptr` a new size and returns the new
    /// address of the value. The system allocator moved the memory of the
    /// block to `raw`. The block keeps its place in the list, its flags and
    /// its vtable pointer.
    pub fn realloc(&mut self, ptr: u64, layout: Layout, new_size: u64, raw: u64) -> (p: u64)
        requires
            old(self).wf(),
            layout.wf(),
            has_block_layout(layout),
            has_base(old(self)@, ptr),
            raw != 0,
            raw + value_offset(layout) + new_size <= u64::MAX,
            raw + value_offset(layout) + layout.size <= u64::MAX,
            vacant(
                old(self)@.remove(index_of(old(self)@, ptr)),
                raw as int,
                raw + value_offset(layout) + new_size,
            ),
        ensures
            final(self).wf(),
            p == raw + value_offset(layout),
            raw % layout.align == 0 ==> p % layout.align == 0,
            final(self)@ == old(self)@.update(
                index_of(old(self)@, ptr),
                Chunk {
                    base: p,
                    md: BlockMetadata { size: new_size & SIZE_MASK, ..md_of(old(self)@, ptr) },
                    region: moved_region(layout, new_size, raw),
                },
            ),
            final(self).top() == max(
                old(self).top() as int,
                p + max(layout.size as int, new_size as int),
            ),
    {
        let ghost i = index_of(self@, ptr);
        proof {
            self.lemma_chain();
            assert(chunk_wf(self@[i]));
            assert(self.chain@[i] == ptr - HEADER_SIZE);
            lemma_neighbours(self.headers@, self.chain@, i);
        }
        let old_hp = ptr - HEADER_SIZE;
        let mut header = *self.headers.get(&old_hp).unwrap();
        let (l2, uoff) = layout_with_header(layout).unwrap();
        let p = raw + uoff;
        let new_hp = p - HEADER_SIZE;
        let mut md = header.metadata();
        md.size = integer62(new_size);
        proof {
            assert(new_size & 0x3fff_ffff_ffff_ffffu64 <= new_size && new_size
                & 0x3fff_ffff_ffff_ffffu64 <= 0x3fff_ffff_ffff_ffffu64) by (bit_vector);
        }
        header.set_metadata(md);
        header.region = Region { raw, layout: Layout { size: uoff + new_size, align: l2.align } };
        proof {
            if raw % layout.align == 0 {
                vstd::arithmetic::div_mod::lemma_mod_adds(
                    raw as int,
                    uoff as int,
                    layout.align as int,
                );
            }
            crate::model::lemma_update_wf(self@, i, chunk_at(new_hp, header));
            if new_hp != old_hp && self.chain@.contains(new_hp) {
                let j = self.chain@.index_of(new_hp);
                assert(self@[j].base == p);
            }
            lemma_linked_replace(self.headers@, self.chain@, i, new_hp, header);
        }
        self.headers.remove(&old_hp);
        BlockHeader::patch_next(&mut self.headers, header.prev, new_hp);
        BlockHeader::patch_prev(&mut self.headers, header.next, new_hp);
        self.headers.insert(new_hp, header);
        self.chain = Ghost(old(self).chain@.update(i, new_hp));
        self.raise_top(p + layout.size);
        self.raise_top(p + new_size);
        if old_hp == self.last_alloced {
            self.last_alloced = new_hp;
        }
        p
    }

    /// Reads the header of a block.
    fn read_header(&self, base: u64) -> (r: BlockHeader)
        requires
            self.wf(),
            has_base(self@, base),
        ensures
            r.md() == md_of(self@, base),
            md_of(self@, base).wf(),
    {
        proof {
            self.lemma_chain();
            let i = index_of(self@, base);
            assert(chunk_wf(self@[i]));
            assert(self.chain@[i] == base - HEADER_SIZE);
        }
        *self.headers.get(&(base - HEADER_SIZE)).unwrap()
    }

    /// Replaces the metadata of a block, but for the size.
    fn write_metadata(&mut self, base: u64, md: BlockMetadata)
        requires
            old(self).wf(),
            has_base(old(self)@, base),
            md.wf(),
            md.size == md_of(old(self)@, base).size,
        ensures
            final(self).wf(),
            final(self)@ == with_md(old(self)@, base, md),
            final(self).top() == old(self).top(),
    {
        let ghost i = index_of(self@, base);
        proof {
            self.lemma_chain();
            assert(chunk_wf(self@[i]));
            assert(self.chain@[i] == base - HEADER_SIZE);
            crate::model::lemma_with_md_wf(self@, base, md);
        }
        let headerptr = base - HEADER_SIZE;
        let mut header = *self.headers.get(&headerptr).unwrap();
        header.set_metadata(md);
        proof {
            lemma_linked_write(self.headers@, self.chain@, i, header);
        }
        self.headers.insert(headerptr, header);
    }

    /// An iterator over all blocks, from the newest to the oldest.
    pub fn iter(&self) -> (r: BlocksIter)
        requires
            self.wf(),
        ensures
            r.valid(self@),
            r.pos(self@) == self@.len(),
    {
        proof {
            self.lemma_chain();
            if self@.len() > 0 {
                let i = self@.len() - 1;
                assert(self.chain@[i] == self@[i].base - HEADER_SIZE);
                crate::model::lemma_index_unique(self@, i);
            }
        }
        BlocksIter { next: self.last_alloced }
    }

    /// Does a block start at this address?
    pub fn is_block(&self, base: u64) -> (r: bool)
        requires
            self.wf(),
        ensures
            r == has_base(self@, base),
    {
        proof {
            self.lemma_chain();
            reveal(linked);
            if has_base(self@, base) {
                let i = index_of(self@, base);
                assert(chunk_wf(self@[i]));
                assert(self.chain@[i] == base - HEADER_SIZE);
            }
            if base >= HEADER_SIZE && self.headers@.contains_key((base - HEADER_SIZE) as u64) {
                let i = self.chain@.index_of((base - HEADER_SIZE) as u64);
                assert(self@[i].base == base);
            }
        }
        base >= HEADER_SIZE && self.headers.contains_key(&(base - HEADER_SIZE))
    }

    /// Is the memory from `lo` up to `hi` clear of all blocks and headers?
    pub fn is_vacant(&self, lo: u64, hi: u64) -> (r: bool)
        requires
            self.wf(),
        ensures
            r == vacant(self@, lo as int, hi as int),
    {
        let mut it = self.iter();
        loop
            invariant
                self.wf(),
                it.valid(self@),
                0 <= it.pos(self@) <= self@.len(),
                forall|i: int|
                    it.pos(self@) <= i < self@.len() ==> chunk_end(#[trigger] self@[i]) <= lo || hi
                        <= self@[i].base - HEADER_SIZE,
            decreases it.pos(self@),
        {
            match it.next(self) {
                None => {
                    return true;
                },
                Some(block) => {
                    let range = block.range(self);
                    proof {
                        crate::model::lemma_index_unique(self@, it.pos(self@));
                        assert(chunk_wf(self@[it.pos(self@)]));
                    }
                    if !(range.end <= lo || hi <= range.start - HEADER_SIZE) {
                        return false;
                    }
                },
            }
        }
    }
}

/// An iterator over the blocks, from the newest to the oldest.
pub struct BlocksIter {
    /// The address of the header of the block to come next, or null.
    next: u64,
}

impl BlocksIter {
    /// The iterator stands at a block of the heap, or at the end.
    pub closed spec fn valid(self, h: Seq<Chunk>) -> bool {
        self.next != 0 ==> self.next <= u64::MAX - HEADER_SIZE && has_base(
            h,
            (self.next + HEADER_SIZE) as u64,
        )
    }

    /// The number of blocks still to come: those that are oldest.
    pub closed spec fn pos(self, h: Seq<Chunk>) -> int {
        if self.next == 0 {
            0
        } else {
            index_of(h, (self.next + HEADER_SIZE) as u64) + 1
        }
    }

    /// The next block.
    pub fn next(&mut self, heap: &GlobalAllocator) -> (r: Option<Block>)
        requires
            heap.wf(),
            old(self).valid(heap@),
        ensures
            final(self).valid(heap@),
            old(self).pos(heap@) <= heap@.len(),
            r is None <==> old(self).pos(heap@) == 0,
            r is None ==> final(self).pos(heap@) == 0,
            r matches Some(b) ==> {
                &&& final(self).pos(heap@) == old(self).pos(heap@) - 1
                &&& 0 <= final(self).pos(heap@)
                &&& b.base == heap@[final(self).pos(heap@)].base
            },
    {
        if self.next == 0 {
            return None;
        }
        proof {
            heap.lemma_chain();
            let i = index_of(heap@, (self.next + HEADER_SIZE) as u64);
            lemma_neighbours(heap.headers@, heap.chain@, i);
            assert(heap.chain@[i] == self.next);
            if i > 0 {
                assert(heap.chain@[i - 1] == heap@[i - 1].base - HEADER_SIZE);
                crate::model::lemma_index_unique(heap@, i - 1);
            }
        }
        let header = *heap.headers.get(&self.next).unwrap();
        let res = Block::new(self.next + HEADER_SIZE);
        self.next = header.prev;
        Some(res)
    }

    /// The next block, described.
    pub fn next_info(&mut self, heap: &GlobalAllocator) -> (r: Option<PtrInfo>)
        requires
            heap.wf(),
            old(self).valid(heap@),
        ensures
            final(self).valid(heap@),
            r is None <==> old(self).pos(heap@) == 0,
            r is None ==> final(self).pos(heap@) == 0,
            r matches Some(info) ==> {
                &&& final(self).pos(heap@) == old(self).pos(heap@) - 1
                &&& 0 <= final(self).pos(heap@) < heap@.len()
                &&& info == (PtrInfo {
                    ptr: heap@[final(self).pos(heap@)].base,
                    size: heap@[final(self).pos(heap@)].md.size,
                    gc: heap@[final(self).pos(heap@)].md.is_gc,
                })
            },
    {
        match self.next(heap) {
            None => None,
            Some(block) => {
                proof {
                    heap.lemma_heap_wf();
                    crate::model::lemma_index_unique(heap@, self.pos(heap@));
                }
                let md = block.header(heap).metadata();
                Some(PtrInfo { ptr: block.base, size: md.size, gc: md.is_gc })
            },
        }
    }

    /// Taking the block that was handed out last off the heap leaves the
    /// iterator where it is.
    pub proof fn lemma_after_removal(self, h: Seq<Chunk>)
        requires
            heap_wf(h),
            self.valid(h),
            0 <= self.pos(h) < h.len(),
        ensures
            self.valid(h.remove(self.pos(h))),
            self.pos(h.remove(self.pos(h))) == self.pos(h),
    {
        let k = self.pos(h);
        let r = h.remove(k);
        crate::model::lemma_remove_wf(h, k);
        if self.next != 0 {
            let base = (self.next + HEADER_SIZE) as u64;
            assert(h[k - 1].base == base);
            assert(r[k - 1] == h[k - 1]);
            crate::model::lemma_index_unique(r, k - 1);
        }
    }
}

/// Information about an allocation block.
#[derive(Clone, Copy, Debug, PartialEq, Eq, Structural)]
pub struct PtrInfo {
    /// The pointer to the beginning of the allocation block.
    pub ptr: u64,
    /// The size of the allocation block in bytes.
    pub size: u64,
    /// Whether the allocation block is managed by the collector.
    pub gc: bool,
}

/// The block that a word is a potential pointer to, if the word lies in the
/// part of the address space that the heap takes up: from `lo`, the end of the
/// data segment, up to `top`, the highest address so far.
pub open spec fn found(h: Seq<Chunk>, lo: u64, top: u64, word: u64) -> Option<Block> {
    if lo <= word <= top {
        match block_at(h, word) {
            Some(base) => Some(Block { base }),
            None => None,
        }
    } else {
        None
    }
}

/// An allocation block, named by the address of the value in it.
///
/// The header of the block is in the allocator. A block is live as long as the
/// allocator has it.
#[derive(Clone, Copy, Debug, PartialEq, Eq, Structural)]
pub struct Block {
    /// The address of the value.
    pub base: u64,
}

impl Block {
    /// The block whose value is at `ptr`.
    pub fn new(ptr: u64) -> (r: Self)
        ensures
            r.base == ptr,
    {
        Block { base: ptr }
    }

    /// The addresses of the bytes of the value.
    pub fn range(&self, heap: &GlobalAllocator) -> (r: core::ops::Range<u64>)
        requires
            heap.wf(),
            has_base(heap@, self.base),
        ensures
            r.start == self.base,
            r.end == self.base + md_of(heap@, self.base).size,
    {
        proof {
            assert(chunk_wf(heap@[index_of(heap@, self.base)]));
        }
        let start = self.base;
        let end = self.base + self.header(heap).metadata().size;
        core::ops::Range { start, end }
    }

    /// The block that `word` is a potential pointer to. Since the heap starts
    /// at the end of the data segment, that is the lower bound of the heap.
    pub fn find(word: u64, data_segment_end: u64, heap: &GlobalAllocator) -> (r: Option<Block>)
        requires
            heap.wf(),
        ensures
            r == found(heap@, data_segment_end, heap.top(), word),
    {
        if word >= data_segment_end && word <= heap.heap_top() {
            let mut it = heap.iter();
            loop
                invariant
                    heap.wf(),
                    it.valid(heap@),
                    0 <= it.pos(heap@) <= heap@.len(),
                    forall|i: int|
                        it.pos(heap@) <= i < heap@.len() ==> !holds(#[trigger] heap@[i], word),
                    data_segment_end <= word <= heap.top(),
                decreases it.pos(heap@),
            {
                match it.next(heap) {
                    None => {
                        assert(forall|b: u64| !points_at(heap@, word, b));
                        return None;
                    },
                    Some(x) => {
                        let addr = x.base;
                        proof {
                            heap.lemma_heap_wf();
                            crate::model::lemma_index_unique(heap@, it.pos(heap@));
                        }
                        let range = x.range(heap);
                        if word == addr || word > addr && word <= range.end {
                            proof {
                                assert(points_at(heap@, word, addr)) by {
                                    assert(holds(heap@[it.pos(heap@)], word));
                                }
                                crate::model::lemma_block_at(heap@, word, addr);
                            }
                            return Some(x);
                        }
                    },
                }
            }
        } else {
            None
        }
    }

    /// The header of the block.
    pub fn header(&self, heap: &GlobalAllocator) -> (r: BlockHeader)
        requires
            heap.wf(),
            has_base(heap@, self.base),
        ensures
            r.md() == md_of(heap@, self.base),
    {
        heap.read_header(self.base)
    }

    /// The colour of the block: black when it is marked.
    pub fn colour(&self, heap: &GlobalAllocator) -> (r: Colour)
        requires
            heap.wf(),
            has_base(heap@, self.base),
        ensures
            r == (if md_of(heap@, self.base).mark_bit {
                Colour::Black
            } else {
                Colour::White
            }),
    {
        let md = self.header(heap).metadata();
        if md.mark_bit {
            Colour::Black
        } else {
            Colour::White
        }
    }

    /// Colours the block.
    pub fn set_colour(&self, heap: &mut GlobalAllocator, colour: Colour)
        requires
            old(heap).wf(),
            has_base(old(heap)@, self.base),
        ensures
            final(heap).wf(),
            final(heap)@ == with_md(
                old(heap)@,
                self.base,
                BlockMetadata {
                    mark_bit: colour == Colour::Black,
                    ..md_of(old(heap)@, self.base)
                },
            ),
            final(heap).top() == old(heap).top(),
    {
        let mut md = self.header(heap).metadata();
        match colour {
            Colour::Black => {
                md.mark_bit = true;
            },
            Colour::White => {
                md.mark_bit = false;
            },
        }
        heap.write_metadata(self.base, md);
    }

    /// The pointer to the vtable of the value's `Drop` implementation.
    pub fn drop_vptr(&self, heap: &GlobalAllocator) -> (r: u64)
        requires
            heap.wf(),
            has_base(heap@, self.base),
        ensures
            r == md_of(heap@, self.base).drop_vptr,
    {
        self.header(heap).metadata().drop_vptr
    }

    /// Records the vtable of the value's `Drop` implementation.
    pub fn set_drop_vptr(&self, heap: &mut GlobalAllocator, value: u64)
        requires
            old(heap).wf(),
            has_base(old(heap)@, self.base),
        ensures
            final(heap).wf(),
            final(heap)@ == with_md(
                old(heap)@,
                self.base,
                BlockMetadata { drop_vptr: value & VPTR_MASK, ..md_of(old(heap)@, self.base) },
            ),
            final(heap).top() == old(heap).top(),
    {
        let mut md = self.header(heap).metadata();
        md.drop_vptr = integer63(value);
        proof {
            assert(value & 0x7fff_ffff_ffff_ffffu64 <= 0x7fff_ffff_ffff_ffffu64) by (bit_vector);
        }
        heap.write_metadata(self.base, md);
    }

    /// Takes the block off the heap. What is returned goes back to the system
    /// allocator: the memory that the block was given.
    pub fn dealloc(self, heap: &mut GlobalAllocator) -> (r: Region)
        requires
            old(heap).wf(),
            has_base(old(heap)@, self.base),
        ensures
            final(heap).wf(),
            final(heap)@ == old(heap)@.remove(index_of(old(heap)@, self.base)),
            final(heap).top() == old(heap).top(),
            r == old(heap)@[index_of(old(heap)@, self.base)].region,
    {
        heap.unlink(self.base)
    }
}

/// The addresses in a chain are distinct and not null.
spec fn distinct(chain: Seq<u64>) -> bool {
    &&& forall|i: int| 0 <= i < chain.len() ==> #[trigger] chain[i] != 0
    &&& forall|i: int, j: int|
        0 <= i < chain.len() && 0 <= j < chain.len() && #[trigger] chain[i] == #[trigger] chain[j]
            ==> i == j
}

/// The headers with the successor of one of them replaced, unless it is null.
spec fn next_patched(headers: Map<u64, BlockHeader>, header: u64, next: u64) -> Map<
    u64,
    BlockHeader,
> {
    if header == 0 {
        headers
    } else {
        headers.insert(header, BlockHeader { next, ..headers[header] })
    }
}

/// The headers with the predecessor of one of them replaced, unless it is null.
spec fn prev_patched(headers: Map<u64, BlockHeader>, header: u64, prev: u64) -> Map<
    u64,
    BlockHeader,
> {
    if header == 0 {
        headers
    } else {
        headers.insert(header, BlockHeader { prev, ..headers[header] })
    }
}

/// A header entered behind the last one joins the list.
proof fn lemma_linked_push(
    headers: Map<u64, BlockHeader>,
    chain: Seq<u64>,
    hp: u64,
    header: BlockHeader,
)
    requires
        linked(headers, chain),
        distinct(chain),
        !chain.contains(hp),
        header.prev == (if chain.len() == 0 { 0 } else { chain.last() }),
        header.next == 0,
        hp <= u64::MAX - HEADER_SIZE,
    ensures
        ({
            let last = if chain.len() == 0 { 0 } else { chain.last() };
            let new = next_patched(headers, last, hp).insert(hp, header);
            &&& linked(new, chain.push(hp))
            &&& chunks(new, chain.push(hp)) == chunks(headers, chain).push(
                chunk_at(hp, header),
            )
        }),
{
    reveal(linked);
    let n = chain.len() as int;
    let last: u64 = if chain.len() == 0 { 0 } else { chain.last() };
    let new = next_patched(headers, last, hp).insert(hp, header);
    let longer = chain.push(hp);
    assert forall|i: int| 0 <= i < n implies chain.contains(#[trigger] longer[i]) && longer[i] != hp
        && headers.contains_key(longer[i]) by {
        assert(longer[i] == chain[i]);
    }
    assert(longer[n] == hp);
    if n > 0 {
        assert(longer[n - 1] == last);
    }
    assert forall|a: u64| new.contains_key(a) <==> longer.contains(a) by {
        if new.contains_key(a) && a != hp {
            assert(headers.contains_key(a));
            let i = chain.index_of(a);
            assert(longer[i] == a);
        }
        if longer.contains(a) && a != hp {
            let i = longer.index_of(a);
            assert(chain[i] == a);
        }
    }
    assert forall|i: int| 0 <= i < longer.len() implies (#[trigger] new[longer[i]]).prev == (if i
        == 0 {
        0
    } else {
        longer[i - 1]
    }) by {
        if i < n {
            assert(longer[i] == chain[i]);
            assert(headers[chain[i]].prev == (if i == 0 { 0 } else { chain[i - 1] }));
        }
    }
    assert forall|i: int| 0 <= i < longer.len() implies (#[trigger] new[longer[i]]).next == (if i
        == longer.len() - 1 {
        0
    } else {
        longer[i + 1]
    }) by {
        if i < n - 1 {
            assert(longer[i] == chain[i]);
            assert(chain[i] != chain[n - 1]);
            assert(headers[chain[i]].next == chain[i + 1]);
        }
    }
    let was = chunks(headers, chain).push(chunk_at(hp, header));
    assert(chunks(new, longer) =~= was) by {
        assert forall|i: int| 0 <= i < longer.len() implies chunks(new, longer)[i] == #[trigger] was[i] by {
            if i < n {
                assert(longer[i] == chain[i]);
                assert(new[longer[i]].metadata == headers[chain[i]].metadata && new[longer[i]].region
                    == headers[chain[i]].region);
            }
        }
    }
}

/// A header's links lead to its neighbours in the chain.
proof fn lemma_neighbours(headers: Map<u64, BlockHeader>, chain: Seq<u64>, i: int)
    requires
        linked(headers, chain),
        distinct(chain),
        0 <= i < chain.len(),
    ensures
        headers.contains_key(chain[i]),
        headers[chain[i]].prev == (if i == 0 { 0 } else { chain[i - 1] }),
        headers[chain[i]].next == (if i == chain.len() - 1 { 0 } else { chain[i + 1] }),
        headers[chain[i]].prev != 0 ==> headers.contains_key(headers[chain[i]].prev),
        headers[chain[i]].next != 0 ==> headers.contains_key(headers[chain[i]].next),
        headers[chain[i]].prev != chain[i],
        headers[chain[i]].next != chain[i],
{
    reveal(linked);
    assert(chain.contains(chain[i]));
    if i > 0 {
        assert(chain.contains(chain[i - 1]));
    }
    if i < chain.len() - 1 {
        assert(chain.contains(chain[i + 1]));
    }
}

/// A header leaves the list when its neighbours are linked to each other.
proof fn lemma_linked_remove(headers: Map<u64, BlockHeader>, chain: Seq<u64>, i: int)
    requires
        linked(headers, chain),
        distinct(chain),
        0 <= i < chain.len(),
    ensures
        ({
            let h = headers[chain[i]];
            let new = prev_patched(
                next_patched(headers, h.prev, h.next),
                h.next,
                h.prev,
            ).remove(chain[i]);
            &&& linked(new, chain.remove(i))
            &&& chunks(new, chain.remove(i)) == chunks(headers, chain).remove(i)
        }),
{
    lemma_neighbours(headers, chain, i);
    let n = chain.len() as int;
    let hp = chain[i];
    let h = headers[hp];
    let mid = next_patched(headers, h.prev, h.next);
    let new = prev_patched(mid, h.next, h.prev).remove(hp);
    let shorter = chain.remove(i);
    reveal(linked);
    assert forall|k: int| 0 <= k < n - 1 implies #[trigger] shorter[k] == chain[if k < i {
        k
    } else {
        k + 1
    }] && shorter[k] != hp && headers.contains_key(shorter[k]) by {
        let k0 = if k < i { k } else { k + 1 };
        assert(chain.contains(chain[k0]));
    }
    assert forall|a: u64| new.contains_key(a) <==> shorter.contains(a) by {
        if new.contains_key(a) {
            assert(headers.contains_key(a));
            assert(chain.contains(a));
            let k = chain.index_of(a);
            assert(k != i);
            assert(shorter[if k < i { k } else { k - 1 }] == a);
        }
        if shorter.contains(a) {
            let k = shorter.index_of(a);
            assert(shorter[k] == a);
        }
    }
    assert forall|k: int| 0 <= k < n - 1 implies (#[trigger] new[shorter[k]]).prev == (if k == 0 {
        0
    } else {
        shorter[k - 1]
    }) && new[shorter[k]].next == (if k == n - 2 {
        0
    } else {
        shorter[k + 1]
    }) && new[shorter[k]].metadata == headers[shorter[k]].metadata && new[shorter[k]].region
        == headers[shorter[k]].region by {
        let k0 = if k < i { k } else { k + 1 };
        assert(shorter[k] == chain[k0]);
        assert(headers[chain[k0]].prev == (if k0 == 0 { 0 } else { chain[k0 - 1] }));
        assert(headers[chain[k0]].next == (if k0 == n - 1 { 0 } else { chain[k0 + 1] }));
        if i > 0 {
            assert((chain[k0] == h.prev) == (k0 == i - 1));
        } else {
            assert(chain[k0] != 0);
        }
        if i < n - 1 {
            assert((chain[k0] == h.next) == (k0 == i + 1));
        } else {
            assert(chain[k0] != 0);
        }
        if k > 0 {
            assert(shorter[k - 1] == chain[if k - 1 < i { k - 1 } else { k }]);
        }
        if k < n - 2 {
            assert(shorter[k + 1] == chain[if k + 1 < i { k + 1 } else { k + 2 }]);
        }
    }
    let was = chunks(headers, chain).remove(i);
    assert(chunks(new, shorter) =~= was) by {
        assert forall|k: int| 0 <= k < n - 1 implies chunks(new, shorter)[k] == #[trigger] was[k] by {
            assert(new[shorter[k]].metadata == headers[shorter[k]].metadata && new[shorter[k]].region
        == headers[shorter[k]].region);
            assert(shorter[k] == chain[if k < i { k } else { k + 1 }]);
        }
    }
}

/// A header changes in place when its links stay.
proof fn lemma_linked_write(
    headers: Map<u64, BlockHeader>,
    chain: Seq<u64>,
    i: int,
    header: BlockHeader,
)
    requires
        linked(headers, chain),
        distinct(chain),
        0 <= i < chain.len(),
        chain[i] <= u64::MAX - HEADER_SIZE,
        header.links() == headers[chain[i]].links(),
    ensures
        linked(headers.insert(chain[i], header), chain),
        chunks(headers.insert(chain[i], header), chain) == chunks(headers, chain).update(
            i,
            chunk_at(chain[i], header),
        ),
{
    lemma_neighbours(headers, chain, i);
    let new = headers.insert(chain[i], header);
    reveal(linked);
    assert forall|a: u64| new.contains_key(a) <==> chain.contains(a) by {
        assert(headers.contains_key(a) <==> chain.contains(a));
    }
    assert forall|k: int| 0 <= k < chain.len() implies (#[trigger] new[chain[k]]).links()
        == headers[chain[k]].links() by {
        if k != i {
            assert(chain[k] != chain[i]);
        }
    }
    assert forall|k: int| 0 <= k < chain.len() implies (#[trigger] new[chain[k]]).prev == (if k
        == 0 {
        0
    } else {
        chain[k - 1]
    }) && new[chain[k]].next == (if k == chain.len() - 1 {
        0
    } else {
        chain[k + 1]
    }) by {
        assert(new[chain[k]].links() == headers[chain[k]].links());
        assert(headers[chain[k]].prev == (if k == 0 { 0 } else { chain[k - 1] }));
    }
    let was = chunks(headers, chain).update(
        i,
        chunk_at(chain[i], header),
    );
    assert(chunks(new, chain) =~= was) by {
        assert forall|k: int| 0 <= k < chain.len() implies chunks(new, chain)[k] == #[trigger] was[k] by {
            if k != i {
                assert(chain[k] != chain[i]);
            }
        }
    }
}

/// A header moves when its neighbours are linked to its new address.
proof fn lemma_linked_replace(
    headers: Map<u64, BlockHeader>,
    chain: Seq<u64>,
    i: int,
    hp: u64,
    header: BlockHeader,
)
    requires
        linked(headers, chain),
        distinct(chain),
        0 <= i < chain.len(),
        hp != chain[i] ==> !chain.contains(hp),
        hp <= u64::MAX - HEADER_SIZE,
        header.prev == headers[chain[i]].prev,
        header.next == headers[chain[i]].next,
    ensures
        ({
            let new = prev_patched(
                next_patched(headers.remove(chain[i]), header.prev, hp),
                header.next,
                hp,
            ).insert(hp, header);
            &&& linked(new, chain.update(i, hp))
            &&& chunks(new, chain.update(i, hp)) == chunks(headers, chain).update(
                i,
                chunk_at(hp, header),
            )
        }),
{
    lemma_neighbours(headers, chain, i);
    let n = chain.len() as int;
    let gone = headers.remove(chain[i]);
    let mid = next_patched(gone, header.prev, hp);
    let new = prev_patched(mid, header.next, hp).insert(hp, header);
    let moved = chain.update(i, hp);
    reveal(linked);
    assert forall|k: int| 0 <= k < n && k != i implies #[trigger] moved[k] == chain[k] && moved[k]
        != hp && headers.contains_key(moved[k]) && moved[k] != chain[i] by {
        assert(chain.contains(chain[k]));
        assert(chain[k] != chain[i]);
    }
    assert(moved[i] == hp);
    assert forall|a: u64| new.contains_key(a) <==> moved.contains(a) by {
        if new.contains_key(a) && a != hp {
            assert(headers.contains_key(a));
            assert(chain.contains(a));
            let k = chain.index_of(a);
            if k == i {
                assert(a != header.prev && a != header.next);
                assert(!gone.contains_key(a));
                assert(false);
            }
            assert(moved[k] == a);
        }
        if moved.contains(a) && a != hp {
            let k = moved.index_of(a);
            assert(moved[k] == a);
        }
    }
    assert forall|k: int| 0 <= k < n implies (#[trigger] new[moved[k]]).prev == (if k == 0 {
        0
    } else {
        moved[k - 1]
    }) && new[moved[k]].next == (if k == n - 1 {
        0
    } else {
        moved[k + 1]
    }) && (k != i ==> new[moved[k]].metadata == headers[moved[k]].metadata && new[moved[k]].region
        == headers[moved[k]].region) by {
        if k != i {
            assert(moved[k] == chain[k]);
            assert(headers[chain[k]].prev == (if k == 0 { 0 } else { chain[k - 1] }));
            assert(headers[chain[k]].next == (if k == n - 1 { 0 } else { chain[k + 1] }));
            if i > 0 {
                assert((chain[k] == header.prev) == (k == i - 1));
            } else {
                assert(chain[k] != 0);
            }
            if i < n - 1 {
                assert((chain[k] == header.next) == (k == i + 1));
            } else {
                assert(chain[k] != 0);
            }
        }
    }
    let was = chunks(headers, chain).update(
        i,
        chunk_at(hp, header),
    );
    assert(chunks(new, moved) =~= was) by {
        assert forall|k: int| 0 <= k < n implies chunks(new, moved)[k] == #[trigger] was[k] by {
            if k != i {
                assert(new[moved[k]].metadata == headers[moved[k]].metadata);
                assert(new[moved[k]].region == headers[moved[k]].region);
            }
        }
    }
}

/// A value stands in its block at the first multiple of its alignment that leaves
/// room for the thirty-two bytes of a header. The block ends with the value and
/// is as aligned as both. There is one exactly when that is a layout. A value that
/// is given a new size stays where it is in its block.
pub proof fn law_value_follows_the_header(layout: Layout, m: int, new_size: u64, raw: u64)
    requires
        layout.wf(),
        m >= 32,
        m % (layout.align as int) == 0,
    ensures
        value_offset(layout) % (layout.align as int) == 0,
        32 <= value_offset(layout) <= m,
        ({
            let align = if layout.align > 8 {
                layout.align
            } else {
                8
            };
            &&& has_block_layout(layout) <==> value_offset(layout) + layout.size + (align - 1)
                < 0x8000_0000_0000_0000
            &&& has_block_layout(layout) ==> block_layout(layout).size == value_offset(layout)
                + layout.size
            &&& block_layout(layout).align == align
            &&& moved_region(layout, new_size, raw).raw == raw
            &&& moved_region(layout, new_size, raw).layout.align == align
            &&& value_offset(layout) + new_size <= u64::MAX ==> moved_region(
                layout,
                new_size,
                raw,
            ).layout.size == value_offset(layout) + new_size
        }),
{
    reveal_with_fuel(vstd::arithmetic::power2::is_pow2, 5);
    crate::layout::law_second_value_follows_the_first(header_layout(), layout, m);
}

/// A word finds a block exactly when it lies in the heap, from `lo` up to `top`,
/// and no lower than the first byte of the block nor higher than one past its
/// last.
pub proof fn law_word_finds_what_it_points_at(
    h: Seq<Chunk>,
    lo: u64,
    top: u64,
    word: u64,
    i: int,
)
    requires
        heap_wf(h),
        0 <= i < h.len(),
    ensures
        found(h, lo, top, word) == Some(Block { base: h[i].base }) <==> lo <= word <= top
            && h[i].base <= word <= h[i].base + h[i].md.size,
{
    let base = h[i].base;
    if h[i].base <= word <= h[i].base + h[i].md.size {
        assert(holds(h[i], word));
        assert(points_at(h, word, base));
        crate::model::lemma_block_at(h, word, base);
    }
    if found(h, lo, top, word) == Some(Block { base }) {
        let b = choose|b: u64| points_at(h, word, b);
        let j = choose|j: int| 0 <= j < h.len() && (#[trigger] h[j]).base == b && holds(h[j], word);
        crate::model::lemma_index_unique(h, i);
        crate::model::lemma_index_unique(h, j);
    }
}

/// A word that finds anything finds a block of the heap.
pub proof fn law_only_blocks_are_found(h: Seq<Chunk>, lo: u64, top: u64, word: u64)
    ensures
        found(h, lo, top, word) matches Some(b) ==> exists|i: int|
            0 <= i < h.len() && (#[trigger] h[i]).base == b.base,
{
    if found(h, lo, top, word) is Some {
        let b = choose|b: u64| points_at(h, word, b);
        let j = choose|j: int| 0 <= j < h.len() && (#[trigger] h[j]).base == b && holds(h[j], word);
        assert(h[j].base == b);
    }
}

} // verus!
