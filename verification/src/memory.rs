//! What the collector reads of the process while the world is stopped.
use crate::model::WORD_SIZE;
use std::collections::HashMap;
use vstd::prelude::*;

verus! {

/// The words of the process's memory, by their addresses.
pub struct Memory {
    words: HashMap<u64, u64>,
}

impl View for Memory {
    type V = Map<u64, u64>;

    closed spec fn view(&self) -> Map<u64, u64> {
        self.words@
    }
}

/// The number of words that start in a range of addresses.
pub open spec fn word_count(start: u64, end: u64) -> nat {
    if start < end {
        ((end - start + WORD_SIZE - 1) / (WORD_SIZE as int)) as nat
    } else {
        0
    }
}

/// The address of a word in a range that starts at `start`.
pub open spec fn word_address(start: u64, k: int) -> u64 {
    (start + k * WORD_SIZE) as u64
}

/// Is every word in a range known?
pub open spec fn covers(mem: Map<u64, u64>, start: u64, end: u64) -> bool {
    forall|k: int|
        0 <= k < word_count(start, end) ==> #[trigger] mem.contains_key(word_address(start, k))
}

/// The words in a range of addresses, one after the other.
pub open spec fn words(mem: Map<u64, u64>, start: u64, end: u64) -> Seq<u64> {
    Seq::new(word_count(start, end), |k: int| mem[word_address(start, k)])
}

impl Memory {
    /// Memory of which no word is known.
    pub fn new() -> (r: Self)
        ensures
            r@ == Map::<u64, u64>::empty(),
    {
        Memory { words: HashMap::new() }
    }

    /// The word at an address.
    pub fn read(&self, address: u64) -> (r: u64)
        requires
            self@.contains_key(address),
        ensures
            r == self@[address],
    {
        *self.words.get(&address).unwrap()
    }

    /// Records the word at an address.
    pub fn write(&mut self, address: u64, word: u64)
        ensures
            final(self)@ == old(self)@.insert(address, word),
    {
        self.words.insert(address, word);
    }

    /// Is every word in a range known?
    pub fn is_covered(&self, start: u64, end: u64) -> (r: bool)
        ensures
            r == covers(self@, start, end),
    {
        if start >= end {
            return true;
        }
        let mut addr = start;
        let ghost mut k: int = 0;
        loop
            invariant
                start <= addr < end,
                0 <= k < word_count(start, end),
                addr == start + k * WORD_SIZE,
                forall|j: int|
                    0 <= j < k ==> #[trigger] self@.contains_key(word_address(start, j)),
            decreases end - addr,
        {
            if !self.words.contains_key(&addr) {
                assert(!self@.contains_key(word_address(start, k)));
                return false;
            }
            if end - addr <= WORD_SIZE {
                return true;
            }
            addr = addr + WORD_SIZE;
            proof {
                k = k + 1;
            }
        }
    }
}

/// The process as it stands while the world is stopped.
pub struct World {
    /// The words of the stack, of the statics and of the blocks.
    pub memory: Memory,
    /// The stack pointer, once the registers are on the stack.
    pub rsp: u64,
    /// The top (or start) of the current thread's stack.
    pub stack_start: u64,
    /// The data segment holds the statics, which may be roots.
    pub data_segment_start: u64,
    /// The end of the data segment, where the heap starts.
    pub data_segment_end: u64,
}

impl World {
    /// A process without roots, of which nothing is known.
    pub fn unknown() -> (r: Self)
        ensures
            r.memory@ == Map::<u64, u64>::empty(),
            r.rsp == 0 && r.stack_start == 0,
            r.data_segment_start == 0 && r.data_segment_end == 0,
    {
        World {
            memory: Memory::new(),
            rsp: 0,
            stack_start: 0,
            data_segment_start: 0,
            data_segment_end: 0,
        }
    }

    /// Are the words of the stack and of the statics known?
    pub open spec fn covers_roots(&self) -> bool {
        &&& covers(self.memory@, self.rsp, self.stack_start)
        &&& covers(self.memory@, self.data_segment_start, self.data_segment_end)
    }

    /// The words of the stack, then those of the statics.
    pub open spec fn root_words(&self) -> Seq<u64> {
        words(self.memory@, self.rsp, self.stack_start) + words(
            self.memory@,
            self.data_segment_start,
            self.data_segment_end,
        )
    }
}

/// The words of a range are those at its start and at every eighth address
/// behind it, up to its end: all of them and no others, in order.
pub proof fn law_every_word_is_read(mem: Map<u64, u64>, start: u64, end: u64, k: int)
    requires
        0 <= k,
    ensures
        start + 8 * k < end <==> k < words(mem, start, end).len(),
        start + 8 * k < end ==> words(mem, start, end)[k] == mem[(start + 8 * k) as u64],
{
}

/// The word at every eighth address of a range is one of the words of the range.
pub(crate) proof fn lemma_word_at(mem: Map<u64, u64>, start: u64, end: u64, a: u64)
    requires
        start <= a < end,
        (a - start) % 8 == 0,
    ensures
        ({
            let k = (a - start) / 8;
            &&& 0 <= k < words(mem, start, end).len()
            &&& words(mem, start, end)[k] == mem[a]
        }),
{
    let k = (a - start) / 8;
    assert(start + 8 * k == a);
    law_every_word_is_read(mem, start, end, k);
}

/// Every word of a range stands at every eighth address of it.
pub(crate) proof fn lemma_word_address(mem: Map<u64, u64>, start: u64, end: u64, k: int) -> (a: u64)
    requires
        0 <= k < words(mem, start, end).len(),
    ensures
        start <= a < end,
        (a - start) % 8 == 0,
        words(mem, start, end)[k] == mem[a],
{
    law_every_word_is_read(mem, start, end, k);
    let a = (start + 8 * k) as u64;
    assert(a - start == 8 * k);
    a
}

/// A range is covered when the words at its start and at every eighth address
/// behind it, up to its end, are known.
pub proof fn law_covered_means_known(mem: Map<u64, u64>, start: u64, end: u64)
    ensures
        covers(mem, start, end) <==> forall|a: u64|
            start <= a < end && (a - start) % 8 == 0 ==> #[trigger] mem.contains_key(a),
{
    if covers(mem, start, end) {
        assert forall|a: u64| start <= a < end && (a - start) % 8 == 0 implies #[trigger] mem.contains_key(
            a,
        ) by {
            let k = (a - start) / 8;
            assert(start + 8 * k == a);
            law_every_word_is_read(mem, start, end, k);
            assert(mem.contains_key(word_address(start, k)));
        }
    }
    if forall|a: u64| start <= a < end && (a - start) % 8 == 0 ==> #[trigger] mem.contains_key(a) {
        assert forall|k: int| 0 <= k < word_count(start, end) implies #[trigger] mem.contains_key(
            word_address(start, k),
        ) by {
            law_every_word_is_read(mem, start, end, k);
            assert((start + 8 * k) as u64 - start == 8 * k);
        }
    }
}

/// The roots are the words at every eighth address from the stack pointer up to
/// the start of the stack, and from the start of the data segment up to its end:
/// all of them.
pub proof fn law_roots_are_the_stack_and_the_statics(world: &World)
    ensures
        forall|a: u64|
            world.rsp <= a < world.stack_start && (a - world.rsp) % 8 == 0
                ==> world.root_words().contains(#[trigger] world.memory@[a]),
        forall|a: u64|
            world.data_segment_start <= a < world.data_segment_end && (a
                - world.data_segment_start) % 8 == 0 ==> world.root_words().contains(
                #[trigger] world.memory@[a],
            ),
        world.covers_roots() <==> {
            &&& forall|a: u64|
                world.rsp <= a < world.stack_start && (a - world.rsp) % 8 == 0
                    ==> #[trigger] world.memory@.contains_key(a)
            &&& forall|a: u64|
                world.data_segment_start <= a < world.data_segment_end && (a
                    - world.data_segment_start) % 8 == 0
                    ==> #[trigger] world.memory@.contains_key(a)
        },
{
    let mem = world.memory@;
    let stack = words(mem, world.rsp, world.stack_start);
    let statics = words(mem, world.data_segment_start, world.data_segment_end);
    let all = world.root_words();
    law_covered_means_known(mem, world.rsp, world.stack_start);
    law_covered_means_known(mem, world.data_segment_start, world.data_segment_end);
    assert(all =~= stack + statics);
    assert forall|a: u64|
        world.rsp <= a < world.stack_start && (a - world.rsp) % 8 == 0 implies all.contains(
        #[trigger] mem[a],
    ) by {
        lemma_word_at(mem, world.rsp, world.stack_start, a);
        assert(all[(a - world.rsp) / 8] == mem[a]);
    }
    assert forall|a: u64|
        world.data_segment_start <= a < world.data_segment_end && (a - world.data_segment_start)
            % 8 == 0 implies all.contains(#[trigger] mem[a]) by {
        lemma_word_at(mem, world.data_segment_start, world.data_segment_end, a);
        assert(all[stack.len() + (a - world.data_segment_start) / 8] == mem[a]);
    }
}

/// Every root stands at some eighth address of the stack or of the statics.
pub proof fn law_nothing_else_is_a_root(world: &World, j: int) -> (a: u64)
    requires
        0 <= j < world.root_words().len(),
    ensures
        world.root_words()[j] == world.memory@[a],
        world.rsp <= a < world.stack_start && (a - world.rsp) % 8 == 0 || world.data_segment_start
            <= a < world.data_segment_end && (a - world.data_segment_start) % 8 == 0,
{
    let mem = world.memory@;
    let stack = words(mem, world.rsp, world.stack_start);
    if j < stack.len() {
        lemma_word_address(mem, world.rsp, world.stack_start, j)
    } else {
        lemma_word_address(
            mem,
            world.data_segment_start,
            world.data_segment_end,
            j - stack.len(),
        )
    }
}

} // verus!
