# gcmalloc

A Rust allocator with support for conservative garbage collection, verified with
Verus.

The library in `src/` keeps the books of the allocator and of the collector. It
never touches memory itself: the program tells it where the system allocator put
a block, hands it the words of the stack, of the statics and of the blocks while
the world is stopped, and gets back which memory to free and, one by one, which
destructors to run. What that comes to is stated and proved.

- `model`, `metadata`, `layout`: the heap as a sequence of blocks, what a header
  holds, sizes and alignments.
- `allocator`, `gcalloc`: the list of all blocks, and the allocator of collected
  values on top of it.
- `cache`, `memory`, `marking`: pointer identification and the mark phase.
- `garbage`, `collector`: the other phases, and collections as a whole.
- `gc`: garbage-collected pointers.
- `trace`, `trace_derive`: which fields of a value hold pointers.
- `platform`: where the stack and the statics are.
- `harness`, `text`: the plain part of the harness for the test programs.
- `laws`: what holds of the collector as a whole. Every pointer into a block finds
  it. A collection keeps what can be reached, takes away what cannot, loses no
  block, gives back the memory that a block was given, runs no destructor twice,
  and has nothing left to do when it is repeated.

`app/` is the process around the library: the system allocator, locks, registers,
destructors.

## The Drop Trait

Unlike values that are not collected, the `drop` method of a collected value is
not called when a `Gc` goes out of scope. Once the collector has determined that
a value is garbage, it is added to a drop queue, and its `drop` method runs at
the end of the collection. The block of the value leaves the heap once that has
run.

If there are cycles between collected values, there is no way to know which
`drop` method is safe to run first. So a `drop` method must not dereference a
`Gc`: then it only has access to what is guaranteed to be live.
