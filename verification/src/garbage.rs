//! What a collection does to the heap: which blocks are garbage, what is left
//! without them, and which destructors run.
use crate::allocator::Block;
use crate::metadata::BlockMetadata;
use crate::model::{
    has_base, heap_wf, index_of, lemma_index_of, lemma_index_unique, md_of, Chunk, Region,
};
use vstd::prelude::*;

verus! {

/// A destructor that is due to run.
#[derive(Clone, Copy, Debug, PartialEq, Eq, Structural)]
pub struct Finalizer {
    /// The address of the value.
    pub base: u64,
    /// The vtable of the value's `Drop` implementation.
    pub vptr: u64,
    /// Is the value really dead? Only then its destructor runs.
    pub runs: bool,
}

/// Was a block found to be garbage? The collector only manages its own blocks.
pub open spec fn is_dead(c: Chunk) -> bool {
    c.md.is_gc && !c.md.mark_bit
}

/// The heap with every block turned white.
pub open spec fn whitened(h: Seq<Chunk>) -> Seq<Chunk> {
    Seq::new(
        h.len(),
        |i: int|
            Chunk { md: BlockMetadata { mark_bit: false, ..h[i].md }, ..h[i] },
    )
}

/// What is left of the heap once all garbage is gone.
pub open spec fn survivors(h: Seq<Chunk>) -> Seq<Chunk> {
    h.filter(|c: Chunk| !is_dead(c))
}

/// The garbage that has a destructor, from the oldest block to the newest.
pub open spec fn finalizable(h: Seq<Chunk>, dummy: u64) -> Seq<Chunk> {
    h.filter(|c: Chunk| is_dead(c) && c.md.drop_vptr != dummy)
}

/// The garbage that has none, from the oldest block to the newest.
pub open spec fn plain_garbage(h: Seq<Chunk>, dummy: u64) -> Seq<Chunk> {
    h.filter(|c: Chunk| is_dead(c) && c.md.drop_vptr == dummy)
}

/// What is left of the heap once the garbage without a destructor is gone.
pub open spec fn swept(h: Seq<Chunk>, dummy: u64) -> Seq<Chunk> {
    h.filter(|c: Chunk| !(is_dead(c) && c.md.drop_vptr == dummy))
}

/// The heap without some of its blocks.
pub open spec fn without(h: Seq<Chunk>, list: Seq<Block>) -> Seq<Chunk> {
    h.filter(|c: Chunk| !list.contains(Block { base: c.base }))
}

/// The blocks at the places of these.
pub open spec fn to_blocks(s: Seq<Chunk>) -> Seq<Block> {
    s.map_values(|c: Chunk| Block { base: c.base })
}

/// The memory of a sequence of blocks.
pub open spec fn regions(s: Seq<Chunk>) -> Seq<Region> {
    s.map_values(|c: Chunk| c.region)
}

/// The destructor of the value in a block.
pub open spec fn finalizer(c: Chunk) -> Finalizer {
    Finalizer { base: c.base, vptr: c.md.drop_vptr, runs: !c.md.mark_bit }
}

/// The destructors of the values in a sequence of blocks.
pub open spec fn finalizers(s: Seq<Chunk>) -> Seq<Finalizer> {
    s.map_values(|c: Chunk| finalizer(c))
}

/// Every collected block has a vtable.
pub open spec fn collectable(h: Seq<Chunk>) -> bool {
    forall|i: int| 0 <= i < h.len() ==> (#[trigger] h[i]).md.is_gc ==> h[i].md.drop_vptr != 0
}

/// The blocks in a list are on the heap, no block is in the list twice, and
/// all of them are collected ones with a vtable.
pub open spec fn droppable(h: Seq<Chunk>, list: Seq<Block>) -> bool {
    &&& list.no_duplicates()
    &&& forall|i: int|
        0 <= i < list.len() ==> {
            &&& has_base(h, (#[trigger] list[i]).base)
            &&& md_of(h, list[i].base).is_gc
            &&& md_of(h, list[i].base).drop_vptr != 0
        }
}

/// The heap once the blocks in a drop queue are gone, one after the other, the
/// last in the queue first.
pub open spec fn dropped(h: Seq<Chunk>, queue: Seq<Block>) -> Seq<Chunk>
    decreases queue.len(),
{
    if queue.len() == 0 {
        h
    } else {
        dropped(h.remove(index_of(h, queue.last().base)), queue.drop_last())
    }
}

/// The destructors of the blocks in a drop queue, in the order in which they
/// run: the last in the queue first.
pub open spec fn drop_order(h: Seq<Chunk>, queue: Seq<Block>) -> Seq<Finalizer>
    decreases queue.len(),
{
    if queue.len() == 0 {
        Seq::empty()
    } else {
        seq![finalizer(h[index_of(h, queue.last().base)])] + drop_order(
            h.remove(index_of(h, queue.last().base)),
            queue.drop_last(),
        )
    }
}

/// Filters that agree on the elements of a sequence leave the same.
pub proof fn lemma_filter_congruent(
    s: Seq<Chunk>,
    p: spec_fn(Chunk) -> bool,
    q: spec_fn(Chunk) -> bool,
)
    requires
        forall|i: int| 0 <= i < s.len() ==> p(#[trigger] s[i]) == q(s[i]),
    ensures
        s.filter(p) == s.filter(q),
    decreases s.len(),
{
    reveal(Seq::filter);
    if s.len() > 0 {
        let t = s.drop_last();
        assert forall|i: int| 0 <= i < t.len() implies p(#[trigger] t[i]) == q(t[i]) by {
            assert(t[i] == s[i]);
        }
        lemma_filter_congruent(t, p, q);
        assert(p(s[s.len() - 1]) == q(s[s.len() - 1]));
    }
}

/// Two filters in a row leave what both let through.
proof fn lemma_filter_twice(s: Seq<Chunk>, p: spec_fn(Chunk) -> bool, q: spec_fn(Chunk) -> bool)
    ensures
        s.filter(p).filter(q) == s.filter(|c: Chunk| p(c) && q(c)),
    decreases s.len(),
{
    reveal(Seq::filter);
    if s.len() > 0 {
        let t = s.drop_last();
        lemma_filter_twice(t, p, q);
        if p(s.last()) {
            assert(t.filter(p).push(s.last()).drop_last() =~= t.filter(p));
        }
    }
}

/// A filter that lets everything through leaves the sequence as it is.
pub proof fn lemma_filter_all(s: Seq<Chunk>, p: spec_fn(Chunk) -> bool)
    requires
        forall|i: int| 0 <= i < s.len() ==> p(#[trigger] s[i]),
    ensures
        s.filter(p) == s,
    decreases s.len(),
{
    reveal(Seq::filter);
    if s.len() > 0 {
        let t = s.drop_last();
        assert forall|i: int| 0 <= i < t.len() implies p(#[trigger] t[i]) by {
            assert(t[i] == s[i]);
        }
        lemma_filter_all(t, p);
        assert(p(s[s.len() - 1]));
        assert(t.push(s.last()) =~= s);
    }
}

/// What a filter leaves is in the sequence, and conversely.
pub proof fn lemma_filter_has(h: Seq<Chunk>, p: spec_fn(Chunk) -> bool, x: Chunk)
    ensures
        h.filter(p).contains(x) <==> h.contains(x) && p(x),
    decreases h.len(),
{
    reveal(Seq::filter);
    if h.len() > 0 {
        let t = h.drop_last();
        lemma_filter_has(t, p, x);
        let f = t.filter(p);
        if h.filter(p).contains(x) {
            let i = h.filter(p).index_of(x);
            if p(h.last()) && i == f.len() {
                assert(h[h.len() - 1] == x);
            } else {
                assert(f[i] == x);
                let j = t.index_of(x);
                assert(h[j] == x);
            }
        }
        if h.contains(x) && p(x) {
            let j = h.index_of(x);
            if j < t.len() {
                assert(t[j] == x);
                let i = f.index_of(x);
                assert(h.filter(p)[i] == x);
            } else {
                assert(h.filter(p)[f.len() as int] == x);
            }
        }
    }
}

/// A filter keeps the blocks of a heap apart and in order.
pub proof fn lemma_filter_wf(h: Seq<Chunk>, p: spec_fn(Chunk) -> bool)
    requires
        heap_wf(h),
    ensures
        heap_wf(h.filter(p)),
    decreases h.len(),
{
    reveal(Seq::filter);
    if h.len() > 0 {
        let t = h.drop_last();
        assert(heap_wf(t)) by {
            assert forall|i: int, j: int| 0 <= i < t.len() && 0 <= j < t.len() && i != j implies
                crate::model::apart(#[trigger] t[i], #[trigger] t[j]) by {
                assert(t[i] == h[i] && t[j] == h[j]);
            }
            assert forall|i: int| 0 <= i < t.len() implies crate::model::chunk_wf(
                #[trigger] t[i],
            ) by {
                assert(t[i] == h[i]);
            }
        }
        lemma_filter_wf(t, p);
        if p(h.last()) {
            let f = t.filter(p);
            let c = h.last();
            assert forall|i: int| 0 <= i < f.len() implies crate::model::chunk_end(#[trigger] f[i])
                <= c.base - crate::model::HEADER_SIZE || crate::model::chunk_end(c) <= f[i].base
                - crate::model::HEADER_SIZE by {
                assert(f.contains(f[i]));
                lemma_filter_has(t, p, f[i]);
                let j = t.index_of(f[i]);
                assert(h[j] == f[i]);
                assert(crate::model::apart(h[j], h[h.len() - 1]));
            }
            assert(crate::model::chunk_wf(h[h.len() - 1]));
            crate::model::lemma_push_wf(f, c);
        }
    }
}

/// Filtering one more element in front.
proof fn lemma_filter_front(h: Seq<Chunk>, k: int, p: spec_fn(Chunk) -> bool)
    requires
        0 <= k < h.len(),
    ensures
        h.skip(k).filter(p) == (if p(h[k]) {
            seq![h[k]]
        } else {
            Seq::empty()
        }) + h.skip(k + 1).filter(p),
{
    let one = seq![h[k]];
    assert(h.skip(k) =~= one + h.skip(k + 1));
    Seq::filter_distributes_over_add(one, h.skip(k + 1), p);
    reveal_with_fuel(Seq::filter, 2);
    assert(one.drop_last() =~= Seq::<Chunk>::empty());
    assert(one.filter(p) =~= (if p(h[k]) {
        seq![h[k]]
    } else {
        Seq::empty()
    }));
}

/// Before the first block is swept.
pub(crate) proof fn lemma_sweep_start(h: Seq<Chunk>, dummy: u64, q: Seq<Block>)
    ensures
        h == h.take(h.len() as int) + swept(h.skip(h.len() as int), dummy),
        q == q + to_blocks(finalizable(h.skip(h.len() as int), dummy).reverse()),
        Seq::<Region>::empty() == regions(
            plain_garbage(h.skip(h.len() as int), dummy).reverse(),
        ),
{
    reveal(Seq::filter);
    let none = h.skip(h.len() as int);
    assert(none.len() == 0);
    assert(h =~= h.take(h.len() as int) + swept(none, dummy));
    assert(q =~= q + to_blocks(finalizable(none, dummy).reverse()));
    assert(Seq::<Region>::empty() =~= regions(plain_garbage(none, dummy).reverse()));
}

/// One block is swept.
pub(crate) proof fn lemma_sweep_step(h: Seq<Chunk>, dummy: u64, k: int, q: Seq<Block>)
    requires
        0 <= k < h.len(),
    ensures
        ({
            let c = h[k];
            let rest = h.skip(k + 1);
            let all = h.skip(k);
            let doomed = is_dead(c) && c.md.drop_vptr != dummy;
            let plain = is_dead(c) && c.md.drop_vptr == dummy;
            &&& !plain ==> h.take(k) + swept(all, dummy) == h.take(k + 1) + swept(rest, dummy)
            &&& plain ==> h.take(k) + swept(all, dummy) == (h.take(k + 1) + swept(
                rest,
                dummy,
            )).remove(k)
            &&& q + to_blocks(finalizable(all, dummy).reverse()) == (if doomed {
                (q + to_blocks(finalizable(rest, dummy).reverse())).push(Block { base: c.base })
            } else {
                q + to_blocks(finalizable(rest, dummy).reverse())
            })
            &&& regions(plain_garbage(all, dummy).reverse()) == (if plain {
                regions(plain_garbage(rest, dummy).reverse()).push(
                    c.region,
                )
            } else {
                regions(plain_garbage(rest, dummy).reverse())
            })
        }),
{
    let c = h[k];
    let rest = h.skip(k + 1);
    let all = h.skip(k);
    let doomed = is_dead(c) && c.md.drop_vptr != dummy;
    let plain = is_dead(c) && c.md.drop_vptr == dummy;
    lemma_filter_front(h, k, |c: Chunk| !(is_dead(c) && c.md.drop_vptr == dummy));
    lemma_filter_front(h, k, |c: Chunk| is_dead(c) && c.md.drop_vptr != dummy);
    lemma_filter_front(h, k, |c: Chunk| is_dead(c) && c.md.drop_vptr == dummy);
    assert(h.take(k + 1) =~= h.take(k) + seq![c]);
    if plain {
        assert(h.take(k) + swept(all, dummy) =~= (h.take(k + 1) + swept(rest, dummy)).remove(k));
        assert(regions(plain_garbage(all, dummy).reverse()) =~= regions(
            plain_garbage(rest, dummy).reverse(),
        ).push(c.region));
    } else {
        assert(h.take(k) + swept(all, dummy) =~= h.take(k + 1) + swept(rest, dummy));
        assert(plain_garbage(all, dummy) =~= plain_garbage(rest, dummy));
    }
    if doomed {
        assert(q + to_blocks(finalizable(all, dummy).reverse()) =~= (q + to_blocks(
            finalizable(rest, dummy).reverse(),
        )).push(Block { base: c.base }));
    } else {
        assert(finalizable(all, dummy) =~= finalizable(rest, dummy));
    }
}

/// Taking no block away leaves the heap as it is.
pub(crate) proof fn lemma_without_none(h: Seq<Chunk>)
    ensures
        without(h, Seq::<Block>::empty()) == h,
{
    lemma_filter_all(h, |c: Chunk| !Seq::<Block>::empty().contains(Block { base: c.base }));
}

/// Taking a block away is filtering it out.
pub proof fn lemma_remove_is_filter(h: Seq<Chunk>, i: int)
    requires
        heap_wf(h),
        0 <= i < h.len(),
    ensures
        h.remove(i) == h.filter(|c: Chunk| c.base != h[i].base),
{
    let p = |c: Chunk| c.base != h[i].base;
    let a = h.take(i);
    let b = h.skip(i);
    assert(h =~= a + b);
    Seq::filter_distributes_over_add(a, b, p);
    lemma_filter_front(h, i, p);
    assert forall|k: int| 0 <= k < a.len() implies p(#[trigger] a[k]) by {
        lemma_index_unique(h, k);
        lemma_index_unique(h, i);
    }
    lemma_filter_all(a, p);
    let c = h.skip(i + 1);
    assert forall|k: int| 0 <= k < c.len() implies p(#[trigger] c[k]) by {
        assert(c[k] == h[k + i + 1]);
        lemma_index_unique(h, k + i + 1);
        lemma_index_unique(h, i);
    }
    lemma_filter_all(c, p);
    assert(h.remove(i) =~= a + c);
    assert(Seq::<Chunk>::empty() + c =~= c);
}

/// One block is taken off the drop queue and off the heap.
pub(crate) proof fn lemma_drop_step(
    h: Seq<Chunk>,
    q: Seq<Block>,
    n: int,
)
    requires
        heap_wf(h),
        droppable(h, q),
        0 < n <= q.len(),
    ensures
        ({
            let b = q[n - 1].base;
            let now = without(h, q.skip(n));
            &&& has_base(now, b)
            &&& now[index_of(now, b)] == h[index_of(h, b)]
            &&& now.remove(index_of(now, b)) == without(h, q.skip(n - 1))
        }),
{
    let b = q[n - 1].base;
    let now = without(h, q.skip(n));
    let p = |c: Chunk| !q.skip(n).contains(Block { base: c.base });
    lemma_filter_wf(h, p);
    let i = index_of(h, b);
    lemma_index_of(h, b);
    assert(!q.skip(n).contains(Block { base: b })) by {
        if q.skip(n).contains(Block { base: b }) {
            let k = q.skip(n).index_of(Block { base: b });
            assert(q[n + k] == q[n - 1]);
        }
    }
    assert(p(h[i]));
    assert(h.contains(h[i]));
    lemma_filter_has(h, p, h[i]);
    let j = now.index_of(h[i]);
    assert(now[j].base == b);
    lemma_index_unique(now, j);
    lemma_remove_is_filter(now, j);
    let r = |c: Chunk| c.base != now[j].base;
    lemma_filter_twice(h, p, r);
    let both = |c: Chunk| p(c) && r(c);
    let want = |c: Chunk| !q.skip(n - 1).contains(Block { base: c.base });
    assert forall|k: int| 0 <= k < h.len() implies both(#[trigger] h[k]) == want(h[k]) by {
        let x = Block { base: h[k].base };
        let s = q.skip(n - 1);
        let t = q.skip(n);
        assert(s[0] == q[n - 1]);
        if s.contains(x) {
            let m = s.index_of(x);
            if m > 0 {
                assert(t[m - 1] == x);
            }
        }
        if t.contains(x) {
            let m = t.index_of(x);
            assert(s[m + 1] == x);
        }
    }
    lemma_filter_congruent(h, both, want);
}

/// Emptying the drop queue takes exactly its blocks away, and runs exactly
/// their destructors.
pub(crate) proof fn lemma_dropped(h: Seq<Chunk>, q: Seq<Block>, n: int)
    requires
        heap_wf(h),
        droppable(h, q),
        0 <= n <= q.len(),
    ensures
        dropped(without(h, q.skip(n)), q.take(n)) == without(h, q),
        drop_order(without(h, q.skip(n)), q.take(n)) == Seq::new(
            n as nat,
            |k: int| finalizer(h[index_of(h, q[n - 1 - k].base)]),
        ),
    decreases n,
{
    let now = without(h, q.skip(n));
    let want = Seq::new(n as nat, |k: int| finalizer(h[index_of(h, q[n - 1 - k].base)]));
    if n == 0 {
        assert(q.skip(0) =~= q);
        assert(drop_order(now, q.take(0)) =~= want);
    } else {
        lemma_drop_step(h, q, n);
        lemma_dropped(h, q, n - 1);
        assert(q.take(n).last() == q[n - 1]);
        assert(q.take(n).drop_last() =~= q.take(n - 1));
        assert(drop_order(now, q.take(n)) =~= want);
    }
}

/// Sweeping and then emptying the drop queue removes all garbage, and runs the
/// destructors of what has one from the oldest block to the newest.
pub(crate) proof fn lemma_sweep_then_drop(h: Seq<Chunk>, dummy: u64)
    requires
        heap_wf(h),
        collectable(h),
    ensures
        ({
            let q = to_blocks(finalizable(h, dummy).reverse());
            &&& droppable(swept(h, dummy), q)
            &&& dropped(swept(h, dummy), q) == survivors(h)
            &&& drop_order(swept(h, dummy), q) == finalizers(finalizable(h, dummy))
        }),
{
    let doomed = |c: Chunk| is_dead(c) && c.md.drop_vptr != dummy;
    let stays = |c: Chunk| !(is_dead(c) && c.md.drop_vptr == dummy);
    let f = finalizable(h, dummy);
    let s = swept(h, dummy);
    let q = to_blocks(f.reverse());
    lemma_filter_wf(h, doomed);
    lemma_filter_wf(h, stays);
    // A doomed block is still on the swept heap.
    assert forall|k: int| 0 <= k < f.len() implies h.contains(#[trigger] f[k]) && doomed(f[k])
        && has_base(s, f[k].base) && s[index_of(s, f[k].base)] == f[k] && f[k].md.drop_vptr != 0 by {
        assert(f.contains(f[k]));
        lemma_filter_has(h, doomed, f[k]);
        lemma_filter_has(h, stays, f[k]);
        let j = s.index_of(f[k]);
        lemma_index_unique(s, j);
        let i = h.index_of(f[k]);
        assert(h[i] == f[k]);
    }
    assert forall|i: int| 0 <= i < q.len() implies (#[trigger] q[i]).base == f[f.len() - 1 - i].base by {}
    assert(droppable(s, q)) by {
        assert forall|i: int, j: int| 0 <= i < q.len() && 0 <= j < q.len() && i != j implies q[i]
            != q[j] by {
            lemma_index_unique(f, f.len() - 1 - i);
            lemma_index_unique(f, f.len() - 1 - j);
        }
        assert forall|i: int| 0 <= i < q.len() implies {
            &&& has_base(s, (#[trigger] q[i]).base)
            &&& md_of(s, q[i].base).is_gc
            &&& md_of(s, q[i].base).drop_vptr != 0
        } by {
            let c = f[f.len() - 1 - i];
            assert(doomed(c));
        }
    }
    let not_queued = |c: Chunk| !q.contains(Block { base: c.base });
    let alive = |c: Chunk| !is_dead(c);
    lemma_filter_twice(h, stays, not_queued);
    let both = |c: Chunk| stays(c) && not_queued(c);
    assert forall|k: int| 0 <= k < h.len() implies both(#[trigger] h[k]) == alive(h[k]) by {
        let x = Block { base: h[k].base };
        if q.contains(x) {
            let m = q.index_of(x);
            let c = f[f.len() - 1 - m];
            assert(h.contains(c));
            let i = h.index_of(c);
            lemma_index_unique(h, i);
            lemma_index_unique(h, k);
        }
        if doomed(h[k]) {
            assert(h.contains(h[k]));
            lemma_filter_has(h, doomed, h[k]);
            let m = f.index_of(h[k]);
            assert(q[f.len() - 1 - m] == x);
        }
    }
    lemma_filter_congruent(h, both, alive);
    let n = q.len() as int;
    assert(q.skip(n) =~= Seq::<Block>::empty());
    assert(q.take(n) =~= q);
    lemma_without_none(s);
    lemma_dropped(s, q, n);
    assert(drop_order(s, q) =~= finalizers(f));
}

} // verus!
