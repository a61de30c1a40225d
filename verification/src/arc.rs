//! Reference-counted cells, each holding one instance of a resource, and the
//! heap they live in.
//!
//! A cell is one block of the heap: a header, which names the descriptor and
//! counts the handles, followed by the bytes of the instance. A handle is a
//! [`ResArc`]. Taking another handle raises the count, giving one up lowers it,
//! and the handle that brings the count to zero takes the instance out of the
//! heap, once.

use crate::def::Resource;
use crate::error::NsError;
use crate::layout::{lemma_round_up, round_up, valid_layout, Layout};
use vstd::arithmetic::power2::is_pow2;
use vstd::layout::{align_of, size_of};
use vstd::multiset::Multiset;
use vstd::prelude::*;

verus! {

/// The largest strong count from which another handle may be taken.
pub const MAX_REFCOUNT: usize = isize::MAX as usize;

/// The header of a cell: the descriptor of the resource and the number of
/// handles that refer to the cell.
pub struct ResInner {
    res: &'static Resource,
    strong: usize,
}

impl ResInner {
    pub closed spec fn spec_res(&self) -> &'static Resource {
        self.res
    }

    pub closed spec fn spec_strong(&self) -> usize {
        self.strong
    }

    /// The descriptor of the resource that the cell holds.
    #[verifier::when_used_as_spec(spec_res)]
    pub fn res(&self) -> (r: &'static Resource)
        ensures
            r == self.res(),
    {
        self.res
    }

    /// The number of handles that refer to the cell.
    #[verifier::when_used_as_spec(spec_strong)]
    pub fn strong(&self) -> (r: usize)
        ensures
            r == self.strong(),
    {
        self.strong
    }
}

/// The strong count after another handle is taken from a cell that counts
/// `strong`, or the refusal to count beyond [`MAX_REFCOUNT`].
pub fn increment(strong: usize) -> (r: Result<usize, NsError>)
    ensures
        match r {
            Ok(next) => strong <= MAX_REFCOUNT && next == strong + 1,
            Err(e) => strong > MAX_REFCOUNT && e == NsError::CounterOverflow,
        },
{
    if strong > MAX_REFCOUNT {
        Err(NsError::CounterOverflow)
    } else {
        Ok(strong + 1)
    }
}

/// Where the instance starts in the block of a cell whose instance has the
/// layout `body`: behind the header, at the first offset aligned for `body`.
pub open spec fn block_offset(body: Layout) -> int {
    round_up(size_of::<ResInner>() as int, body.align() as int)
}

/// The size of the block of a cell whose instance has the layout `body`.
pub open spec fn block_size(body: Layout) -> int {
    block_offset(body) + body.size()
}

/// The alignment of the block of a cell whose instance has the layout `body`.
pub open spec fn block_align(body: Layout) -> int {
    if align_of::<ResInner>() >= body.align() {
        align_of::<ResInner>() as int
    } else {
        body.align() as int
    }
}

/// Whether a cell whose instance has the layout `body` has a block at all.
pub open spec fn block_fits(body: Layout) -> bool {
    valid_layout(block_size(body), block_align(body))
}

/// In a block, the instance lies behind the header, at an offset that is
/// aligned for it, with less than one alignment of padding in between.
pub proof fn lemma_block_layout(body: Layout)
    requires
        body.wf(),
    ensures
        size_of::<ResInner>() <= block_offset(body) < size_of::<ResInner>() + body.align(),
        block_offset(body) % (body.align() as int) == 0,
        block_size(body) == block_offset(body) + body.size(),
{
    reveal(is_pow2);
    lemma_round_up(size_of::<ResInner>() as int, body.align() as int);
}

/// The layout of the block of a cell whose instance has the layout `body`, and
/// the offset of the instance in it: the header, then the least padding that
/// aligns the instance, then the instance. `None` if that is no layout.
pub fn layout(body: Layout) -> (r: Option<(Layout, usize)>)
    ensures
        r is Some <==> block_fits(body),
        r matches Some((block, offset)) ==> {
            &&& offset == block_offset(body)
            &&& block.size() == block_size(body)
            &&& block.align() == block_align(body)
        },
{
    Layout::new::<ResInner>().extend(body)
}

/// What a heap holds of one cell.
pub struct CellState {
    /// The descriptor of the resource.
    pub res: Resource,
    /// The number of handles that refer to the cell.
    pub strong: nat,
    /// The bytes of the instance.
    pub body: Seq<u8>,
}

impl CellState {
    /// A cell is referred to by at least one handle, and its instance has the
    /// size that its descriptor gives; its block has a layout.
    pub open spec fn wf(self) -> bool {
        &&& self.res.wf()
        &&& self.strong >= 1
        &&& self.body.len() == self.res.layout().size()
        &&& block_fits(self.res.layout())
    }

    /// This cell with the strong count `strong`.
    pub open spec fn with_strong(self, strong: nat) -> CellState {
        CellState { strong, ..self }
    }

    /// This cell with the instance `body`.
    pub open spec fn with_body(self, body: Seq<u8>) -> CellState {
        CellState { body, ..self }
    }
}

/// The cells of `heap` after another handle to the cell at `p` was taken.
pub open spec fn retained(heap: Map<usize, CellState>, p: usize) -> Map<usize, CellState> {
    heap.insert(p, heap[p].with_strong(heap[p].strong + 1))
}

/// Whether the cell at `p` has one handle left, so that giving it up destroys
/// the instance.
pub open spec fn is_last(heap: Map<usize, CellState>, p: usize) -> bool {
    heap[p].strong == 1
}

/// The cells of `heap` after one handle to the cell at `p` was given up: the
/// cell is gone if that was its last handle, and counts one less if not.
pub open spec fn released(heap: Map<usize, CellState>, p: usize) -> Map<usize, CellState> {
    if is_last(heap, p) {
        heap.remove(p)
    } else {
        heap.insert(p, heap[p].with_strong((heap[p].strong - 1) as nat))
    }
}

/// The cells of `heap` after `n` handles to the cell at `p` were given up, one
/// after the other.
pub open spec fn released_times(heap: Map<usize, CellState>, p: usize, n: nat) -> Map<
    usize,
    CellState,
>
    decreases n,
{
    if n == 0 {
        heap
    } else {
        released(released_times(heap, p, (n - 1) as nat), p)
    }
}

/// The cells of `heap` after the handles to the cell at `p` were taken and
/// given up as `ops` says, in its order: `true` takes one, `false` gives one
/// up.
pub open spec fn replayed(heap: Map<usize, CellState>, p: usize, ops: Seq<bool>) -> Map<
    usize,
    CellState,
>
    decreases ops.len(),
{
    if ops.len() == 0 {
        heap
    } else if ops.last() {
        retained(replayed(heap, p, ops.drop_last()), p)
    } else {
        released(replayed(heap, p, ops.drop_last()), p)
    }
}

/// The handles that `ops` takes, less those that it gives up.
pub open spec fn balance(ops: Seq<bool>) -> int
    decreases ops.len(),
{
    if ops.len() == 0 {
        0
    } else if ops.last() {
        balance(ops.drop_last()) + 1
    } else {
        balance(ops.drop_last()) - 1
    }
}

/// Whether the strong counts of `heap` are the numbers of the handles in
/// `handles`, which holds the address of a cell once for each handle to it.
pub open spec fn counts_handles(heap: Map<usize, CellState>, handles: Multiset<usize>) -> bool {
    forall|p: usize|
        #![trigger heap.dom().contains(p)]
        #![trigger handles.count(p)]
        {
            &&& heap.dom().contains(p) <==> handles.count(p) > 0
            &&& heap.dom().contains(p) ==> heap[p].strong == handles.count(p)
        }
}

/// Taking another handle and then giving up the first one leaves the cell as
/// it was: live, with the same instance and the same count. The handle given
/// up was not the last, so nothing is destroyed.
pub proof fn lemma_clone_then_drop(heap: Map<usize, CellState>, p: usize)
    requires
        heap.dom().contains(p),
        heap[p].strong >= 1,
    ensures
        !is_last(retained(heap, p), p),
        released(retained(heap, p), p) == heap,
{
}

/// Of the handles to a cell, given up one after the other, the last one and
/// no other destroys the instance: while fewer handles are given up than the
/// cell counts, the cell is live with its instance as it was, and is at its
/// last handle only when all but one are gone; once all are given up the cell
/// is gone, so that nothing is left to destroy again.
pub proof fn lemma_drop_all(heap: Map<usize, CellState>, p: usize, n: nat)
    requires
        heap.dom().contains(p),
        n <= heap[p].strong,
        heap[p].strong >= 1,
    ensures
        n < heap[p].strong ==> released_times(heap, p, n) == heap.insert(
            p,
            heap[p].with_strong((heap[p].strong - n) as nat),
        ),
        n < heap[p].strong ==> (is_last(released_times(heap, p, n), p) <==> n + 1
            == heap[p].strong),
        n == heap[p].strong ==> released_times(heap, p, n) == heap.remove(p),
    decreases n,
{
    if n > 0 {
        lemma_drop_all(heap, p, (n - 1) as nat);
    }
}

/// However the taking and giving up of handles to one cell is interleaved,
/// as long as no handle is given up that was not counted before, the cell
/// stays live with its instance, and counts what it counted plus the handles
/// taken less those given up. After as many were given up as were taken, the
/// heap is as it was.
pub proof fn lemma_cycles_keep_count(heap: Map<usize, CellState>, p: usize, ops: Seq<bool>)
    requires
        heap.dom().contains(p),
        forall|k: int| 0 <= k <= ops.len() ==> heap[p].strong + balance(#[trigger] ops.take(k)) >= 1,
    ensures
        replayed(heap, p, ops) == heap.insert(
            p,
            heap[p].with_strong((heap[p].strong + balance(ops)) as nat),
        ),
        balance(ops) == 0 ==> replayed(heap, p, ops) == heap,
    decreases ops.len(),
{
    assert(ops.take(ops.len() as int) =~= ops);
    if ops.len() > 0 {
        let front = ops.drop_last();
        assert forall|k: int| 0 <= k <= front.len() implies heap[p].strong + balance(
            #[trigger] front.take(k),
        ) >= 1 by {
            assert(front.take(k) =~= ops.take(k));
        }
        lemma_cycles_keep_count(heap, p, front);
    }
}

/// The strong count of a cell is the number of handles to it, whatever is
/// done: a new cell comes with one handle, taking a handle adds one, giving
/// one up removes one. So a cell is live as long as there is a handle to it,
/// and gone with the last.
pub proof fn lemma_counts_follow_handles(
    heap: Map<usize, CellState>,
    handles: Multiset<usize>,
    p: usize,
    cell: CellState,
)
    requires
        counts_handles(heap, handles),
    ensures
        !heap.dom().contains(p) && cell.strong == 1 ==> counts_handles(
            heap.insert(p, cell),
            handles.insert(p),
        ),
        heap.dom().contains(p) ==> counts_handles(retained(heap, p), handles.insert(p)),
        heap.dom().contains(p) ==> counts_handles(released(heap, p), handles.remove(p)),
{
}

/// One block of the heap: the header of a cell and the bytes of its instance.
struct ResBlock {
    inner: ResInner,
    body: Vec<u8>,
}

impl ResBlock {
    spec fn cell(self) -> CellState {
        CellState { res: *self.inner.res, strong: self.inner.strong as nat, body: self.body@ }
    }
}

/// The bytes that the blocks of `slots` take together.
spec fn total_bytes(slots: Seq<Option<ResBlock>>) -> int
    decreases slots.len(),
{
    if slots.len() == 0 {
        0
    } else {
        total_bytes(slots.drop_last()) + slot_bytes(slots.last())
    }
}

/// The bytes that the block in `slot` takes, if there is one.
spec fn slot_bytes(slot: Option<ResBlock>) -> int {
    match slot {
        Some(block) => block_size(block.inner.res.layout()),
        None => 0,
    }
}

proof fn lemma_total_bytes_nonnegative(slots: Seq<Option<ResBlock>>)
    requires
        forall|i: int|
            0 <= i < slots.len() && slots[i] is Some ==> (#[trigger] slots[i])->0.cell().wf(),
    ensures
        total_bytes(slots) >= 0,
    decreases slots.len(),
{
    if slots.len() > 0 {
        lemma_total_bytes_nonnegative(slots.drop_last());
    }
}

proof fn lemma_total_bytes_push(slots: Seq<Option<ResBlock>>, slot: Option<ResBlock>)
    ensures
        total_bytes(slots.push(slot)) == total_bytes(slots) + slot_bytes(slot),
{
    assert(slots.push(slot).drop_last() =~= slots);
}

proof fn lemma_total_bytes_update(slots: Seq<Option<ResBlock>>, i: int, slot: Option<ResBlock>)
    requires
        0 <= i < slots.len(),
    ensures
        total_bytes(slots.update(i, slot)) == total_bytes(slots) - slot_bytes(slots[i])
            + slot_bytes(slot),
    decreases slots.len(),
{
    if i == slots.len() - 1 {
        assert(slots.update(i, slot).drop_last() =~= slots.drop_last());
    } else {
        lemma_total_bytes_update(slots.drop_last(), i, slot);
        assert(slots.update(i, slot).drop_last() =~= slots.drop_last().update(i, slot));
    }
}

/// The memory that cells are carved from: a set of blocks, each at an address
/// of its own, whose sizes together stay within a fixed number of bytes.
pub struct ResHeap {
    slots: Vec<Option<ResBlock>>,
    limit: usize,
    used: usize,
}

/// The cells in `slots`, by address.
spec fn cells_of(slots: Seq<Option<ResBlock>>) -> Map<usize, CellState> {
    Map::new(
        |p: usize| p < slots.len() && slots[p as int] is Some,
        |p: usize| slots[p as int]->0.cell(),
    )
}

impl View for ResHeap {
    type V = Map<usize, CellState>;

    /// The live cells, by address.
    closed spec fn view(&self) -> Map<usize, CellState> {
        cells_of(self.slots@)
    }
}

/// The bytes that the blocks of the cells of `heap` at addresses below `n`
/// take together.
pub open spec fn live_bytes(heap: Map<usize, CellState>, n: nat) -> int
    decreases n,
{
    if n == 0 {
        0
    } else {
        live_bytes(heap, (n - 1) as nat) + if heap.dom().contains((n - 1) as usize) {
            block_size(heap[(n - 1) as usize].res.layout())
        } else {
            0
        }
    }
}

proof fn lemma_live_bytes_agree(a: Map<usize, CellState>, b: Map<usize, CellState>, n: nat)
    requires
        n <= usize::MAX + 1,
        forall|p: usize| p < n ==> (a.dom().contains(p) <==> b.dom().contains(p)),
        forall|p: usize| p < n && a.dom().contains(p) ==> a[p] == b[p],
    ensures
        live_bytes(a, n) == live_bytes(b, n),
    decreases n,
{
    if n > 0 {
        lemma_live_bytes_agree(a, b, (n - 1) as nat);
    }
}

proof fn lemma_live_bytes_beyond(heap: Map<usize, CellState>, m: nat, n: nat)
    requires
        m <= n <= usize::MAX + 1,
        forall|p: usize| heap.dom().contains(p) ==> p < m,
    ensures
        live_bytes(heap, n) == live_bytes(heap, m),
    decreases n,
{
    if m < n {
        lemma_live_bytes_beyond(heap, m, (n - 1) as nat);
    }
}

proof fn lemma_total_is_live_bytes(slots: Seq<Option<ResBlock>>)
    requires
        slots.len() <= usize::MAX,
    ensures
        total_bytes(slots) == live_bytes(cells_of(slots), slots.len()),
    decreases slots.len(),
{
    if slots.len() > 0 {
        let front = slots.drop_last();
        lemma_total_is_live_bytes(front);
        lemma_live_bytes_agree(cells_of(slots), cells_of(front), front.len());
    }
}

impl ResHeap {
    /// The bytes in use are those of the live blocks.
    pub closed spec fn accounted(&self) -> bool {
        self.used == total_bytes(self.slots@)
    }

    /// The heap accounts for its bytes and stays within its limit, and every
    /// live cell is valid.
    pub open spec fn wf(&self) -> bool {
        &&& self.accounted()
        &&& self.used() <= self.limit()
        &&& forall|p: usize| self@.dom().contains(p) ==> (#[trigger] self@[p]).wf()
    }

    pub closed spec fn spec_limit(&self) -> usize {
        self.limit
    }

    pub closed spec fn spec_used(&self) -> usize {
        self.used
    }

    /// Whether `block` more bytes fit into the heap.
    pub open spec fn has_room(&self, block: int) -> bool {
        block <= self.limit() - self.used()
    }

    /// An empty heap that holds up to `limit` bytes.
    pub fn new(limit: usize) -> (r: ResHeap)
        ensures
            r.wf(),
            r@ == Map::<usize, CellState>::empty(),
            r.limit() == limit,
            r.used() == 0,
    {
        ResHeap { slots: Vec::new(), limit, used: 0 }
    }

    /// The bytes in use are those of the blocks of the live cells: `n` being
    /// above every address at which a cell lives, the sum of their sizes.
    pub proof fn lemma_used_is_live_bytes(&self, n: nat)
        requires
            self.wf(),
            n <= usize::MAX + 1,
            forall|p: usize| self@.dom().contains(p) ==> p < n,
        ensures
            self.used() == live_bytes(self@, n),
    {
        let len = self.slots@.len();
        assert(len == self.slots.len());
        lemma_total_is_live_bytes(self.slots@);
        if n <= len {
            lemma_live_bytes_beyond(self@, n, len);
        } else {
            lemma_live_bytes_beyond(self@, len, n);
        }
    }

    proof fn lemma_blocks_wf(&self)
        requires
            self.wf(),
        ensures
            forall|i: int|
                0 <= i < self.slots@.len() && self.slots@[i] is Some ==> (
                #[trigger] self.slots@[i])->0.cell().wf(),
    {
        assert forall|i: int| 0 <= i < self.slots@.len() && self.slots@[i] is Some implies (
        #[trigger] self.slots@[i])->0.cell().wf() by {
            assert(self.slots@.len() == self.slots.len());
            assert(self@[i as usize].wf());
        }
    }

    /// The least address at which no block lies.
    fn find_free(&self) -> (p: usize)
        ensures
            p <= self.slots@.len(),
            p < self.slots@.len() ==> self.slots@[p as int] is None,
            !self@.dom().contains(p),
    {
        let mut p: usize = 0;
        while p < self.slots.len() && self.slots[p].is_some()
            invariant
                p <= self.slots@.len(),
            decreases self.slots@.len() - p,
        {
            p = p + 1;
        }
        p
    }

    /// The number of bytes that the heap may hold.
    #[verifier::when_used_as_spec(spec_limit)]
    pub fn limit(&self) -> (r: usize)
        ensures
            r == self.limit(),
    {
        self.limit
    }

    /// The number of bytes that the live blocks take.
    #[verifier::when_used_as_spec(spec_used)]
    pub fn used(&self) -> (r: usize)
        ensures
            r == self.used(),
    {
        self.used
    }
}

/// A handle to a cell. It is neither copied nor cloned: the only way to a
/// second handle is [`ResArc::clone`], which counts it.
pub struct ResArc {
    ptr: usize,
}

impl ResArc {
    /// The address of the cell in its heap.
    pub closed spec fn addr(&self) -> usize {
        self.ptr
    }

    /// Whether the cell of this handle is live in `heap`.
    pub fn is_live(&self, heap: &ResHeap) -> (r: bool)
        ensures
            r == heap@.dom().contains(self.addr()),
    {
        self.ptr < heap.slots.len() && heap.slots[self.ptr].is_some()
    }

    /// A new cell in `alloc` for the resource that `res` describes: a block
    /// of its own with one handle, the one returned, and a default instance.
    ///
    /// Fails if the block has no layout or `alloc` has no room for it.
    pub fn new_in(res: &'static Resource, alloc: &mut ResHeap) -> (r: Result<ResArc, NsError>)
        requires
            old(alloc).wf(),
        ensures
            final(alloc).wf(),
            final(alloc).limit() == old(alloc).limit(),
            match r {
                Ok(cell) => {
                    &&& block_fits(res.layout())
                    &&& old(alloc).has_room(block_size(res.layout()))
                    &&& !old(alloc)@.dom().contains(cell.addr())
                    &&& final(alloc)@ == old(alloc)@.insert(
                        cell.addr(),
                        CellState { res: *res, strong: 1, body: res.init()@ },
                    )
                    &&& final(alloc).used() == old(alloc).used() + block_size(res.layout())
                },
                Err(e) => {
                    &&& e == NsError::AllocationFailure
                    &&& !(block_fits(res.layout()) && old(alloc).has_room(
                        block_size(res.layout()),
                    ))
                    &&& *final(alloc) == *old(alloc)
                },
            },
    {
        let size: usize = match layout(res.layout()) {
            Some((block, _)) => block.size(),
            None => {
                return Err(NsError::AllocationFailure);
            },
        };
        if size > alloc.limit - alloc.used {
            return Err(NsError::AllocationFailure);
        }
        let body: Vec<u8> = res.init().clone();
        let block = ResBlock { inner: ResInner { res, strong: 1 }, body };
        let ptr: usize = alloc.find_free();
        proof {
            if ptr < alloc.slots@.len() {
                lemma_total_bytes_update(alloc.slots@, ptr as int, Some(block));
            } else {
                lemma_total_bytes_push(alloc.slots@, Some(block));
            }
        }
        if ptr < alloc.slots.len() {
            alloc.slots.set(ptr, Some(block));
        } else {
            alloc.slots.push(Some(block));
        }
        alloc.used = alloc.used + size;
        assert(alloc@ =~= old(alloc)@.insert(
            ptr,
            CellState { res: *res, strong: 1, body: res.init()@ },
        ));
        Ok(ResArc { ptr })
    }

    /// Another handle to the same cell. The cell counts one more.
    ///
    /// Fails if the cell counts more than [`MAX_REFCOUNT`] handles already.
    pub fn clone(&self, heap: &mut ResHeap) -> (r: Result<ResArc, NsError>)
        requires
            old(heap).wf(),
            old(heap)@.dom().contains(self.addr()),
        ensures
            final(heap).wf(),
            final(heap).limit() == old(heap).limit(),
            final(heap).used() == old(heap).used(),
            match r {
                Ok(cell) => {
                    &&& cell.addr() == self.addr()
                    &&& old(heap)@[self.addr()].strong <= MAX_REFCOUNT
                    &&& final(heap)@ == retained(old(heap)@, self.addr())
                },
                Err(e) => {
                    &&& e == NsError::CounterOverflow
                    &&& old(heap)@[self.addr()].strong > MAX_REFCOUNT
                    &&& *final(heap) == *old(heap)
                },
            },
    {
        let ptr: usize = self.ptr;
        let next: usize = increment(self.header(heap).strong())?;
        match &mut heap.slots[ptr] {
            Some(block) => {
                block.inner.strong = next;
            },
            None => {},
        }
        proof {
            lemma_total_bytes_update(old(heap).slots@, ptr as int, heap.slots@[ptr as int]);
            assert(heap@ =~= retained(old(heap)@, ptr));
        }
        Ok(ResArc { ptr })
    }

    /// Gives this handle up. The cell counts one less; if this was its last
    /// handle, the cell leaves the heap, its bytes are free again, and the
    /// instance is returned to be destroyed.
    pub fn drop(self, heap: &mut ResHeap) -> (r: Option<Vec<u8>>)
        requires
            old(heap).wf(),
            old(heap)@.dom().contains(self.addr()),
        ensures
            final(heap).wf(),
            final(heap).limit() == old(heap).limit(),
            final(heap)@ == released(old(heap)@, self.addr()),
            match r {
                Some(body) => {
                    &&& is_last(old(heap)@, self.addr())
                    &&& body@ == old(heap)@[self.addr()].body
                    &&& final(heap).used() == old(heap).used() - block_size(
                        old(heap)@[self.addr()].res.layout(),
                    )
                },
                None => {
                    &&& !is_last(old(heap)@, self.addr())
                    &&& final(heap).used() == old(heap).used()
                },
            },
    {
        self.release(heap)
    }

    /// What [`ResArc::drop`] does, for a handle that its owner forgets
    /// afterwards.
    pub(crate) fn release(&self, heap: &mut ResHeap) -> (r: Option<Vec<u8>>)
        requires
            old(heap).wf(),
            old(heap)@.dom().contains(self.addr()),
        ensures
            final(heap).wf(),
            final(heap).limit() == old(heap).limit(),
            final(heap)@ == released(old(heap)@, self.addr()),
            match r {
                Some(body) => {
                    &&& is_last(old(heap)@, self.addr())
                    &&& body@ == old(heap)@[self.addr()].body
                    &&& final(heap).used() == old(heap).used() - block_size(
                        old(heap)@[self.addr()].res.layout(),
                    )
                },
                None => {
                    &&& !is_last(old(heap)@, self.addr())
                    &&& final(heap).used() == old(heap).used()
                },
            },
    {
        let ptr: usize = self.ptr;
        let header = self.header(heap);
        if header.strong() != 1 {
            match &mut heap.slots[ptr] {
                Some(block) => {
                    block.inner.strong = block.inner.strong - 1;
                },
                None => {},
            }
            proof {
                lemma_total_bytes_update(old(heap).slots@, ptr as int, heap.slots@[ptr as int]);
                assert(heap@ =~= released(old(heap)@, ptr));
            }
            return None;
        }
        let size: usize = match layout(header.res().layout()) {
            Some((block, _)) => block.size(),
            None => unreached(),
        };
        proof {
            lemma_total_bytes_update(heap.slots@, ptr as int, None);
            heap.lemma_blocks_wf();
            lemma_total_bytes_nonnegative(heap.slots@.update(ptr as int, None));
        }
        let body: Vec<u8> = match heap.slots[ptr].take() {
            Some(block) => block.body,
            None => unreached(),
        };
        heap.used = heap.used - size;
        Some(body)
    }

    /// Writes `body` over the instance. Every handle to the cell reads the new
    /// bytes from then on.
    pub fn store(&self, heap: &mut ResHeap, body: Vec<u8>)
        requires
            old(heap).wf(),
            old(heap)@.dom().contains(self.addr()),
            body@.len() == old(heap)@[self.addr()].body.len(),
        ensures
            final(heap).wf(),
            final(heap).limit() == old(heap).limit(),
            final(heap).used() == old(heap).used(),
            final(heap)@ == old(heap)@.insert(
                self.addr(),
                old(heap)@[self.addr()].with_body(body@),
            ),
    {
        let ptr: usize = self.ptr;
        match &mut heap.slots[ptr] {
            Some(block) => {
                block.body = body;
            },
            None => {},
        }
        proof {
            lemma_total_bytes_update(old(heap).slots@, ptr as int, heap.slots@[ptr as int]);
            assert(heap@ =~= old(heap)@.insert(ptr, old(heap)@[ptr].with_body(body@)));
        }
    }

    /// The header of the cell.
    pub fn header<'a>(&self, heap: &'a ResHeap) -> (r: &'a ResInner)
        requires
            heap@.dom().contains(self.addr()),
        ensures
            *r.res() == heap@[self.addr()].res,
            r.strong() == heap@[self.addr()].strong,
    {
        match &heap.slots[self.ptr] {
            Some(block) => &block.inner,
            None => unreached(),
        }
    }

    /// The bytes of the instance.
    pub fn body<'a>(&self, heap: &'a ResHeap) -> (r: &'a [u8])
        requires
            heap@.dom().contains(self.addr()),
        ensures
            r@ == heap@[self.addr()].body,
    {
        match &heap.slots[self.ptr] {
            Some(block) => block.body.as_slice(),
            None => unreached(),
        }
    }
}

} // verus!
