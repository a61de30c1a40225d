//! Namespaces: one cell per registered resource, in the order of the registry.

use crate::arc::{
    block_fits, block_size, is_last, layout, lemma_block_layout, released, retained, CellState,
    ResArc, ResHeap, MAX_REFCOUNT,
};
use crate::def::{Registry, Resource};
use crate::error::NsError;
use crate::layout::{valid_layout, Layout};
use vstd::layout::{align_of, size_of};
use vstd::prelude::*;

verus! {

/// The bytes that one cell of each descriptor of `reg` takes, all together.
pub open spec fn registry_bytes(reg: Seq<Resource>) -> int
    decreases reg.len(),
{
    if reg.len() == 0 {
        0
    } else {
        registry_bytes(reg.drop_last()) + block_size(reg.last().layout())
    }
}

/// Whether a cell of each descriptor of `reg` has a block.
pub open spec fn registry_fits(reg: Seq<Resource>) -> bool {
    forall|i: int| 0 <= i < reg.len() ==> block_fits((#[trigger] reg[i]).layout())
}

/// Whether a namespace over `reg` can be made in `heap`: the array of slots
/// has a layout, every cell has a block, and the heap has room for all of them.
pub open spec fn can_create(reg: Seq<Resource>, heap: &ResHeap) -> bool {
    &&& valid_layout((reg.len() * size_of::<ResArc>()) as int, align_of::<ResArc>() as int)
    &&& registry_fits(reg)
    &&& heap.has_room(registry_bytes(reg))
}

/// A cell as it is made: one handle, and the default instance of `res`.
pub open spec fn default_cell(res: Resource) -> CellState {
    CellState { res, strong: 1, body: res.init()@ }
}

/// Whether `after` is `before` with one new cell for each descriptor of `reg`,
/// the cell of `reg[i]` at the address `addrs[i]`: the new cells lie at
/// addresses that were free, each at its own, and are as they are made; the
/// cells of `before` are untouched.
pub open spec fn created(
    before: Map<usize, CellState>,
    reg: Seq<Resource>,
    addrs: Seq<usize>,
    after: Map<usize, CellState>,
) -> bool {
    &&& addrs.len() == reg.len()
    &&& addrs.no_duplicates()
    &&& forall|i: int| 0 <= i < addrs.len() ==> !before.dom().contains(#[trigger] addrs[i])
    &&& forall|i: int|
        0 <= i < addrs.len() ==> after.dom().contains(#[trigger] addrs[i]) && after[addrs[i]]
            == default_cell(reg[i])
    &&& forall|p: usize|
        #![trigger before.dom().contains(p)]
        #![trigger after[p]]
        before.dom().contains(p) ==> after.dom().contains(p) && after[p] == before[p]
    &&& forall|p: usize| #[trigger]
        after.dom().contains(p) ==> before.dom().contains(p) || addrs.contains(p)
}

/// The cells of `heap` after another handle was taken to each of the cells at
/// `addrs`, which are live and lie at different addresses.
pub open spec fn retained_each(heap: Map<usize, CellState>, addrs: Seq<usize>) -> Map<
    usize,
    CellState,
> {
    Map::new(
        |p: usize| heap.dom().contains(p),
        |p: usize|
            if addrs.contains(p) {
                heap[p].with_strong(heap[p].strong + 1)
            } else {
                heap[p]
            },
    )
}

/// The cells of `heap` after one handle was given up to each of the cells at
/// `addrs`, which are live and lie at different addresses: a cell that had one
/// handle is gone, another one counts one less.
pub open spec fn released_each(heap: Map<usize, CellState>, addrs: Seq<usize>) -> Map<
    usize,
    CellState,
> {
    Map::new(
        |p: usize| heap.dom().contains(p) && !(addrs.contains(p) && is_last(heap, p)),
        |p: usize|
            if addrs.contains(p) {
                heap[p].with_strong((heap[p].strong - 1) as nat)
            } else {
                heap[p]
            },
    )
}

/// The instance that leaves `heap` when a handle to the cell at `p` is given
/// up: that of the cell, if this is its last handle.
pub open spec fn destroyed(heap: Map<usize, CellState>, p: usize) -> Option<Seq<u8>> {
    if is_last(heap, p) {
        Some(heap[p].body)
    } else {
        None
    }
}

/// The bytes that come free when one handle is given up to each of the cells
/// at `addrs`: those of the blocks of the cells that had one handle.
pub open spec fn freed_bytes(heap: Map<usize, CellState>, addrs: Seq<usize>) -> int
    decreases addrs.len(),
{
    if addrs.len() == 0 {
        0
    } else {
        freed_bytes(heap, addrs.drop_last()) + if is_last(heap, addrs.last()) {
            block_size(heap[addrs.last()].res.layout())
        } else {
            0
        }
    }
}

/// The view of an instance that was taken out of the heap, if one was.
pub open spec fn body_view(body: Option<Vec<u8>>) -> Option<Seq<u8>> {
    match body {
        Some(body) => Some(body@),
        None => None,
    }
}

/// Among the first `i + 1` of `addrs` are the first `i` of them and
/// `addrs[i]`, and no other.
proof fn lemma_take_contains(addrs: Seq<usize>, i: int)
    requires
        0 <= i < addrs.len(),
    ensures
        forall|p: usize|
            addrs.take(i + 1).contains(p) <==> addrs.take(i).contains(p) || p == addrs[i],
{
    assert(addrs.take(i + 1)[i] == addrs[i]);
}

proof fn lemma_released_each_step(heap: Map<usize, CellState>, addrs: Seq<usize>, i: int)
    requires
        0 <= i < addrs.len(),
        addrs.no_duplicates(),
        heap.dom().contains(addrs[i]),
    ensures
        released_each(heap, addrs.take(i)).dom().contains(addrs[i]),
        released_each(heap, addrs.take(i))[addrs[i]] == heap[addrs[i]],
        released(released_each(heap, addrs.take(i)), addrs[i]) == released_each(
            heap,
            addrs.take(i + 1),
        ),
        freed_bytes(heap, addrs.take(i + 1)) == freed_bytes(heap, addrs.take(i)) + if is_last(
            heap,
            addrs[i],
        ) {
            block_size(heap[addrs[i]].res.layout())
        } else {
            0
        },
{
    lemma_take_contains(addrs, i);
    assert(addrs.take(i + 1).drop_last() =~= addrs.take(i));
}

proof fn lemma_retained_each_step(heap: Map<usize, CellState>, addrs: Seq<usize>, i: int)
    requires
        0 <= i < addrs.len(),
        addrs.no_duplicates(),
        heap.dom().contains(addrs[i]),
    ensures
        retained_each(heap, addrs.take(i)).dom().contains(addrs[i]),
        retained_each(heap, addrs.take(i))[addrs[i]] == heap[addrs[i]],
        retained(retained_each(heap, addrs.take(i)), addrs[i]) == retained_each(
            heap,
            addrs.take(i + 1),
        ),
{
    lemma_take_contains(addrs, i);
}

/// A namespace that is made and given up at once leaves the heap as it was:
/// each of its cells is destroyed, with the default instance of its
/// descriptor still in it, and the bytes that the cells took come free again.
pub proof fn lemma_create_then_drop(
    before: Map<usize, CellState>,
    reg: Seq<Resource>,
    addrs: Seq<usize>,
    after: Map<usize, CellState>,
)
    requires
        created(before, reg, addrs, after),
    ensures
        addrs.len() == reg.len(),
        forall|i: int|
            0 <= i < addrs.len() ==> destroyed(after, #[trigger] addrs[i]) == Some(
                reg[i].init()@,
            ),
        released_each(after, addrs) == before,
        freed_bytes(after, addrs) == registry_bytes(reg),
{
    lemma_created_bytes(before, reg, addrs, after, addrs.len() as int);
    assert(addrs.take(addrs.len() as int) =~= addrs);
    assert(reg.take(reg.len() as int) =~= reg);
}

proof fn lemma_created_bytes(
    before: Map<usize, CellState>,
    reg: Seq<Resource>,
    addrs: Seq<usize>,
    after: Map<usize, CellState>,
    k: int,
)
    requires
        created(before, reg, addrs, after),
        0 <= k <= addrs.len(),
    ensures
        freed_bytes(after, addrs.take(k)) == registry_bytes(reg.take(k)),
    decreases k,
{
    if k > 0 {
        lemma_created_bytes(before, reg, addrs, after, k - 1);
        assert(addrs.take(k).drop_last() =~= addrs.take(k - 1));
        assert(reg.take(k).drop_last() =~= reg.take(k - 1));
    }
}

/// A namespace that shares the cells of another and is given up again leaves
/// the heap as it was: every count is back, and nothing is destroyed.
pub proof fn lemma_share_then_drop(heap: Map<usize, CellState>, addrs: Seq<usize>)
    requires
        forall|i: int| 0 <= i < addrs.len() ==> heap.dom().contains(#[trigger] addrs[i]),
        forall|i: int| 0 <= i < addrs.len() ==> heap[#[trigger] addrs[i]].strong >= 1,
    ensures
        forall|i: int|
            0 <= i < addrs.len() ==> destroyed(retained_each(heap, addrs), #[trigger] addrs[i])
                is None,
        released_each(retained_each(heap, addrs), addrs) == heap,
{
}

/// A namespace keeps what it shares when a slot of another namespace is given
/// a cell of its own. Let the namespace `sibling` hold a handle to the cell at
/// `sibling[slot]`, and let the other namespace hold a second handle to it.
/// The other one makes the cell `fresh` at a free address, writes `body` over
/// its instance, and puts it into its slot, giving up its handle to the shared
/// cell. Then every cell of `sibling` is live and holds the instance it held,
/// and the new instance is in the new cell alone.
pub proof fn lemma_replace_spares_sibling(
    heap: Map<usize, CellState>,
    sibling: Seq<usize>,
    slot: int,
    fresh: usize,
    cell: CellState,
    body: Seq<u8>,
)
    requires
        0 <= slot < sibling.len(),
        forall|i: int| 0 <= i < sibling.len() ==> heap.dom().contains(#[trigger] sibling[i]),
        heap[sibling[slot]].strong >= 2,
        !heap.dom().contains(fresh),
    ensures
        ({
            let made = heap.insert(fresh, cell);
            let written = made.insert(fresh, made[fresh].with_body(body));
            let after = released(written, sibling[slot]);
            &&& destroyed(written, sibling[slot]) is None
            &&& after[fresh].body == body
            &&& forall|i: int|
                0 <= i < sibling.len() ==> after.dom().contains(#[trigger] sibling[i])
                    && after[sibling[i]].body == heap[sibling[i]].body && after[sibling[i]].res
                    == heap[sibling[i]].res
            &&& after[sibling[slot]].strong == heap[sibling[slot]].strong - 1
        }),
{
}

proof fn lemma_created_step(
    before: Map<usize, CellState>,
    reg: Seq<Resource>,
    addrs: Seq<usize>,
    mid: Map<usize, CellState>,
    res: Resource,
    p: usize,
)
    requires
        created(before, reg, addrs, mid),
        !mid.dom().contains(p),
    ensures
        created(before, reg.push(res), addrs.push(p), mid.insert(p, default_cell(res))),
{
    let after = mid.insert(p, default_cell(res));
    let addrs2 = addrs.push(p);
    assert forall|q: usize| #[trigger] after.dom().contains(q) implies before.dom().contains(q)
        || addrs2.contains(q) by {
        if q == p {
            assert(addrs2[addrs.len() as int] == q);
        } else if !before.dom().contains(q) {
            let j = choose|j: int| 0 <= j < addrs.len() && addrs[j] == q;
            assert(addrs2[j] == q);
        }
    }
}

proof fn lemma_registry_bytes_step(reg: Seq<Resource>, i: int)
    requires
        0 <= i < reg.len(),
    ensures
        registry_bytes(reg.take(i + 1)) == registry_bytes(reg.take(i)) + block_size(
            reg[i].layout(),
        ),
{
    assert(reg.take(i + 1).drop_last() =~= reg.take(i));
}

proof fn lemma_registry_bytes_grow(reg: Seq<Resource>, i: int)
    requires
        0 <= i <= reg.len(),
        forall|j: int| 0 <= j < reg.len() ==> (#[trigger] reg[j]).wf(),
    ensures
        0 <= registry_bytes(reg.take(i)) <= registry_bytes(reg),
    decreases reg.len() - i,
{
    if i < reg.len() {
        lemma_registry_bytes_grow(reg, i + 1);
        lemma_registry_bytes_step(reg, i);
        lemma_block_layout(reg[i].layout());
    } else {
        assert(reg.take(i) =~= reg);
    }
    if i > 0 {
        lemma_registry_bytes_nonnegative(reg.take(i));
    }
}

proof fn lemma_registry_bytes_nonnegative(reg: Seq<Resource>)
    requires
        forall|j: int| 0 <= j < reg.len() ==> (#[trigger] reg[j]).wf(),
    ensures
        0 <= registry_bytes(reg),
    decreases reg.len(),
{
    if reg.len() > 0 {
        lemma_registry_bytes_nonnegative(reg.drop_last());
        lemma_block_layout(reg.last().layout());
    }
}

/// The bytes that one cell of each descriptor of `registry` takes, if every
/// cell has a block and the sum is a `usize`.
fn required_bytes(registry: &Registry) -> (r: Option<usize>)
    requires
        registry.wf(),
    ensures
        r is Some <==> registry_fits(registry@) && registry_bytes(registry@) <= usize::MAX,
        r matches Some(bytes) ==> bytes == registry_bytes(registry@),
{
    let n: usize = registry.len();
    let mut total: usize = 0;
    let mut i: usize = 0;
    while i < n
        invariant
            registry.wf(),
            n == registry@.len(),
            i <= n,
            total == registry_bytes(registry@.take(i as int)),
            forall|j: int| 0 <= j < i ==> block_fits((#[trigger] registry@[j]).layout()),
        decreases n - i,
    {
        proof {
            lemma_registry_bytes_step(registry@, i as int);
            lemma_registry_bytes_grow(registry@, i + 1);
        }
        let size: usize = match layout(registry.get(i).layout()) {
            Some((block, _)) => block.size(),
            None => {
                return None;
            },
        };
        total = match total.checked_add(size) {
            Some(total) => total,
            None => {
                return None;
            },
        };
        i = i + 1;
    }
    proof {
        assert(registry@.take(n as int) =~= registry@);
    }
    Some(total)
}

/// A namespace is a collection of resources: one cell for each descriptor of
/// the registry it was made from, at the descriptor's index.
pub struct Namespace {
    cells: Vec<ResArc>,
}

/// The addresses of `cells`, in their order.
spec fn addrs_of(cells: Seq<ResArc>) -> Seq<usize> {
    Seq::new(cells.len(), |i: int| cells[i].addr())
}

impl View for Namespace {
    type V = Seq<usize>;

    /// The addresses of the cells, by slot.
    closed spec fn view(&self) -> Seq<usize> {
        addrs_of(self.cells@)
    }
}

impl Namespace {
    /// Every slot holds a live cell of the resource with the slot's index.
    pub open spec fn wf(&self, heap: &ResHeap) -> bool {
        forall|i: int|
            0 <= i < self@.len() ==> heap@.dom().contains(#[trigger] self@[i])
                && heap@[self@[i]].res.index() == i
    }

    pub open spec fn spec_len(&self) -> usize {
        self@.len() as usize
    }

    /// The layout of the array of `len` slots, or `None` if that is no layout.
    pub fn layout(len: usize) -> (r: Option<Layout>)
        ensures
            r is Some <==> valid_layout(len * size_of::<ResArc>(), align_of::<ResArc>() as int),
            r matches Some(l) ==> l.size() == len * size_of::<ResArc>() && l.align()
                == align_of::<ResArc>(),
    {
        Layout::array::<ResArc>(len)
    }

    /// A namespace over the descriptors of `registry`, with a new cell for
    /// each of them in `heap`, holding the descriptor's default instance.
    ///
    /// Fails, and leaves the heap as it was, unless the heap can take all the
    /// cells.
    pub fn new(registry: &'static Registry, heap: &mut ResHeap) -> (r: Result<Namespace, NsError>)
        requires
            registry.wf(),
            registry.is_frozen(),
            old(heap).wf(),
        ensures
            final(heap).wf(),
            final(heap).limit() == old(heap).limit(),
            match r {
                Ok(ns) => {
                    &&& can_create(registry@, old(heap))
                    &&& created(old(heap)@, registry@, ns@, final(heap)@)
                    &&& ns.wf(final(heap))
                    &&& final(heap).used() == old(heap).used() + registry_bytes(registry@)
                },
                Err(e) => {
                    &&& e == NsError::AllocationFailure
                    &&& !can_create(registry@, old(heap))
                    &&& *final(heap) == *old(heap)
                },
            },
    {
        let n: usize = registry.len();
        if Self::layout(n).is_none() {
            return Err(NsError::AllocationFailure);
        }
        let bytes: usize = match required_bytes(registry) {
            Some(bytes) => bytes,
            None => {
                return Err(NsError::AllocationFailure);
            },
        };
        if bytes > heap.limit() - heap.used() {
            return Err(NsError::AllocationFailure);
        }
        let mut cells: Vec<ResArc> = Vec::new();
        let mut i: usize = 0;
        while i < n
            invariant
                registry.wf(),
                n == registry@.len(),
                i <= n,
                heap.wf(),
                heap.limit() == old(heap).limit(),
                registry_fits(registry@),
                old(heap).has_room(registry_bytes(registry@)),
                heap.used() == old(heap).used() + registry_bytes(registry@.take(i as int)),
                cells@.len() == i,
                created(old(heap)@, registry@.take(i as int), addrs_of(cells@), heap@),
            decreases n - i,
        {
            proof {
                lemma_registry_bytes_step(registry@, i as int);
                lemma_registry_bytes_grow(registry@, i + 1);
            }
            let ghost mid = heap@;
            let cell: ResArc = match ResArc::new_in(registry.get(i), heap) {
                Ok(cell) => cell,
                Err(_) => unreached(),
            };
            proof {
                lemma_created_step(
                    old(heap)@,
                    registry@.take(i as int),
                    addrs_of(cells@),
                    mid,
                    registry@[i as int],
                    cell.addr(),
                );
                assert(addrs_of(cells@.push(cell)) =~= addrs_of(cells@).push(cell.addr()));
            }
            cells.push(cell);
            i = i + 1;
        }
        let ns = Namespace { cells };
        proof {
            assert(registry@.take(n as int) =~= registry@);
        }
        Ok(ns)
    }

    /// Whether every slot holds a live cell of its own resource in `heap`:
    /// whether this namespace belongs to `heap`.
    pub fn belongs_to(&self, heap: &ResHeap) -> (r: bool)
        ensures
            r == self.wf(heap),
    {
        let n: usize = self.cells.len();
        let mut i: usize = 0;
        while i < n
            invariant
                n == self@.len(),
                n == self.cells@.len(),
                i <= n,
                forall|j: int|
                    0 <= j < i ==> heap@.dom().contains(#[trigger] self@[j])
                        && heap@[self@[j]].res.index() == j,
            decreases n - i,
        {
            assert(self.cells@[i as int].addr() == self@[i as int]);
            let cell: &ResArc = &self.cells[i];
            if !cell.is_live(heap) || cell.header(heap).res().index() != i {
                return false;
            }
            i = i + 1;
        }
        true
    }

    /// In a valid namespace no two slots hold the same cell.
    pub proof fn lemma_slots_differ(&self, heap: &ResHeap)
        requires
            self.wf(heap),
        ensures
            self@.no_duplicates(),
    {
    }

    /// A second namespace over the same cells: another handle is taken to the
    /// cell of every slot, so that the two namespaces share every resource
    /// until a slot of one of them is given another cell.
    ///
    /// Fails, and leaves the heap as it was, if one of the cells counts more
    /// than [`MAX_REFCOUNT`] handles already.
    pub fn share(&self, heap: &mut ResHeap) -> (r: Result<Namespace, NsError>)
        requires
            self.wf(old(heap)),
            old(heap).wf(),
        ensures
            final(heap).wf(),
            final(heap).limit() == old(heap).limit(),
            final(heap).used() == old(heap).used(),
            self.wf(final(heap)),
            match r {
                Ok(ns) => {
                    &&& forall|i: int|
                        0 <= i < self@.len() ==> old(heap)@[#[trigger] self@[i]].strong
                            <= MAX_REFCOUNT
                    &&& ns@ == self@
                    &&& ns.wf(final(heap))
                    &&& final(heap)@ == retained_each(old(heap)@, self@)
                },
                Err(e) => {
                    &&& e == NsError::CounterOverflow
                    &&& exists|i: int|
                        0 <= i < self@.len() && old(heap)@[#[trigger] self@[i]].strong
                            > MAX_REFCOUNT
                    &&& *final(heap) == *old(heap)
                },
            },
    {
        let n: usize = self.cells.len();
        let mut i: usize = 0;
        while i < n
            invariant
                n == self@.len(),
                n == self.cells@.len(),
                i <= n,
                self.wf(heap),
                old(heap).wf(),
                *heap == *old(heap),
                forall|j: int| 0 <= j < i ==> heap@[#[trigger] self@[j]].strong <= MAX_REFCOUNT,
            decreases n - i,
        {
            assert(self.cells@[i as int].addr() == self@[i as int]);
            if self.cells[i].header(heap).strong() > MAX_REFCOUNT {
                return Err(NsError::CounterOverflow);
            }
            i = i + 1;
        }
        let mut cells: Vec<ResArc> = Vec::new();
        let mut i: usize = 0;
        while i < n
            invariant
                n == self@.len(),
                n == self.cells@.len(),
                i <= n,
                self.wf(old(heap)),
                old(heap).wf(),
                heap.wf(),
                heap.limit() == old(heap).limit(),
                heap.used() == old(heap).used(),
                forall|j: int|
                    0 <= j < n ==> old(heap)@[#[trigger] self@[j]].strong <= MAX_REFCOUNT,
                heap@ == retained_each(old(heap)@, self@.take(i as int)),
                cells@.len() == i,
                addrs_of(cells@) == self@.take(i as int),
            decreases n - i,
        {
            proof {
                lemma_retained_each_step(old(heap)@, self@, i as int);
            }
            let cell: ResArc = match self.cells[i].clone(heap) {
                Ok(cell) => cell,
                Err(_) => unreached(),
            };
            cells.push(cell);
            i = i + 1;
        }
        let ns = Namespace { cells };
        proof {
            assert(ns@ =~= self@);
        }
        Ok(ns)
    }

    /// Puts `cell` into the slot of the resource that `res` describes, and
    /// gives up the handle that the slot held. A namespace that shares the
    /// former cell keeps it, untouched but for the count. The instance of the
    /// former cell is returned if that was its last handle.
    pub fn replace(&mut self, res: &'static Resource, cell: ResArc, heap: &mut ResHeap) -> (r:
        Option<Vec<u8>>)
        requires
            old(self).wf(old(heap)),
            old(heap).wf(),
            res.index() < old(self)@.len(),
            old(heap)@.dom().contains(cell.addr()),
            old(heap)@[cell.addr()].res.index() == res.index(),
            cell.addr() != old(self)@[res.index() as int],
        ensures
            final(self)@ == old(self)@.update(res.index() as int, cell.addr()),
            final(self).wf(final(heap)),
            final(heap).wf(),
            final(heap).limit() == old(heap).limit(),
            final(heap)@ == released(old(heap)@, old(self)@[res.index() as int]),
            body_view(r) == destroyed(old(heap)@, old(self)@[res.index() as int]),
            final(heap).used() == old(heap).used() - if is_last(
                old(heap)@,
                old(self)@[res.index() as int],
            ) {
                block_size(old(heap)@[old(self)@[res.index() as int]].res.layout())
            } else {
                0
            },
    {
        let mut cell = cell;
        core::mem::swap(self.get_mut(res), &mut cell);
        cell.drop(heap)
    }

    /// Gives up the handle of every slot, in the order of the slots, and then
    /// the namespace itself. Returns, by slot, the instances that left the
    /// heap: those of the cells that no other handle refers to.
    pub fn drop(self, heap: &mut ResHeap) -> (r: Vec<Option<Vec<u8>>>)
        requires
            self.wf(old(heap)),
            old(heap).wf(),
        ensures
            final(heap).wf(),
            final(heap).limit() == old(heap).limit(),
            final(heap)@ == released_each(old(heap)@, self@),
            r@.len() == self@.len(),
            forall|i: int|
                0 <= i < self@.len() ==> body_view(#[trigger] r@[i]) == destroyed(
                    old(heap)@,
                    self@[i],
                ),
            final(heap).used() == old(heap).used() - freed_bytes(old(heap)@, self@),
    {
        let n: usize = self.cells.len();
        let mut out: Vec<Option<Vec<u8>>> = Vec::new();
        let mut i: usize = 0;
        while i < n
            invariant
                n == self@.len(),
                n == self.cells@.len(),
                i <= n,
                self.wf(old(heap)),
                old(heap).wf(),
                heap.wf(),
                heap.limit() == old(heap).limit(),
                heap@ == released_each(old(heap)@, self@.take(i as int)),
                heap.used() == old(heap).used() - freed_bytes(old(heap)@, self@.take(i as int)),
                out@.len() == i,
                forall|j: int|
                    0 <= j < i ==> body_view(#[trigger] out@[j]) == destroyed(
                        old(heap)@,
                        self@[j],
                    ),
            decreases n - i,
        {
            proof {
                lemma_released_each_step(old(heap)@, self@, i as int);
            }
            let body: Option<Vec<u8>> = self.cells[i].release(heap);
            out.push(body);
            i = i + 1;
        }
        proof {
            assert(self@.take(n as int) =~= self@);
        }
        out
    }

    /// The number of slots.
    #[verifier::when_used_as_spec(spec_len)]
    pub fn len(&self) -> (r: usize)
        ensures
            r == self@.len(),
    {
        self.cells.len()
    }

    /// The cell in the slot of the resource that `res` describes.
    pub fn get(&self, res: &'static Resource) -> (r: &ResArc)
        requires
            res.index() < self@.len(),
        ensures
            r.addr() == self@[res.index() as int],
    {
        let index: usize = res.index();
        &self.cells[index]
    }

    /// The slot of the resource that `res` describes, to be given another
    /// cell. No other slot changes.
    pub fn get_mut(&mut self, res: &'static Resource) -> (r: &mut ResArc)
        requires
            res.index() < old(self)@.len(),
        ensures
            r.addr() == old(self)@[res.index() as int],
            final(self)@ == old(self)@.update(res.index() as int, final(r).addr()),
    {
        let index: usize = res.index();
        &mut self.cells[index]
    }
}

} // verus!
