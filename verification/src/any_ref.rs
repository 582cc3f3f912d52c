//! Type-erased, reference-counted cells with strong and weak handles.
//!
//! A cell ([`AnyRefInner`]) owns one payload behind a runtime type tag, an
//! embedded [`Mutex`] arbitrating mutable access, and two counters: `strong`
//! keeps the payload alive, `weak` keeps the cell's storage alive and always
//! carries one implicit unit standing for "at least one strong reference
//! exists".  When `strong` drains to zero the payload is destroyed and the
//! implicit weak unit is returned; when `weak` drains to zero the cell's
//! storage is freed.
//!
//! Cells live in an [`Arena`], the model of the heap: a cell's address is its
//! index, never reused, and a freed cell is a slot whose `weak` counter shows
//! zero.  [`AnyRef`] and [`WeakAnyRef`] are handles carrying such an index;
//! every operation takes the arena, so the counters are genuinely shared
//! between all handles to one cell.  A weak handle can also be made dangling
//! — carrying the well-known address [`DANGLING`] that no allocation ever
//! has — and is then recognized without an extra discriminant field.
//!
//! Downcasting compares the cell's type tag with the caller's: a read access
//! hands back a typed borrow, a mutable access takes the embedded lock
//! exclusively and hands back a scoped [`WatchGuard`] whose release frees the
//! lock.

use vstd::prelude::*;

use crate::mutex::LockView;
use crate::mutex::Mutex;
use crate::mutex::exclusive_acquirable;
use crate::mutex::unlocked_lock_view;

verus! {

/// The largest reference count either counter may reach; one more would
/// abort the process rather than risk a silent wraparound.
pub const MAX_REFCOUNT: usize = usize::MAX / 2;

/// The well-known non-dereferenceable address carried by a dangling weak
/// handle.  No arena slot ever has this index.
pub const DANGLING: usize = usize::MAX;

/// The abstract state of one cell.
pub ghost struct CellView<T> {
    /// The payload; `None` once destroyed.
    pub data: Option<T>,
    /// The runtime tag of the payload's type, set at construction and
    /// changed only by [`AnyRef::fill`].
    pub type_id: u64,
    /// A human-readable name of the payload's type, for diagnostics.
    pub type_label: Seq<char>,
    /// The embedded lock arbitrating mutable access.
    pub lock: LockView,
    /// How many strong handles point at the cell.
    pub strong: int,
    /// How many weak handles point at the cell, plus one implicit unit while
    /// any strong handle exists.  Zero means the cell's storage is freed.
    pub weak: int,
}

/// One cell: a type-erased payload with its tag, lock and counters.
pub struct AnyRefInner<T> {
    data: Option<T>,
    type_id: u64,
    type_label: String,
    lock: Mutex,
    strong: usize,
    weak: usize,
}

impl<T> View for AnyRefInner<T> {
    type V = CellView<T>;

    closed spec fn view(&self) -> CellView<T> {
        CellView {
            data: self.data,
            type_id: self.type_id,
            type_label: self.type_label@,
            lock: self.lock@,
            strong: self.strong as int,
            weak: self.weak as int,
        }
    }
}

impl<T> AnyRefInner<T> {
    /// The cell's own invariant: the lock is well formed, the payload is
    /// present exactly while strong handles exist, a freed cell holds no
    /// payload, and while the payload lives the implicit weak unit does too.
    pub closed spec fn inv(&self) -> bool {
        &&& self.lock.wf()
        &&& (self.data is Some <==> self.strong > 0)
        &&& self.strong > 0 ==> self.weak >= 1
    }

    /// Constructs a cell around a concrete value, with one strong reference
    /// and the implicit weak unit.
    pub fn new(value: T, type_id: u64, type_label: &str) -> (c: AnyRefInner<T>)
        ensures
            c.inv(),
            c@ == (CellView {
                data: Some(value),
                type_id,
                type_label: type_label@,
                lock: unlocked_lock_view(),
                strong: 1int,
                weak: 1int,
            }),
    {
        Self::from_box(Box::new(value), type_id, type_label)
    }

    /// Constructs a cell around an already boxed value.
    pub fn from_box(src: Box<T>, type_id: u64, type_label: &str) -> (c: AnyRefInner<T>)
        ensures
            c.inv(),
            c@ == (CellView {
                data: Some(*src),
                type_id,
                type_label: type_label@,
                lock: unlocked_lock_view(),
                strong: 1int,
                weak: 1int,
            }),
    {
        AnyRefInner {
            data: Some(*src),
            type_id,
            type_label: type_label.to_owned(),
            lock: Mutex::new(),
            strong: 1,
            weak: 1,
        }
    }
}

/// The views of a sequence of cells.
pub open spec fn slots_view<T>(s: Seq<AnyRefInner<T>>) -> Seq<CellView<T>> {
    s.map_values(|c: AnyRefInner<T>| c@)
}

/// Updating one cell updates one view.
proof fn lemma_slots_update<T>(s: Seq<AnyRefInner<T>>, i: int, c: AnyRefInner<T>)
    requires
        0 <= i < s.len(),
    ensures
        slots_view(s.update(i, c)) =~= slots_view(s).update(i, c@),
{
}

/// Appending a cell appends its view.
proof fn lemma_slots_push<T>(s: Seq<AnyRefInner<T>>, c: AnyRefInner<T>)
    ensures
        slots_view(s.push(c)) =~= slots_view(s).push(c@),
{
}

/// A sequence of cells that all hold their invariant still does after one
/// cell is replaced by one that holds it.
proof fn lemma_cells_wf_update<T>(pre: Seq<AnyRefInner<T>>, post: Seq<AnyRefInner<T>>, i: int)
    requires
        0 <= i < pre.len(),
        post == pre.update(i, post[i]),
        forall|j: int| 0 <= j < pre.len() ==> (#[trigger] pre[j]).inv(),
        post[i].inv(),
    ensures
        forall|j: int| 0 <= j < post.len() ==> (#[trigger] post[j]).inv(),
{
    assert forall|j: int| 0 <= j < post.len() implies (#[trigger] post[j]).inv() by {
        if j != i {
            assert(post[j] == pre[j]);
        }
    }
}

/// The heap of cells.  A cell's address is its index; addresses are never
/// reused, and a freed cell is a slot whose `weak` counter shows zero.
pub struct Arena<T> {
    cells: Vec<AnyRefInner<T>>,
}

impl<T> View for Arena<T> {
    type V = Seq<CellView<T>>;

    closed spec fn view(&self) -> Seq<CellView<T>> {
        slots_view(self.cells@)
    }
}

impl<T> Arena<T> {
    /// The slot at `i` is an allocation that has not been freed.
    pub open spec fn allocated(&self, i: int) -> bool {
        0 <= i < self@.len() && self@[i].weak >= 1
    }

    /// The cell at `i` is alive: allocated, with its payload intact.
    pub open spec fn live(&self, i: int) -> bool {
        self.allocated(i) && self@[i].strong >= 1
    }

    /// Every cell of the arena satisfies its invariant.
    pub closed spec fn wf(&self) -> bool {
        forall|i: int|
            0 <= i < self.cells@.len() ==> #[trigger] self.cells@[i].inv()
    }

    /// Creates an empty heap.
    pub fn new() -> (a: Arena<T>)
        ensures
            a.wf(),
            a@ == Seq::<CellView<T>>::empty(),
    {
        let a = Arena { cells: Vec::new() };
        proof {
            assert(a@ =~= Seq::<CellView<T>>::empty());
        }
        a
    }

}

/// A strong handle: keeps the payload of its cell alive.
pub struct AnyRef {
    idx: usize,
}

/// A weak handle: keeps the storage of its cell alive, or dangles.
pub struct WeakAnyRef {
    idx: usize,
}

impl AnyRef {
    /// The address of the handle's cell.
    pub closed spec fn index(&self) -> int {
        self.idx as int
    }

    /// Creates a new cell around `value`, tagged `type_id` and named
    /// `type_label`, and returns the first strong handle to it.
    pub fn new<T>(arena: &mut Arena<T>, value: T, type_id: u64, type_label: &str) -> (h: AnyRef)
        requires
            old(arena).wf(),
            old(arena)@.len() < DANGLING,
        ensures
            final(arena).wf(),
            h.index() == old(arena)@.len(),
            final(arena)@ == old(arena)@.push(
                CellView {
                    data: Some(value),
                    type_id,
                    type_label: type_label@,
                    lock: unlocked_lock_view(),
                    strong: 1int,
                    weak: 1int,
                },
            ),
            final(arena).live(h.index()),
    {
        Self::from_box(arena, Box::new(value), type_id, type_label)
    }

    /// Creates a new cell around an already boxed value.
    pub fn from_box<T>(arena: &mut Arena<T>, src: Box<T>, type_id: u64, type_label: &str) -> (h:
        AnyRef)
        requires
            old(arena).wf(),
            old(arena)@.len() < DANGLING,
        ensures
            final(arena).wf(),
            h.index() == old(arena)@.len(),
            final(arena)@ == old(arena)@.push(
                CellView {
                    data: Some(*src),
                    type_id,
                    type_label: type_label@,
                    lock: unlocked_lock_view(),
                    strong: 1int,
                    weak: 1int,
                },
            ),
            final(arena).live(h.index()),
    {
        let idx = arena.cells.len();
        let cell = AnyRefInner::from_box(src, type_id, type_label);
        proof {
            lemma_slots_push(arena.cells@, cell);
        }
        arena.cells.push(cell);
        AnyRef { idx }
    }

    /// Clones the handle: another strong handle to the same cell, with the
    /// strong count one higher.  A count at the representable maximum would
    /// abort the process instead.
    pub fn clone_ref<T>(&self, arena: &mut Arena<T>) -> (h: AnyRef)
        requires
            old(arena).wf(),
            old(arena).live(self.index()),
            old(arena)@[self.index()].strong < MAX_REFCOUNT,
        ensures
            final(arena).wf(),
            h.index() == self.index(),
            final(arena)@ == old(arena)@.update(
                self.index(),
                clone_step(old(arena)@[self.index()]),
            ),
    {
        let i = self.idx;
        let ghost pre = arena.cells@;
        let cell = &mut arena.cells[i];
        cell.strong = cell.strong + 1;
        proof {
            assert(arena.cells@ =~= pre.update(i as int, arena.cells@[i as int]));
            assert((i as int) < pre.len());
            assert(pre[i as int].inv());
            assert(arena.cells@[i as int].inv());
            lemma_cells_wf_update(pre, arena.cells@, i as int);
            lemma_slots_update(pre, i as int, arena.cells@[i as int]);
        }
        AnyRef { idx: i }
    }

    /// Drops the handle.  A strong count above one only goes down by one;
    /// the last strong drop destroys the payload and returns the implicit
    /// weak unit, freeing the cell when no weak handle remains either.
    pub fn drop_ref<T>(self, arena: &mut Arena<T>)
        requires
            old(arena).wf(),
            old(arena).live(self.index()),
        ensures
            final(arena).wf(),
            final(arena)@ == old(arena)@.update(
                self.index(),
                drop_step(old(arena)@[self.index()]),
            ),
    {
        let i = self.idx;
        let ghost pre = arena.cells@;
        let cell = &mut arena.cells[i];
        if cell.strong != 1 {
            cell.strong = cell.strong - 1;
        } else {
            cell.strong = 0;
            // destroy the payload in place, then return the implicit weak
            // unit, which frees the cell once no weak handle remains
            cell.data = None;
            cell.weak = cell.weak - 1;
        }
        proof {
            assert(arena.cells@ =~= pre.update(i as int, arena.cells@[i as int]));
            assert((i as int) < pre.len());
            assert(pre[i as int].inv());
            assert(arena.cells@[i as int].inv());
            lemma_cells_wf_update(pre, arena.cells@, i as int);
            lemma_slots_update(pre, i as int, arena.cells@[i as int]);
        }
    }

    /// How many strong handles the cell has.
    pub fn strong_count<T>(&self, arena: &Arena<T>) -> (n: usize)
        requires
            arena.wf(),
            arena.allocated(self.index()),
        ensures
            n == arena@[self.index()].strong,
    {
        arena.cells[self.idx].strong
    }

    /// How many weak handles the cell has, the implicit unit excluded.
    pub fn weak_count<T>(&self, arena: &Arena<T>) -> (n: usize)
        requires
            arena.wf(),
            arena.live(self.index()),
        ensures
            n == arena@[self.index()].weak - 1,
    {
        arena.cells[self.idx].weak - 1
    }

    /// Returns `true` when this is the only handle to the cell: one strong
    /// reference and no weak reference besides the implicit unit.  The weak
    /// counter doubles as the guard that keeps a concurrent upgrade from
    /// racing this check.
    pub fn is_unique<T>(this: &AnyRef, arena: &Arena<T>) -> (r: bool)
        requires
            arena.wf(),
            arena.live(this.index()),
        ensures
            r == (arena@[this.index()].weak == 1 && arena@[this.index()].strong == 1),
    {
        let cell = &arena.cells[this.idx];
        if cell.weak == 1 {
            cell.strong == 1
        } else {
            false
        }
    }

    /// Returns `true` when both handles point at the same cell.
    pub fn ptr_eq(this: &AnyRef, other: &AnyRef) -> (r: bool)
        ensures
            r == (this.index() == other.index()),
    {
        this.idx == other.idx
    }

    /// The human-readable name of the payload's type.
    pub fn type_label<'a, T>(&self, arena: &'a Arena<T>) -> (s: &'a str)
        requires
            arena.wf(),
            arena.allocated(self.index()),
        ensures
            s@ == arena@[self.index()].type_label,
    {
        arena.cells[self.idx].type_label.as_str()
    }

    /// The runtime tag of the payload's type.
    pub fn type_id<T>(&self, arena: &Arena<T>) -> (t: u64)
        requires
            arena.wf(),
            arena.allocated(self.index()),
        ensures
            t == arena@[self.index()].type_id,
    {
        arena.cells[self.idx].type_id
    }

    /// Returns `true` when the cell's embedded lock is held in either mode.
    pub fn is_locked<T>(&self, arena: &Arena<T>) -> (r: bool)
        requires
            arena.wf(),
            arena.allocated(self.index()),
        ensures
            r == crate::mutex::locked_any(arena@[self.index()].lock),
    {
        arena.cells[self.idx].lock.is_locked()
    }

    /// Converts the handle into a weak one: the weak count goes up by one
    /// and the strong count is untouched.  A weak count at the representable
    /// maximum would abort the process instead.
    pub fn downgrade<T>(&self, arena: &mut Arena<T>) -> (w: WeakAnyRef)
        requires
            old(arena).wf(),
            old(arena).live(self.index()),
            old(arena)@[self.index()].weak < MAX_REFCOUNT,
        ensures
            final(arena).wf(),
            w.index() == self.index(),
            !w.is_dangling(),
            final(arena)@ == old(arena)@.update(
                self.index(),
                downgrade_step(old(arena)@[self.index()]),
            ),
    {
        let i = self.idx;
        let ghost pre = arena.cells@;
        let cell = &mut arena.cells[i];
        cell.weak = cell.weak + 1;
        proof {
            vstd::std_specs::vec::axiom_spec_len(&arena.cells);
            assert(arena.cells@ =~= pre.update(i as int, arena.cells@[i as int]));
            assert((i as int) < pre.len());
            assert(pre[i as int].inv());
            assert(arena.cells@[i as int].inv());
            lemma_cells_wf_update(pre, arena.cells@, i as int);
            lemma_slots_update(pre, i as int, arena.cells@[i as int]);
        }
        WeakAnyRef { idx: i }
    }

    /// Returns a typed borrow of the payload when the cell's type tag
    /// matches `type_id`, and `None` otherwise.
    pub fn try_downcast_ref<'a, T>(&self, arena: &'a Arena<T>, type_id: u64) -> (r: Option<&'a T>)
        requires
            arena.wf(),
            arena.live(self.index()),
        ensures
            arena@[self.index()].type_id == type_id ==> (r matches Some(v) && *v == arena@[self.index()].data->0),
            arena@[self.index()].type_id != type_id ==> r is None,
    {
        proof {
            assert(arena.cells@[self.index()].inv());
        }
        let cell = &arena.cells[self.idx];
        if cell.type_id == type_id {
            match &cell.data {
                Some(v) => Some(v),
                None => None,
            }
        } else {
            None
        }
    }

    /// Returns a typed borrow of the payload.  Asking for the wrong type is
    /// a contract violation and is excluded by the precondition; the runtime
    /// twin of this check fails loudly instead.
    pub fn downcast_ref<'a, T>(&self, arena: &'a Arena<T>, type_id: u64) -> (r: &'a T)
        requires
            arena.wf(),
            arena.live(self.index()),
            arena@[self.index()].type_id == type_id,
        ensures
            *r == arena@[self.index()].data->0,
    {
        let r = self.try_downcast_ref(arena, type_id);
        match r {
            Some(v) => v,
            None => vstd::pervasive::unreached(),
        }
    }

    /// On a matching type tag, takes the cell's embedded lock exclusively
    /// and returns a scoped [`WatchGuard`] for reading and writing the
    /// payload; on a mismatch returns `None` without touching the lock.
    pub fn try_downcast_mut<T>(&self, arena: &mut Arena<T>, type_id: u64) -> (r: Option<
        WatchGuard,
    >)
        requires
            old(arena).wf(),
            old(arena).live(self.index()),
            old(arena)@[self.index()].type_id == type_id ==> exclusive_acquirable(
                old(arena)@[self.index()].lock,
            ),
        ensures
            final(arena).wf(),
            old(arena)@[self.index()].type_id != type_id ==> r is None && final(arena)@ == old(arena)@,
            old(arena)@[self.index()].type_id == type_id ==> (r matches Some(g) && g.index()
                == self.index() && g.valid(final(arena)) && final(arena)@ == old(arena)@.update(
                self.index(),
                lock_taken_step(old(arena)@[self.index()]),
            )),
    {
        let i = self.idx;
        proof {
            assert(arena.cells@[i as int].inv());
        }
        if arena.cells[i].type_id == type_id {
            let ghost pre = arena.cells@;
            let cell = &mut arena.cells[i];
            cell.lock.lock_exclusive();
            proof {
                assert(arena.cells@ =~= pre.update(i as int, arena.cells@[i as int]));
                assert((i as int) < pre.len());
                assert(pre[i as int].inv());
                assert(arena.cells@[i as int].inv());
                lemma_cells_wf_update(pre, arena.cells@, i as int);
                lemma_slots_update(pre, i as int, arena.cells@[i as int]);
            }
            Some(WatchGuard { idx: i })
        } else {
            None
        }
    }

    /// Takes the cell's embedded lock exclusively and returns a scoped
    /// [`WatchGuard`].  Asking for the wrong type is a contract violation
    /// and is excluded by the precondition; the runtime twin of this check
    /// fails loudly instead.
    pub fn downcast_mut<T>(&self, arena: &mut Arena<T>, type_id: u64) -> (r: WatchGuard)
        requires
            old(arena).wf(),
            old(arena).live(self.index()),
            old(arena)@[self.index()].type_id == type_id,
            exclusive_acquirable(old(arena)@[self.index()].lock),
        ensures
            final(arena).wf(),
            r.index() == self.index(),
            r.valid(final(arena)),
            final(arena)@ == old(arena)@.update(
                self.index(),
                lock_taken_step(old(arena)@[self.index()]),
            ),
    {
        let r = self.try_downcast_mut(arena, type_id);
        match r {
            Some(g) => g,
            None => vstd::pervasive::unreached(),
        }
    }

    /// Extracts the payload when this is the only strong handle, via a
    /// one-to-zero transition of the strong count; otherwise hands the
    /// handle back unchanged.  Success destroys the cell's payload slot and
    /// returns the implicit weak unit.
    pub fn try_unwrap<T>(this: AnyRef, arena: &mut Arena<T>) -> (r: Result<T, AnyRef>)
        requires
            old(arena).wf(),
            old(arena).live(this.index()),
        ensures
            final(arena).wf(),
            old(arena)@[this.index()].strong == 1 ==> (r matches Ok(v) && v == old(arena)@[this.index()].data->0 && final(arena)@ == old(arena)@.update(
                this.index(),
                drop_step(old(arena)@[this.index()]),
            )),
            old(arena)@[this.index()].strong != 1 ==> (r matches Err(h) && h.index()
                == this.index() && final(arena)@ == old(arena)@),
    {
        let i = this.idx;
        proof {
            assert(arena.cells@[i as int].inv());
        }
        if arena.cells[i].strong != 1 {
            return Err(this);
        }
        let ghost pre = arena.cells@;
        let cell = &mut arena.cells[i];
        cell.strong = 0;
        let taken = cell.data.take();
        cell.weak = cell.weak - 1;
        proof {
            assert(arena.cells@ =~= pre.update(i as int, arena.cells@[i as int]));
            assert((i as int) < pre.len());
            assert(pre[i as int].inv());
            assert(arena.cells@[i as int].inv());
            lemma_cells_wf_update(pre, arena.cells@, i as int);
            lemma_slots_update(pre, i as int, arena.cells@[i as int]);
        }
        match taken {
            Some(value) => Ok(value),
            None => vstd::pervasive::unreached(),
        }
    }

    /// Replaces the payload and the type tag in place.  Only permitted for
    /// a caller that provably owns the sole strong reference; this is a
    /// precondition, not a runtime check.
    pub fn fill<T>(this: AnyRef, arena: &mut Arena<T>, value: T, type_id: u64) -> (h: AnyRef)
        requires
            old(arena).wf(),
            old(arena).live(this.index()),
            old(arena)@[this.index()].strong == 1,
        ensures
            final(arena).wf(),
            h.index() == this.index(),
            final(arena)@ == old(arena)@.update(
                this.index(),
                (CellView { data: Some(value), type_id, ..old(arena)@[this.index()] }),
            ),
    {
        let i = this.idx;
        let ghost pre = arena.cells@;
        let cell = &mut arena.cells[i];
        cell.data = Some(value);
        cell.type_id = type_id;
        proof {
            assert(arena.cells@ =~= pre.update(i as int, arena.cells@[i as int]));
            assert((i as int) < pre.len());
            assert(pre[i as int].inv());
            assert(arena.cells@[i as int].inv());
            lemma_cells_wf_update(pre, arena.cells@, i as int);
            lemma_slots_update(pre, i as int, arena.cells@[i as int]);
        }
        this
    }

    /// Creates a new cell holding the default value of the payload type.
    pub fn default_with<T: Default>(arena: &mut Arena<T>, type_id: u64, type_label: &str) -> (h:
        AnyRef)
        requires
            old(arena).wf(),
            old(arena)@.len() < DANGLING,
        ensures
            final(arena).wf(),
            h.index() == old(arena)@.len(),
            final(arena)@.len() == old(arena)@.len() + 1,
            final(arena)@[h.index()].data is Some,
            final(arena)@[h.index()].type_id == type_id,
            final(arena)@[h.index()].type_label == type_label@,
            final(arena)@[h.index()].lock == unlocked_lock_view(),
            final(arena)@[h.index()].strong == 1,
            final(arena)@[h.index()].weak == 1,
            forall|j: int|
                0 <= j < old(arena)@.len() ==> final(arena)@[j] == old(arena)@[j],
            final(arena).live(h.index()),
    {
        let value = T::default();
        AnyRef::new(arena, value, type_id, type_label)
    }

    /// Reads the payload, applies `f` to it, stores the result in a fresh
    /// cell tagged `type_id`, and gives the old handle up: its strong
    /// reference is dropped.
    pub fn map<T, F: FnOnce(&T) -> T>(
        self,
        arena: &mut Arena<T>,
        f: F,
        src_type_id: u64,
        type_id: u64,
        type_label: &str,
    ) -> (h: AnyRef)
        requires
            old(arena).wf(),
            old(arena).live(self.index()),
            old(arena)@[self.index()].type_id == src_type_id,
            old(arena)@.len() < DANGLING,
            f.requires((&old(arena)@[self.index()].data->0,)),
        ensures
            final(arena).wf(),
            h.index() == old(arena)@.len(),
            exists|v: T|
                #[trigger] f.ensures((&old(arena)@[self.index()].data->0,), v) && final(arena)@
                    == old(arena)@.push(
                    CellView {
                        data: Some(v),
                        type_id,
                        type_label: type_label@,
                        lock: unlocked_lock_view(),
                        strong: 1int,
                        weak: 1int,
                    },
                ).update(self.index(), drop_step(old(arena)@[self.index()])),
    {
        let value_ref = self.downcast_ref(arena, src_type_id);
        let new_value = f(value_ref);
        let h = AnyRef::new(arena, new_value, type_id, type_label);
        self.drop_ref(arena);
        h
    }

    /// Reads the payload as its concrete type.  Asking for the wrong type
    /// is a contract violation and is excluded by the precondition; the
    /// runtime twin of this check fails loudly instead.
    pub fn as_ref<'a, T>(&self, arena: &'a Arena<T>, type_id: u64) -> (r: &'a T)
        requires
            arena.wf(),
            arena.live(self.index()),
            arena@[self.index()].type_id == type_id,
        ensures
            *r == arena@[self.index()].data->0,
    {
        self.downcast_ref(arena, type_id)
    }

    /// The raw address of the payload, for a matching type tag.  Asking for
    /// the wrong type is a contract violation and is excluded by the
    /// precondition; the runtime twin of this check fails loudly instead.
    pub fn as_cast_ptr<T>(&self, arena: &Arena<T>, type_id: u64) -> (raw: usize)
        requires
            arena.wf(),
            arena.live(self.index()),
            arena@[self.index()].type_id == type_id,
        ensures
            raw == self.index(),
    {
        self.idx
    }

    /// Converts the handle into the raw address of its cell, without
    /// touching the counters; the address can later be turned back into a
    /// handle by [`AnyRef::from_raw`].
    pub fn into_raw(this: AnyRef) -> (raw: usize)
        ensures
            raw == this.index(),
    {
        this.idx
    }

    /// Reconstructs a handle from a raw address produced by
    /// [`AnyRef::into_raw`], without touching the counters.
    pub fn from_raw(raw: usize) -> (h: AnyRef)
        ensures
            h.index() == raw,
    {
        AnyRef { idx: raw }
    }

    /// Reads a payload through a raw cell address: `None` for the dangling
    /// sentinel or a mismatched type tag, the typed borrow otherwise.  The
    /// address must be dangling or that of a live cell.
    pub fn cast_raw<'a, T>(arena: &'a Arena<T>, raw: usize, type_id: u64) -> (r: Option<&'a T>)
        requires
            arena.wf(),
            raw == DANGLING || arena.live(raw as int),
        ensures
            raw == DANGLING ==> r is None,
            raw != DANGLING && arena@[raw as int].type_id == type_id ==> (r matches Some(v) && *v
                == arena@[raw as int].data->0),
            raw != DANGLING && arena@[raw as int].type_id != type_id ==> r is None,
    {
        if crate::utils::is_dangling(raw) {
            return None;
        }
        proof {
            assert(arena.cells@[raw as int].inv());
        }
        let cell = &arena.cells[raw];
        if cell.type_id == type_id {
            match &cell.data {
                Some(v) => Some(v),
                None => None,
            }
        } else {
            None
        }
    }
}

impl WeakAnyRef {
    /// The address the handle carries: a cell's, or the dangling sentinel.
    pub closed spec fn index(&self) -> int {
        self.idx as int
    }

    /// The handle points at nothing and every upgrade returns `None`.
    pub open spec fn is_dangling(&self) -> bool {
        self.index() == DANGLING
    }

    /// Constructs a dangling weak handle, without allocating: it carries the
    /// well-known sentinel address and upgrading it always returns `None`.
    pub fn new() -> (w: WeakAnyRef)
        ensures
            w.is_dangling(),
    {
        WeakAnyRef { idx: DANGLING }
    }

    /// Attempts to upgrade to a strong handle: succeeds exactly while the
    /// payload is alive, incrementing the strong count; returns `None` on a
    /// dangling handle or once the payload has been destroyed.
    pub fn upgrade<T>(&self, arena: &mut Arena<T>) -> (r: Option<AnyRef>)
        requires
            old(arena).wf(),
            !self.is_dangling() ==> old(arena).allocated(self.index()),
            !self.is_dangling() && upgradable(old(arena)@[self.index()]) ==> old(arena)@[self.index()].strong < MAX_REFCOUNT,
        ensures
            final(arena).wf(),
            self.is_dangling() ==> r is None && final(arena)@ == old(arena)@,
            !self.is_dangling() && !upgradable(old(arena)@[self.index()]) ==> r is None && final(arena)@ == old(arena)@,
            !self.is_dangling() && upgradable(old(arena)@[self.index()]) ==> (r matches Some(h)
                && h.index() == self.index() && final(arena)@ == old(arena)@.update(
                self.index(),
                clone_step(old(arena)@[self.index()]),
            )),
    {
        if crate::utils::is_dangling(self.idx) {
            return None;
        }
        let i = self.idx;
        proof {
            assert(arena.cells@[i as int].inv());
        }
        // the strong count may only be raised while it is not zero: a
        // zero-to-one transition would revive a destroyed payload
        if arena.cells[i].strong == 0 {
            return None;
        }
        let ghost pre = arena.cells@;
        let cell = &mut arena.cells[i];
        cell.strong = cell.strong + 1;
        proof {
            assert(arena.cells@ =~= pre.update(i as int, arena.cells@[i as int]));
            assert((i as int) < pre.len());
            assert(pre[i as int].inv());
            assert(arena.cells@[i as int].inv());
            lemma_cells_wf_update(pre, arena.cells@, i as int);
            lemma_slots_update(pre, i as int, arena.cells@[i as int]);
        }
        Some(AnyRef { idx: i })
    }

    /// Clones the weak handle: the weak count goes up by one; a dangling
    /// handle is copied without touching anything.  A count at the
    /// representable maximum would abort the process instead.
    pub fn clone_weak<T>(&self, arena: &mut Arena<T>) -> (w: WeakAnyRef)
        requires
            old(arena).wf(),
            !self.is_dangling() ==> old(arena).allocated(self.index()) && old(arena)@[self.index()].weak < MAX_REFCOUNT,
        ensures
            final(arena).wf(),
            w.index() == self.index(),
            self.is_dangling() ==> final(arena)@ == old(arena)@,
            !self.is_dangling() ==> final(arena)@ == old(arena)@.update(
                self.index(),
                downgrade_step(old(arena)@[self.index()]),
            ),
    {
        if crate::utils::is_dangling(self.idx) {
            return WeakAnyRef { idx: self.idx };
        }
        let i = self.idx;
        let ghost pre = arena.cells@;
        let cell = &mut arena.cells[i];
        cell.weak = cell.weak + 1;
        proof {
            assert(arena.cells@ =~= pre.update(i as int, arena.cells@[i as int]));
            assert((i as int) < pre.len());
            assert(pre[i as int].inv());
            assert(arena.cells@[i as int].inv());
            lemma_cells_wf_update(pre, arena.cells@, i as int);
            lemma_slots_update(pre, i as int, arena.cells@[i as int]);
        }
        WeakAnyRef { idx: i }
    }

    /// Drops the weak handle: the weak count goes down by one, and a count
    /// that drains to zero frees the cell's storage.  A dangling handle is
    /// discarded without touching anything.
    pub fn drop_weak<T>(self, arena: &mut Arena<T>)
        requires
            old(arena).wf(),
            !self.is_dangling() ==> old(arena).allocated(self.index()),
            // a weak handle is counted beside the implicit unit that stands
            // for the living strong references
            !self.is_dangling() && old(arena)@[self.index()].strong > 0 ==> old(arena)@[self.index()].weak >= 2,
        ensures
            final(arena).wf(),
            self.is_dangling() ==> final(arena)@ == old(arena)@,
            !self.is_dangling() ==> final(arena)@ == old(arena)@.update(
                self.index(),
                drop_weak_step(old(arena)@[self.index()]),
            ),
    {
        if crate::utils::is_dangling(self.idx) {
            return ;
        }
        let i = self.idx;
        let ghost pre = arena.cells@;
        let cell = &mut arena.cells[i];
        cell.weak = cell.weak - 1;
        proof {
            assert(arena.cells@ =~= pre.update(i as int, arena.cells@[i as int]));
            assert((i as int) < pre.len());
            assert(pre[i as int].inv());
            assert(arena.cells@[i as int].inv());
            lemma_cells_wf_update(pre, arena.cells@, i as int);
            lemma_slots_update(pre, i as int, arena.cells@[i as int]);
        }
    }

    /// How many strong handles the cell has; zero for a dangling handle.
    pub fn strong_count<T>(&self, arena: &Arena<T>) -> (n: usize)
        requires
            arena.wf(),
            !self.is_dangling() ==> arena.allocated(self.index()),
        ensures
            self.is_dangling() ==> n == 0,
            !self.is_dangling() ==> n == arena@[self.index()].strong,
    {
        if crate::utils::is_dangling(self.idx) {
            0
        } else {
            arena.cells[self.idx].strong
        }
    }

    /// How many weak units the cell has, the implicit one included; zero
    /// for a dangling handle.
    pub fn weak_count<T>(&self, arena: &Arena<T>) -> (n: usize)
        requires
            arena.wf(),
            !self.is_dangling() ==> arena.allocated(self.index()),
        ensures
            self.is_dangling() ==> n == 0,
            !self.is_dangling() ==> n == arena@[self.index()].weak,
    {
        if crate::utils::is_dangling(self.idx) {
            0
        } else {
            arena.cells[self.idx].weak
        }
    }

    /// Returns a typed borrow of the payload when the handle is not
    /// dangling, the payload is alive, and the cell's type tag matches;
    /// `None` otherwise.
    pub fn try_downcast_ref<'a, T>(&self, arena: &'a Arena<T>, type_id: u64) -> (r: Option<&'a T>)
        requires
            arena.wf(),
            !self.is_dangling() ==> arena.allocated(self.index()),
        ensures
            !self.is_dangling() && arena@[self.index()].strong > 0 && arena@[self.index()].type_id
                == type_id ==> (r matches Some(v) && *v == arena@[self.index()].data->0),
            self.is_dangling() || arena@[self.index()].strong == 0 || arena@[self.index()].type_id
                != type_id ==> r is None,
    {
        if crate::utils::is_dangling(self.idx) {
            return None;
        }
        proof {
            assert(arena.cells@[self.index()].inv());
        }
        let cell = &arena.cells[self.idx];
        if cell.type_id == type_id {
            match &cell.data {
                Some(v) => Some(v),
                None => None,
            }
        } else {
            None
        }
    }

    /// A weak handle grants no mutable access: the answer is always `None`.
    pub fn try_downcast_mut<T>(&self, _arena: &Arena<T>, _type_id: u64) -> (r: Option<WatchGuard>)
        ensures
            r is None,
    {
        None
    }
}

impl Default for WeakAnyRef {
    /// A dangling weak handle, without allocating; upgrading it always
    /// returns `None`.
    fn default() -> (w: WeakAnyRef)
        ensures
            w.is_dangling(),
    {
        WeakAnyRef::new()
    }
}

/// A scoped guard for one cell's payload, produced by a mutable downcast:
/// it stands for exclusive ownership of the cell's embedded lock, and
/// releasing it unlocks the cell exactly once.
pub struct WatchGuard {
    idx: usize,
}

impl WatchGuard {
    /// The address of the guarded cell.
    pub closed spec fn index(&self) -> int {
        self.idx as int
    }

    /// The guard stands for a live cell whose lock it holds exclusively.
    pub open spec fn valid<T>(&self, arena: &Arena<T>) -> bool {
        &&& arena.live(self.index())
        &&& arena@[self.index()].lock.state == crate::mutex::LOCKED
    }

    /// Wraps a cell address in a guard.  The guard is only usable once the
    /// cell's lock is in fact held exclusively.
    pub fn new(idx: usize) -> (g: WatchGuard)
        ensures
            g.index() == idx,
    {
        WatchGuard { idx }
    }

    /// Reads the guarded payload.
    pub fn get<'a, T>(&self, arena: &'a Arena<T>) -> (v: &'a T)
        requires
            arena.wf(),
            self.valid(arena),
        ensures
            *v == arena@[self.index()].data->0,
    {
        proof {
            assert(arena.cells@[self.index()].inv());
        }
        let cell = &arena.cells[self.idx];
        match &cell.data {
            Some(v) => v,
            None => vstd::pervasive::unreached(),
        }
    }

    /// Replaces the guarded payload.
    pub fn set<T>(&self, arena: &mut Arena<T>, value: T)
        requires
            old(arena).wf(),
            self.valid(old(arena)),
        ensures
            final(arena).wf(),
            self.valid(final(arena)),
            final(arena)@ == old(arena)@.update(
                self.index(),
                (CellView { data: Some(value), ..old(arena)@[self.index()] }),
            ),
    {
        let i = self.idx;
        let ghost pre = arena.cells@;
        let cell = &mut arena.cells[i];
        cell.data = Some(value);
        proof {
            assert(arena.cells@ =~= pre.update(i as int, arena.cells@[i as int]));
            assert((i as int) < pre.len());
            assert(pre[i as int].inv());
            assert(arena.cells@[i as int].inv());
            lemma_cells_wf_update(pre, arena.cells@, i as int);
            lemma_slots_update(pre, i as int, arena.cells@[i as int]);
        }
    }

    /// Returns `true` while the guarded cell's lock is held exclusively.
    pub fn is_locked<T>(&self, arena: &Arena<T>) -> (r: bool)
        requires
            arena.wf(),
            arena.allocated(self.index()),
        ensures
            r == !exclusive_acquirable(arena@[self.index()].lock),
    {
        arena.cells[self.idx].lock.is_locked_exclusive()
    }

    /// Releases the guard: unlocks the cell exactly once, on every exit
    /// path of the critical section.
    pub fn release<T>(self, arena: &mut Arena<T>)
        requires
            old(arena).wf(),
            self.valid(old(arena)),
        ensures
            final(arena).wf(),
            final(arena)@ == old(arena)@.update(
                self.index(),
                lock_freed_step(old(arena)@[self.index()]),
            ),
            exclusive_acquirable(final(arena)@[self.index()].lock),
    {
        let i = self.idx;
        proof {
            assert(arena.cells@[i as int].inv());
        }
        let ghost pre = arena.cells@;
        let cell = &mut arena.cells[i];
        cell.lock.unlock_exclusive();
        proof {
            assert(arena.cells@ =~= pre.update(i as int, arena.cells@[i as int]));
            assert((i as int) < pre.len());
            assert(pre[i as int].inv());
            assert(arena.cells@[i as int].inv());
            lemma_cells_wf_update(pre, arena.cells@, i as int);
            lemma_slots_update(pre, i as int, arena.cells@[i as int]);
        }
    }
}

/// A cell after a strong handle is cloned.
pub open spec fn clone_step<T>(c: CellView<T>) -> CellView<T> {
    CellView { strong: c.strong + 1, ..c }
}

/// A cell after a strong handle is dropped: above one the strong count only
/// goes down; the last drop destroys the payload and returns the implicit
/// weak unit.
pub open spec fn drop_step<T>(c: CellView<T>) -> CellView<T> {
    if c.strong > 1 {
        CellView { strong: c.strong - 1, ..c }
    } else {
        CellView { strong: 0, data: None, weak: c.weak - 1, ..c }
    }
}

/// A cell after a weak handle is created.
pub open spec fn downgrade_step<T>(c: CellView<T>) -> CellView<T> {
    CellView { weak: c.weak + 1, ..c }
}

/// A cell after a weak handle is dropped; a weak count that drains to zero
/// frees the cell's storage.
pub open spec fn drop_weak_step<T>(c: CellView<T>) -> CellView<T> {
    CellView { weak: c.weak - 1, ..c }
}

/// A cell after its embedded lock is taken exclusively by a mutable
/// downcast.
pub open spec fn lock_taken_step<T>(c: CellView<T>) -> CellView<T> {
    CellView { lock: (LockView { state: crate::mutex::LOCKED, inside_e: 1, ..c.lock }), ..c }
}

/// A cell after its embedded lock is released by the guard.
pub open spec fn lock_freed_step<T>(c: CellView<T>) -> CellView<T> {
    CellView { lock: crate::mutex::unlock_exclusive_post(c.lock), ..c }
}

/// A weak handle pointed at this cell could be upgraded: the payload is
/// still alive.
pub open spec fn upgradable<T>(c: CellView<T>) -> bool {
    c.strong > 0
}

/// A cell after `n` clones of a strong handle.
pub open spec fn iter_clone_steps<T>(c: CellView<T>, n: nat) -> CellView<T>
    decreases n,
{
    if n == 0 {
        c
    } else {
        clone_step(iter_clone_steps(c, (n - 1) as nat))
    }
}

/// A cell after `n` drops of strong handles.
pub open spec fn iter_drop_steps<T>(c: CellView<T>, n: nat) -> CellView<T>
    decreases n,
{
    if n == 0 {
        c
    } else {
        drop_step(iter_drop_steps(c, (n - 1) as nat))
    }
}

/// Cloning only raises the strong count.
proof fn lemma_clones_add<T>(c: CellView<T>, n: nat)
    ensures
        iter_clone_steps(c, n) == (CellView { strong: c.strong + n, ..c }),
    decreases n,
{
    if n > 0 {
        lemma_clones_add(c, (n - 1) as nat);
    }
}

/// Dropping only lowers the strong count, as long as one reference outlives
/// every drop.
proof fn lemma_drops_sub<T>(c: CellView<T>, n: nat)
    requires
        c.strong >= n + 1,
    ensures
        iter_drop_steps(c, n) == (CellView { strong: c.strong - n, ..c }),
    decreases n,
{
    if n > 0 {
        lemma_drops_sub(c, (n - 1) as nat);
    }
}

/// Refcount conservation: after `n` clones and `n` drops of handles to one
/// cell that keeps at least one other strong reference, the cell — its
/// strong count included — is exactly what it was, and no intermediate drop
/// was the destroying one.
pub proof fn lemma_refcount_conservation<T>(c: CellView<T>, n: nat)
    requires
        c.strong >= 1,
    ensures
        iter_clone_steps(c, n).strong == c.strong + n,
        iter_drop_steps(iter_clone_steps(c, n), n) == c,
        forall|k: nat|
            k <= n ==> (#[trigger] iter_drop_steps(iter_clone_steps(c, n), k)).data == c.data,
    decreases n,
{
    lemma_clones_add(c, n);
    lemma_drops_sub((CellView { strong: c.strong + n, ..c }), n);
    assert forall|k: nat|
        k <= n implies (#[trigger] iter_drop_steps(iter_clone_steps(c, n), k)).data == c.data by {
        lemma_drops_sub((CellView { strong: c.strong + n, ..c }), k);
    }
}

/// Weak count conservation: creating and then dropping a weak handle
/// returns the cell — its weak count included — to exactly what it was.
pub proof fn lemma_weak_count_restored<T>(c: CellView<T>)
    ensures
        drop_weak_step(downgrade_step(c)) == c,
{
}

/// Weak upgrade semantics: a weak handle can be upgraded exactly while a
/// strong reference exists; creating or dropping weak handles never changes
/// that; dropping the last strong handle destroys the payload and makes
/// every later upgrade fail, while a drop that leaves strong references
/// keeps upgrades possible.
pub proof fn lemma_weak_upgrade_semantics<T>(c: CellView<T>)
    ensures
        upgradable(downgrade_step(c)) == upgradable(c),
        upgradable(drop_weak_step(c)) == upgradable(c),
        c.strong == 1 ==> !upgradable(drop_step(c)) && drop_step(c).data is None,
        c.strong >= 2 ==> upgradable(drop_step(c)) && drop_step(c).data == c.data,
{
}

} // verus!
