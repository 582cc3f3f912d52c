//! A sequential model of a small runtime of concurrency primitives: a
//! type-erased, reference-counted cell type with strong and weak handles and a
//! per-cell lock (`AnyRef` / `WeakAnyRef`), a two-mode user-space mutex with
//! exclusive and group locking (`Mutex`), a first-in-first-out container
//! (`AtomicVec`) that also serves as the lock's parking queue, and a bucketed
//! map with per-bucket locking (`AtomicHashMap`).
//!
//! Cells live in an [`Arena`]; handles are index tokens into it, so the
//! strong and weak counters are genuinely shared between handles.  The lock is
//! modelled as its state machine: acquisition, release, parking and waking are
//! transitions on one explicit state word plus a group counter, and the
//! safety laws (mutual exclusion, group concurrency, refcount conservation)
//! are proved over that state.

pub mod any_ref;
pub mod atomic_hashmap;
pub mod atomic_vec;
pub mod backoff;
pub mod mutex;
pub mod utils;

pub use any_ref::AnyRef;
pub use any_ref::AnyRefInner;
pub use any_ref::Arena;
pub use any_ref::CellView;
pub use any_ref::WatchGuard;
pub use any_ref::WeakAnyRef;
pub use atomic_hashmap::AtomicHashMap;
pub use atomic_hashmap::Iter;
pub use atomic_hashmap::WatchGuardMut;
pub use atomic_hashmap::WatchGuardRef;
pub use atomic_vec::AtomicVec;
pub use atomic_vec::Item;
pub use backoff::Backoff;
pub use mutex::LockStep;
pub use mutex::LockView;
pub use mutex::Mutex;
pub use utils::MemLayout;
pub use utils::is_dangling;
pub use utils::memory_layout_for_t;
