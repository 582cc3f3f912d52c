use std::cell::Cell;
use std::rc::Rc;

use castbox::AnyRef;
use castbox::Arena;
use castbox::WeakAnyRef;

const TAG_I32: u64 = 1;
const TAG_I64: u64 = 2;
const TAG_U32: u64 = 3;
const TAG_STRING: u64 = 4;
const TAG_BOXED_STRING: u64 = 5;
const TAG_STR: u64 = 6;
const TAG_DEF: u64 = 7;
const TAG_FOO: u64 = 8;
const TAG_OTHER: u64 = 99;

#[test]
fn test_map() {
    let mut arena: Arena<i64> = Arena::new();
    let x = AnyRef::new(&mut arena, 5i64, TAG_I64, "i64");
    let y = x.map(&mut arena, |v: &i64| v * 2, TAG_I64, TAG_OTHER, "i64");
    assert_eq!(*y.downcast_ref(&arena, TAG_OTHER), 10i64);
    y.drop_ref(&mut arena);
}

#[test]
fn new_and_type() {
    let mut arena: Arena<u32> = Arena::new();
    let x = AnyRef::new(&mut arena, 42u32, TAG_U32, "u32");
    assert_eq!(x.type_id(&arena), TAG_U32);

    let mut strings: Arena<String> = Arena::new();
    let s = AnyRef::new(&mut strings, String::new(), TAG_STRING, "alloc::string::String");
    assert_eq!(s.type_id(&strings), TAG_STRING);

    let mut boxes: Arena<Box<String>> = Arena::new();
    let b = AnyRef::new(&mut boxes, Box::new(String::new()), TAG_BOXED_STRING, "Box<String>");
    assert_eq!(b.type_id(&boxes), TAG_BOXED_STRING);
}

#[test]
fn test_strong_weak_counts() {
    let mut arena: Arena<&str> = Arena::new();
    let x = AnyRef::new(&mut arena, "hello", TAG_STR, "str");
    let y = x.clone_ref(&mut arena);
    {
        let j = y.clone_ref(&mut arena);
        assert_eq!(x.weak_count(&arena), 0);
        assert_eq!(j.strong_count(&arena), 3);
        j.drop_ref(&mut arena);
    }
    let x_d = x.downgrade(&mut arena);
    let weak_clone = x_d.clone_weak(&mut arena);
    assert_eq!(x.strong_count(&arena), 2);
    assert_eq!(x.weak_count(&arena), 2);

    x.drop_ref(&mut arena);
    let x = weak_clone.upgrade(&mut arena).unwrap();
    weak_clone.drop_weak(&mut arena);
    assert_eq!(x.strong_count(&arena), 2);
    assert_eq!(x.weak_count(&arena), 1);
}

#[test]
fn test_downgrade_and_upgrade() {
    let mut arena: Arena<&str> = Arena::new();
    let x = AnyRef::new(&mut arena, "test", TAG_STR, "str");
    let weak = x.downgrade(&mut arena);

    let up = weak.upgrade(&mut arena);
    assert!(up.is_some());
    let up = up.unwrap();
    assert!(up.downcast_ref(&arena, TAG_STR).eq(&"test"));
}

#[test]
fn test_downcast_success() {
    let mut arena: Arena<i64> = Arena::new();
    let x = AnyRef::new(&mut arena, 1234i64, TAG_I64, "i64");
    let val = x.downcast_ref(&arena, TAG_I64);
    assert_eq!(*val, 1234);
}

#[test]
fn test_downcast_fail() {
    let mut arena: Arena<i64> = Arena::new();
    let x = AnyRef::new(&mut arena, 1234i64, TAG_I64, "i64");
    let r = x.try_downcast_ref(&arena, TAG_U32);
    assert!(r.is_none())
}

#[test]
fn test_try_downcast_mut_success() {
    let mut arena: Arena<i32> = Arena::new();
    let x = AnyRef::new(&mut arena, 42, TAG_I32, "i32");
    let extra = x.clone_ref(&mut arena);
    let clone = extra.downgrade(&mut arena);
    extra.drop_ref(&mut arena);
    let y = x.try_downcast_mut(&mut arena, TAG_I32);
    assert!(y.is_some());
    if let Some(g) = y {
        let v = *g.get(&arena);
        g.set(&mut arena, v + 1);
        assert_eq!(*g.get(&arena), 43);
        g.release(&mut arena);
    };

    assert_eq!(*clone.try_downcast_ref(&arena, TAG_I32).unwrap(), 43);
}

#[test]
fn test_weak_drops_when_no_strong() {
    let mut arena: Arena<i32> = Arena::new();
    let weak: WeakAnyRef;
    {
        let x = AnyRef::new(&mut arena, 42, TAG_I32, "i32");
        weak = x.downgrade(&mut arena);
        let up = weak.upgrade(&mut arena);
        assert!(up.is_some());
        up.unwrap().drop_ref(&mut arena);
        x.drop_ref(&mut arena);
    }
    let probe = weak.clone_weak(&mut arena);
    assert_eq!(probe.strong_count(&arena), 0);
    probe.drop_weak(&mut arena);

    let _x = weak.clone_weak(&mut arena);
    let probe = weak.clone_weak(&mut arena);
    assert_eq!(probe.weak_count(&arena), 3);

    // after the last strong drop, weak cannot upgrade
    assert!(weak.upgrade(&mut arena).is_none());
}

#[test]
fn test_default_fill() {
    let mut arena: Arena<i32> = Arena::new();
    let x = AnyRef::default_with::<i32>(&mut arena, TAG_OTHER, "i32");
    let x = AnyRef::fill(x, &mut arena, 10i32, TAG_I32);
    assert_eq!(x.downcast_ref(&arena, TAG_I32).clone(), 10i32);

    let mut defs: Arena<Def> = Arena::new();
    let x = AnyRef::default_with::<Def>(&mut defs, TAG_DEF, "Def");
    assert_eq!(x.downcast_ref(&defs, TAG_DEF).data, String::from("hello"));
}

struct Def {
    data: String,
}

impl Default for Def {
    fn default() -> Self {
        Def { data: String::from("hello") }
    }
}

#[test]
fn test_from_raw_in_reconstruction() {
    let mut arena: Arena<String> = Arena::new();
    let x = AnyRef::new(&mut arena, String::from("hello"), TAG_STRING, "String");
    let raw = AnyRef::into_raw(x);

    let y = AnyRef::from_raw(raw);
    let val = y.downcast_ref(&arena, TAG_STRING);
    assert_eq!(val, "hello");
}

struct Foo(Rc<Cell<u8>>);

impl Drop for Foo {
    fn drop(&mut self) {
        self.0.set(self.0.get() + 1);
    }
}

#[test]
fn test_drop() {
    let drop_counter: Rc<Cell<u8>> = Rc::new(Cell::new(0));
    let mut arena: Arena<Foo> = Arena::new();
    let foo = AnyRef::new(&mut arena, Foo(drop_counter.clone()), TAG_FOO, "Foo");
    {
        let x = foo.clone_ref(&mut arena);
        let weak_foo = foo.downgrade(&mut arena);
        x.drop_ref(&mut arena);
        weak_foo.drop_weak(&mut arena);
    }
    let weak_foo = foo.downgrade(&mut arena);
    let other_weak_foo = weak_foo.clone_weak(&mut arena);

    weak_foo.drop_weak(&mut arena); // doesn't do anything
    assert_eq!(drop_counter.get(), 0);
    foo.drop_ref(&mut arena); // drops the payload here

    assert!(other_weak_foo.upgrade(&mut arena).is_none());
    assert_eq!(drop_counter.get(), 1);
}

#[test]
fn test_try_unwrap() {
    let mut arena: Arena<i32> = Arena::new();
    let x = AnyRef::new(&mut arena, 3i32, TAG_I32, "i32");
    if let Ok(t) = AnyRef::try_unwrap(x, &mut arena) {
        assert_eq!(t, 3i32);
    }

    let x = AnyRef::new(&mut arena, 4, TAG_I32, "i32");
    let _y = x.clone_ref(&mut arena);
    assert_eq!(*AnyRef::try_unwrap(x, &mut arena).unwrap_err().downcast_ref(&arena, TAG_I32), 4);
}

#[test]
fn refcount_returns_after_clones_and_drops() {
    let mut arena: Arena<i32> = Arena::new();
    let x = AnyRef::new(&mut arena, 7, TAG_I32, "i32");
    assert_eq!(x.strong_count(&arena), 1);
    let mut handles: Vec<AnyRef> = Vec::new();
    let mut i = 0;
    while i < 10 {
        handles.push(x.clone_ref(&mut arena));
        i += 1;
    }
    assert_eq!(x.strong_count(&arena), 11);
    while let Some(h) = handles.pop() {
        h.drop_ref(&mut arena);
    }
    assert_eq!(x.strong_count(&arena), 1);

    // a weak handle created and dropped restores the weak count too
    assert_eq!(x.weak_count(&arena), 0);
    let w = x.downgrade(&mut arena);
    assert_eq!(x.weak_count(&arena), 1);
    w.drop_weak(&mut arena);
    assert_eq!(x.weak_count(&arena), 0);
}

#[test]
fn guard_release_frees_the_lock() {
    let mut arena: Arena<String> = Arena::new();
    let x = AnyRef::new(&mut arena, String::from("locked"), TAG_STRING, "String");
    assert!(!x.is_locked(&arena));
    let g = x.downcast_mut(&mut arena, TAG_STRING);
    assert!(g.is_locked(&arena));
    assert!(x.is_locked(&arena));
    g.release(&mut arena);
    assert!(!x.is_locked(&arena));

    // the lock can be taken again right away
    let g = x.try_downcast_mut(&mut arena, TAG_STRING).unwrap();
    g.release(&mut arena);
    assert!(!x.is_locked(&arena));
}

#[test]
fn mismatched_downcast_mut_leaves_lock_alone() {
    let mut arena: Arena<i32> = Arena::new();
    let x = AnyRef::new(&mut arena, 5, TAG_I32, "i32");
    assert!(x.try_downcast_mut(&mut arena, TAG_OTHER).is_none());
    assert!(!x.is_locked(&arena));
}

#[test]
fn dangling_weak_always_fails() {
    let mut arena: Arena<i32> = Arena::new();
    let empty: WeakAnyRef = WeakAnyRef::new();
    assert!(empty.upgrade(&mut arena).is_none());
    assert_eq!(empty.strong_count(&arena), 0);
    assert_eq!(empty.weak_count(&arena), 0);
    assert!(empty.try_downcast_ref(&arena, TAG_I32).is_none());
    let empty: WeakAnyRef = Default::default();
    assert!(empty.upgrade(&mut arena).is_none());
    let copy = empty.clone_weak(&mut arena);
    assert!(copy.upgrade(&mut arena).is_none());
}

#[test]
fn weak_grants_no_mutable_access() {
    let mut arena: Arena<i32> = Arena::new();
    let x = AnyRef::new(&mut arena, 1, TAG_I32, "i32");
    let w = x.downgrade(&mut arena);
    assert!(w.try_downcast_mut(&arena, TAG_I32).is_none());
}

#[test]
fn is_unique_sees_every_handle() {
    let mut arena: Arena<&str> = Arena::new();
    let a = AnyRef::new(&mut arena, "unique", TAG_STR, "str");
    assert!(AnyRef::is_unique(&a, &arena));
    let b = a.clone_ref(&mut arena);
    assert!(!AnyRef::is_unique(&a, &arena));
    b.drop_ref(&mut arena);
    assert!(AnyRef::is_unique(&a, &arena));
    let w = a.downgrade(&mut arena);
    assert!(!AnyRef::is_unique(&a, &arena));
    w.drop_weak(&mut arena);
    assert!(AnyRef::is_unique(&a, &arena));
}

#[test]
fn ptr_eq_tells_cells_apart() {
    let mut arena: Arena<i32> = Arena::new();
    let a = AnyRef::new(&mut arena, 1, TAG_I32, "i32");
    let b = a.clone_ref(&mut arena);
    let c = AnyRef::new(&mut arena, 1, TAG_I32, "i32");
    assert!(AnyRef::ptr_eq(&a, &b));
    assert!(!AnyRef::ptr_eq(&a, &c));
}

#[test]
fn type_label_is_kept() {
    let mut arena: Arena<i32> = Arena::new();
    let a = AnyRef::new(&mut arena, 1, TAG_I32, "core::primitive::i32");
    assert_eq!(a.type_label(&arena), "core::primitive::i32");
}

#[test]
fn cast_raw_checks_tag_and_sentinel() {
    let mut arena: Arena<i32> = Arena::new();
    let a = AnyRef::new(&mut arena, 99, TAG_I32, "i32");
    let raw = a.as_cast_ptr(&arena, TAG_I32);
    assert_eq!(*AnyRef::cast_raw(&arena, raw, TAG_I32).unwrap(), 99);
    assert!(AnyRef::cast_raw(&arena, raw, TAG_OTHER).is_none());
    assert!(AnyRef::cast_raw(&arena, usize::MAX, TAG_I32).is_none());
    assert_eq!(*a.as_ref(&arena, TAG_I32), 99);
}

#[test]
fn fill_requires_sole_ownership_and_swaps_tag() {
    let mut arena: Arena<i32> = Arena::new();
    let a = AnyRef::new(&mut arena, 0, TAG_I32, "i32");
    let a = AnyRef::fill(a, &mut arena, 123, TAG_OTHER);
    assert!(a.try_downcast_ref(&arena, TAG_I32).is_none());
    assert_eq!(*a.downcast_ref(&arena, TAG_OTHER), 123);
}
