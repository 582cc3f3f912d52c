use castbox::AtomicVec;
use castbox::atomic_vec::Item;

#[test]
fn test_atomic_vec() {
    let mut vec: AtomicVec<i32> = AtomicVec::new();

    vec.push(10);
    vec.push(20);
    vec.push(30);
    assert_eq!(vec.pop().unwrap(), 10);
    assert_eq!(vec.pop().unwrap(), 20);
    assert_eq!(vec.pop().unwrap(), 30);

    assert!(vec.pop().is_none());
}

#[test]
fn queue_is_first_in_first_out() {
    let mut vec: AtomicVec<u64> = AtomicVec::new();
    assert!(vec.is_empty());
    assert_eq!(vec.len(), 0);
    let mut i: u64 = 0;
    while i < 100 {
        vec.push(i);
        i += 1;
    }
    assert_eq!(vec.len(), 100);
    assert!(!vec.is_empty());
    let mut i: u64 = 0;
    while i < 100 {
        assert_eq!(vec.pop(), Some(i));
        i += 1;
    }
    assert!(vec.is_empty());
    assert_eq!(vec.pop(), None);
}

#[test]
fn queue_rests_available() {
    let mut vec: AtomicVec<i32> = AtomicVec::new();
    assert!(!vec.is_busy());
    vec.push(1);
    assert!(!vec.is_busy());
    vec.pop();
    assert!(!vec.is_busy());
}

#[test]
fn item_carries_its_value() {
    let it = Item::new(42i32);
    assert_eq!(it.value, 42);
}
