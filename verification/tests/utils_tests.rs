use castbox::MemLayout;
use castbox::is_dangling;
use castbox::memory_layout_for_t;

#[test]
fn dangling_is_the_max_address() {
    assert!(is_dangling(usize::MAX));
    assert!(!is_dangling(0));
    assert!(!is_dangling(usize::MAX - 1));
}

#[test]
fn layout_pads_value_behind_header() {
    // a u64 header followed by 4 bytes aligned to 4: the value goes at
    // offset 8, and the 12 bytes are padded to the combined alignment 8
    let r = memory_layout_for_t::<u64>(MemLayout { size: 4, align: 4 });
    assert_eq!(r.align, 8);
    assert_eq!(r.size, 16);
}

#[test]
fn layout_with_byte_alignment_needs_no_padding() {
    let r = memory_layout_for_t::<u8>(MemLayout { size: 3, align: 1 });
    assert_eq!(r.align, 1);
    assert_eq!(r.size, 4);
}

#[test]
fn layout_for_empty_value() {
    // a zero-sized value adds nothing past the header
    let r = memory_layout_for_t::<u64>(MemLayout { size: 0, align: 1 });
    assert_eq!(r.align, 8);
    assert_eq!(r.size, 8);
}
