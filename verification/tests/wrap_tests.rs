use tcp_rust::wrap::Wrap;

#[test]
fn wrapping_lt_plain_order() {
    assert!(0u32.wrapping_lt(1));
    assert!(5u32.wrapping_lt(100));
    assert!(!100u32.wrapping_lt(5));
    assert!(!7u32.wrapping_lt(7));
}

#[test]
fn wrapping_lt_across_the_wrap() {
    // Near the top of the ring, the next numbers after the wrap still
    // come "later".
    assert!(u32::MAX.wrapping_lt(0));
    assert!(u32::MAX.wrapping_lt(5));
    assert!(0xffff_fff0u32.wrapping_lt(0x10));
    assert!(!0u32.wrapping_lt(u32::MAX));
}

#[test]
fn wrapping_lt_antisymmetric_on_samples() {
    let samples = [
        (0u32, 1u32),
        (1, 0),
        (u32::MAX, 0),
        (0x8000_0000, 0),
        (0x7fff_ffff, 0xffff_fffe),
        (12345, 12345),
    ];
    for (a, b) in samples {
        assert!(!(a.wrapping_lt(b) && b.wrapping_lt(a)));
    }
}

#[test]
fn wrapping_lt_neither_at_half_ring_distance() {
    // At a distance of exactly half the ring, neither number precedes
    // the other.
    assert!(!0u32.wrapping_lt(0x8000_0000));
    assert!(!0x8000_0000u32.wrapping_lt(0));
}

#[test]
fn between_wrapped_without_wrap() {
    assert!(50u32.is_between_wrapped(30, 60));
    assert!(!30u32.is_between_wrapped(30, 60));
    assert!(!60u32.is_between_wrapped(30, 60));
    assert!(!29u32.is_between_wrapped(30, 60));
}

#[test]
fn between_wrapped_window_wider_than_half_ring() {
    // The comparison is built on wrapping_lt, so an interval covering
    // more than half the ring holds only points within half a ring of
    // both ends; a point 20 past the start of such a window is not
    // "between".
    assert!(!50u32.is_between_wrapped(30, 11));
    assert!(!10u32.is_between_wrapped(50, 21));
}

#[test]
fn between_wrapped_small_window_past_the_wrap() {
    // A realistic window that wraps past zero accepts points on either
    // side of the wrap.
    let start = 0xffff_ffe0u32;
    let end = 0x20u32;
    assert!(0xffff_fff0u32.is_between_wrapped(start, end));
    assert!(0x10u32.is_between_wrapped(start, end));
    assert!(!0x20u32.is_between_wrapped(start, end));
}

#[test]
fn between_wrapped_across_sequence_max() {
    // A window spanning the 2^32 boundary accepts numbers on both
    // sides of it.
    let start = u32::MAX - 2;
    let end = 5u32;
    assert!(u32::MAX.is_between_wrapped(start, end));
    assert!(0u32.is_between_wrapped(start, end));
    assert!(3u32.is_between_wrapped(start, end));
    assert!(!5u32.is_between_wrapped(start, end));
    assert!(!(u32::MAX - 2).is_between_wrapped(start, end));
}
