use kcp_rs::Sequence;

#[test]
fn test_wrapping() {
    let max = Sequence::new(u32::MAX);
    let next = max.increment();
    assert_eq!(next.value(), 0);
}

#[test]
fn test_ordering() {
    let a = Sequence::new(100);
    let b = Sequence::new(50);
    assert!(a.is_after(b));
    assert!(b.is_before(a));
}

#[test]
fn test_wrapping_ordering() {
    let a = Sequence::new(10);
    let b = Sequence::new(u32::MAX - 10);
    // a is after b once b wraps around
    assert!(a.is_after(b));
}

#[test]
fn test_index() {
    let seq = Sequence::new(257);
    let mask = 255usize; // capacity 256
    assert_eq!(seq.to_index(mask), 1);
}

#[test]
fn test_diff() {
    let a = Sequence::new(100);
    let b = Sequence::new(90);
    assert_eq!(a.diff(b), 10);
    assert_eq!(b.diff(a), -10);
}

#[test]
fn test_diff_wrapping() {
    let a = Sequence::new(5);
    let b = Sequence::new(u32::MAX - 5);
    // 5 - (MAX - 5) wraps to 11
    assert_eq!(a.diff(b), 11);
}

#[test]
fn test_add() {
    let seq = Sequence::new(100);
    assert_eq!(seq.add(50).value(), 150);

    let max = Sequence::new(u32::MAX);
    assert_eq!(max.add(10).value(), 9);
}

#[test]
fn test_is_in_range() {
    let start = Sequence::new(10);
    let end = Sequence::new(20);

    assert!(Sequence::new(10).is_in_range(start, end));
    assert!(Sequence::new(15).is_in_range(start, end));
    assert!(Sequence::new(19).is_in_range(start, end));
    assert!(!Sequence::new(20).is_in_range(start, end));
    assert!(!Sequence::new(9).is_in_range(start, end));
    assert!(!Sequence::new(25).is_in_range(start, end));
}

#[test]
fn test_is_in_range_wrapping() {
    // A range that wraps around
    let start = Sequence::new(u32::MAX - 5);
    let end = Sequence::new(10);

    assert!(Sequence::new(u32::MAX - 5).is_in_range(start, end));
    assert!(Sequence::new(u32::MAX).is_in_range(start, end));
    assert!(Sequence::new(0).is_in_range(start, end));
    assert!(Sequence::new(5).is_in_range(start, end));
    assert!(!Sequence::new(10).is_in_range(start, end));
    assert!(!Sequence::new(100).is_in_range(start, end));
}

#[test]
fn test_equal_sequences() {
    let a = Sequence::new(100);
    let b = Sequence::new(100);
    assert!(!a.is_after(b));
    assert!(!a.is_before(b));
    assert_eq!(a.diff(b), 0);
}

#[test]
fn test_half_range_boundary() {
    // Exactly half the range apart
    let a = Sequence::new(0);
    let b = Sequence::new(1 << 31);
    // b is exactly half the range away: not after
    assert!(!b.is_after(a));
}

#[test]
fn sequence_after_is_asymmetric_and_total_off_half_range() {
    let pairs = [(0u32, 1u32), (5, u32::MAX - 5), (100, 100 + (1 << 30)), (7, 7 + (1 << 31) + 1)];
    for (x, y) in pairs.iter() {
        let a = Sequence::new(*x);
        let b = Sequence::new(*y);
        assert!(!(a.is_after(b) && b.is_after(a)));
        assert!(a.is_after(b) || b.is_after(a));
        assert_eq!(a.is_before(b), b.is_after(a));
    }
}

#[test]
fn sequence_add_then_diff() {
    let a = Sequence::new(u32::MAX - 3);
    let b = a.add(10);
    assert_eq!(b.value(), 6);
    assert_eq!(b.diff(a), 10);
    assert!(b.is_after(a));
    assert!(a.is_in_range(a, b));
    assert!(!b.is_in_range(a, b));
}

#[test]
fn sequence_index_is_low_bits() {
    assert_eq!(Sequence::new(0x1_23).to_index(0xff), 0x23);
    assert_eq!(Sequence::new(u32::MAX).to_index(127), 127);
}
