use rtorrent::bitfield::Bitfield;

#[test]
fn three_byte_layout() {
    let b = Bitfield::new(vec![0x80, 0x00, 0x01]);
    assert!(b.get(0));
    assert!(!b.get(1));
    assert!(!b.get(7));
    assert!(!b.get(8));
    assert!(b.get(23));
    assert!(!b.get(24));
    assert!(!b.get(1000));
}

#[test]
fn set_then_get() {
    let mut b = Bitfield::empty(20);
    assert_eq!(b.len(), 3);
    for i in 0..24 {
        assert!(!b.get(i));
    }
    b.set(9);
    assert!(b.get(9));
    for i in 0..24 {
        if i != 9 {
            assert!(!b.get(i));
        }
    }
    b.set(0);
    b.set(23);
    assert!(b.get(0) && b.get(9) && b.get(23));
}

#[test]
fn empty_sizes() {
    assert_eq!(Bitfield::empty(0).len(), 0);
    assert_eq!(Bitfield::empty(8).len(), 1);
    assert_eq!(Bitfield::empty(9).len(), 2);
}

#[test]
fn copy_keeps_bits() {
    let b = Bitfield::new(vec![0xF0]);
    let c = b.copy();
    for i in 0..8 {
        assert_eq!(b.get(i), c.get(i));
    }
}
