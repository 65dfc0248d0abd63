use sokoban::bitv::{Bitv, BitvImpl};

#[test]
fn test_expand() {
    let mut from = BitvImpl::new();
    from.set_bit(30);
    from.set_bit(56);
    let mut to = BitvImpl::new();

    to.expand_from(&from, 10);

    assert_eq!(to.get_bit(30), true);
    assert_eq!(to.get_bit(29), true);
    assert_eq!(to.get_bit(31), true);
    assert_eq!(to.get_bit(20), true);
    assert_eq!(to.get_bit(40), true);

    assert_eq!(to.get_bit(56), true);
    assert_eq!(to.get_bit(57), true);
    assert_eq!(to.get_bit(55), true);
    assert_eq!(to.get_bit(66), true);
    assert_eq!(to.get_bit(46), true);
}

#[test]
fn dilation_of_singleton_is_exact() {
    // a single cell at column 3, row 2 of a board 10 cells wide
    let n = 2 * 10 + 3;
    let mut src = BitvImpl::new();
    src.set_bit(n);
    let mut out = BitvImpl::new();
    out.expand_from(&src, 10);
    for i in 0..256 {
        let expected = i == n || i == n - 1 || i == n + 1 || i == n - 10 || i == n + 10;
        assert_eq!(out.get_bit(i), expected);
    }
}

#[test]
fn dilation_does_not_wrap_at_the_ends() {
    let mut src = BitvImpl::new();
    src.set_bit(0);
    src.set_bit(255);
    let mut out = BitvImpl::new();
    out.expand_from(&src, 16);
    // nothing wraps from cell 0 to the top or from cell 255 to the bottom
    assert_eq!(out.get_bit(0), true);
    assert_eq!(out.get_bit(1), true);
    assert_eq!(out.get_bit(16), true);
    assert_eq!(out.get_bit(255), true);
    assert_eq!(out.get_bit(254), true);
    assert_eq!(out.get_bit(239), true);
    for i in 17..239 {
        assert_eq!(out.get_bit(i), false);
    }
}

#[test]
fn masking_after_not() {
    let mut r = BitvImpl::new();
    r.set_bit(3);
    r.set_bit(100);
    r.neg(50);
    // bits at indices >= the cell count are zero
    for i in 50..256 {
        assert_eq!(r.get_bit(i), false);
    }
    // bits below the cell count are complemented
    assert_eq!(r.get_bit(3), false);
    assert_eq!(r.get_bit(4), true);
    assert_eq!(r.get_bit(49), true);
}

#[test]
fn bulk_boolean_operations() {
    let mut a = BitvImpl::new();
    a.set_bit(1);
    a.set_bit(65);
    a.set_bit(200);
    let mut b = BitvImpl::new();
    b.set_bit(65);
    b.set_bit(201);

    assert!(a.intersect(&b));
    let mut c = a;
    c.and(&b);
    assert_eq!(c.get_bit(65), true);
    assert_eq!(c.get_bit(1), false);
    assert_eq!(c.get_bit(200), false);

    let mut d = a;
    d.or(&b);
    assert_eq!(d.get_bit(1), true);
    assert_eq!(d.get_bit(65), true);
    assert_eq!(d.get_bit(200), true);
    assert_eq!(d.get_bit(201), true);

    let mut e = BitvImpl::new();
    e.set_bit(2);
    assert!(!a.intersect(&e));

    a.unset_bit(65);
    assert_eq!(a.get_bit(65), false);
    assert!(!a.intersect(&b));
}
