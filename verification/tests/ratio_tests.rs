use well_layout::ratio::Ratio;

#[test]
fn cross_multiplied_comparisons() {
    // 130/7 is about 18.57
    let w = Ratio::new(130, 7);
    assert!(w.le(19));
    assert!(!w.le(18));
    assert!(w.lt(19));
    assert!(w.ge(18));
    assert!(!w.ge(19));
    assert!(w.gt(18));
    assert!(!w.gt(19));
    // exact integer value
    let six = Ratio::new(12, 2);
    assert!(six.le(6));
    assert!(six.ge(6));
    assert!(!six.lt(6));
    assert!(!six.gt(6));
}

#[test]
fn comparisons_with_negative_integers() {
    let w = Ratio::new(3, 2);
    assert!(w.gt(-5));
    assert!(w.ge(-5));
    assert!(!w.le(-5));
    assert!(!w.lt(-5));
}
