use modrun::span::Span;

#[test]
fn spans_convert_and_display() {
    let s = Span::from_millis(1_500);
    assert_eq!(s.secs(), 1);
    assert_eq!(s.subsec_nanos(), 500_000_000);
    assert_eq!(s.text(), "1.5s");
    assert_eq!(Span::from_nanos(12_300).text(), "12.3µs");
    assert_eq!(Span::new(15, 0).text(), "15s");
    assert_eq!(s.millis_saturating(), 1_500);
    assert_eq!(Span::new(u64::MAX, 999_999_999).millis_saturating(), u64::MAX);
    assert_eq!(Span::from_nanos(999_999).millis_saturating(), 0);
}
