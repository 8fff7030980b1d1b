use graph_lib::value::EdgeValue;

#[test]
fn u32_text_form_is_decimal() {
    assert_eq!(0u32.to_text(), b"0".to_vec());
    assert_eq!(5u32.to_text(), b"5".to_vec());
    assert_eq!(4294967295u32.to_text(), b"4294967295".to_vec());
}

#[test]
fn u32_from_text_round_trips() {
    assert_eq!(u32::from_text(b"0"), Some(0));
    assert_eq!(u32::from_text(b"10"), Some(10));
    assert_eq!(u32::from_text(b"4294967295"), Some(u32::MAX));
}

#[test]
fn u32_from_text_rejects_bad_tokens() {
    assert_eq!(u32::from_text(b""), None);
    assert_eq!(u32::from_text(b"12a"), None);
    assert_eq!(u32::from_text(b"-3"), None);
    assert_eq!(u32::from_text(b"4294967296"), None);
    assert_eq!(u32::from_text(b"99999999999999999999"), None);
}

#[test]
fn u32_from_text_accepts_leading_zeros() {
    assert_eq!(u32::from_text(b"0042"), Some(42));
}
