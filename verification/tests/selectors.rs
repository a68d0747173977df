use reliable_sub::errors::SelectorError;
use reliable_sub::selector::{Selector, ValueSelector};

#[test]
fn try_from_splits_at_first_question_mark() {
    let s = Selector::try_from("demo/a/b?x=1&y=2".to_string()).unwrap();
    assert_eq!(s.key_expr, "demo/a/b");
    assert_eq!(s.value_selector(), "x=1&y=2");
}

#[test]
fn try_from_without_question_mark() {
    let s = Selector::try_from("demo/a/**".to_string()).unwrap();
    assert_eq!(s.key_expr, "demo/a/**");
    assert_eq!(s.value_selector(), "");
}

#[test]
fn try_from_keeps_later_question_marks_in_value() {
    let s = Selector::try_from("demo/a?x=1?y=2".to_string()).unwrap();
    assert_eq!(s.key_expr, "demo/a");
    assert_eq!(s.value_selector(), "x=1?y=2");
}

#[test]
fn try_from_rejects_invalid_key_expression() {
    assert_eq!(
        Selector::try_from("?x=1".to_string()).err(),
        Some(SelectorError::InvalidSelector)
    );
    assert_eq!(
        Selector::try_from("demo//a".to_string()).err(),
        Some(SelectorError::InvalidSelector)
    );
}

#[test]
fn with_value_selector_replaces_parameters() {
    let s = Selector::try_from("demo/a".to_string()).unwrap();
    let s = s.with_value_selector("_sn=5..");
    assert_eq!(s.key_expr, "demo/a");
    assert_eq!(s.value_selector(), "_sn=5..");
}

#[test]
fn split_hands_both_parts_back() {
    let s = Selector::try_from("demo/a?k=v".to_string()).unwrap();
    let (ke, vs) = s.split();
    assert_eq!(ke, "demo/a");
    assert_eq!(vs, "k=v");
}

#[test]
fn clones_preserve_both_parts() {
    let s = Selector::try_from("demo/a?k=v".to_string()).unwrap();
    let b = s.borrowing_clone();
    assert_eq!(b.key_expr, "demo/a");
    assert_eq!(b.value_selector(), "k=v");
    let o = s.to_owned();
    assert_eq!(o.key_expr, "demo/a");
    assert_eq!(o.value_selector(), "k=v");
    let i = s.into_owned();
    assert_eq!(i.key_expr, "demo/a");
    assert_eq!(i.value_selector(), "k=v");
}

#[test]
fn decode_value_selector_decodes_urlencoding() {
    let s = Selector::try_from("demo/a?a=b&c=%20d".to_string()).unwrap();
    let pairs = s.decode_value_selector();
    assert_eq!(pairs.len(), 2);
    assert_eq!(pairs[0], ("a".to_string(), "b".to_string()));
    assert_eq!(pairs[1], ("c".to_string(), " d".to_string()));
}

#[test]
fn decode_value_selector_key_without_value() {
    let s = Selector::try_from("demo/a?flag&k=v".to_string()).unwrap();
    let pairs = s.decode_value_selector();
    assert_eq!(pairs.len(), 2);
    assert_eq!(pairs[0], ("flag".to_string(), "".to_string()));
    assert_eq!(pairs[1], ("k".to_string(), "v".to_string()));
}

#[test]
fn value_selector_trait_decodes_strings() {
    let vs = "a=1&b=2".to_string();
    let pairs = vs.decode();
    assert_eq!(pairs.len(), 2);
    assert_eq!(pairs[0], ("a".to_string(), "1".to_string()));
    assert_eq!(pairs[1], ("b".to_string(), "2".to_string()));
}
