use migparser::coerce_text;
use migparser::Content;
use migparser::ContentList;
use migparser::DataType;
use migparser::ListType;

#[test]
fn decimal_int_coercion_and_rendering() {
    let c = coerce_text("7", &DataType::Int).unwrap();
    assert_eq!(c.get_value::<i32>(), Some(7));
    assert_eq!(c.get_value_str(), "7");
    let neg = coerce_text("-7", &DataType::Int).unwrap();
    assert_eq!(neg.get_value::<i32>(), Some(-7));
    assert_eq!(neg.get_value_str(), "-7");
}

#[test]
fn int_coercion_normalizes_leading_zeros_and_plus() {
    let c = coerce_text("007", &DataType::Int).unwrap();
    assert_eq!(c.get_value_str(), "7");
    let p = coerce_text("+42", &DataType::Int).unwrap();
    assert_eq!(p.get_value_str(), "42");
}

#[test]
fn int_coercion_bounds() {
    assert_eq!(
        coerce_text("-2147483648", &DataType::Int).unwrap().get_value::<i32>(),
        Some(i32::MIN)
    );
    assert_eq!(
        coerce_text("2147483647", &DataType::Int).unwrap().get_value::<i32>(),
        Some(i32::MAX)
    );
    assert!(coerce_text("2147483648", &DataType::Int).is_none());
    assert!(coerce_text("-2147483649", &DataType::Int).is_none());
}

#[test]
fn uint_coercion_rejects_signs_and_overflow() {
    assert_eq!(
        coerce_text("4294967295", &DataType::Uint).unwrap().get_value::<u32>(),
        Some(u32::MAX)
    );
    assert!(coerce_text("4294967296", &DataType::Uint).is_none());
    assert!(coerce_text("-1", &DataType::Uint).is_none());
    assert_eq!(
        coerce_text("+42", &DataType::Uint).unwrap().get_value::<u32>(),
        Some(42)
    );
}

#[test]
fn int_coercion_rejects_garbage() {
    assert!(coerce_text("", &DataType::Int).is_none());
    assert!(coerce_text("seven", &DataType::Int).is_none());
    assert!(coerce_text("7a", &DataType::Int).is_none());
    assert!(coerce_text("+", &DataType::Int).is_none());
    assert!(coerce_text("-", &DataType::Int).is_none());
}

#[test]
fn bool_coercion_is_exactly_true_or_false() {
    assert_eq!(coerce_text("true", &DataType::Bool).unwrap().get_value::<bool>(), Some(true));
    assert_eq!(coerce_text("false", &DataType::Bool).unwrap().get_value::<bool>(), Some(false));
    assert!(coerce_text("True", &DataType::Bool).is_none());
    assert!(coerce_text("1", &DataType::Bool).is_none());
}

#[test]
fn string_coercion_keeps_text_verbatim() {
    let c = coerce_text("a.txt", &DataType::String).unwrap();
    assert_eq!(c.get_value::<String>(), Some("a.txt".to_string()));
    assert_eq!(c.get_value_str(), "a.txt");
}

#[test]
fn float_text_is_gated_and_kept_verbatim() {
    let c = coerce_text("2.3", &DataType::Float).unwrap();
    assert_eq!(c.get_value_str(), "2.3");
    let kept = coerce_text("1.50", &DataType::Float).unwrap();
    assert_eq!(kept.get_value_str(), "1.50");
    assert!(coerce_text("2.3.4", &DataType::Float).is_none());
    assert!(coerce_text(".", &DataType::Float).is_none());
    assert!(coerce_text("-.5", &DataType::Float).unwrap().get_value_str() == "-.5");
    assert!(coerce_text("abc", &DataType::Float).is_none());
}

#[test]
fn list_coercion_splits_on_spaces() {
    let c = coerce_text("1 2 3", &DataType::List(ListType::Int)).unwrap();
    assert_eq!(c.get_value::<Vec<i32>>(), Some(vec![1, 2, 3]));
    assert_eq!(c.get_type(), DataType::List(ListType::Int));
    assert_eq!(c.get_value_str(), "[ 1  2  3 ]");
}

#[test]
fn list_coercion_fails_if_any_element_fails() {
    assert!(coerce_text("1 x 3", &DataType::List(ListType::Int)).is_none());
}

#[test]
fn structural_kinds() {
    assert_eq!(Content::Int(5).get_type(), DataType::Int);
    assert_eq!(Content::Uint(5).get_type(), DataType::Uint);
    assert_eq!(Content::Bool(true).get_type(), DataType::Bool);
    assert_eq!(Content::String("x".to_string()).get_type(), DataType::String);
    let mut l = ContentList::new(ListType::Uint);
    l.data.push(Content::Uint(1));
    assert_eq!(Content::List(l).get_type(), DataType::List(ListType::Uint));
}

#[test]
fn extraction_has_no_partial_results() {
    let ints = coerce_text("1 2 3", &DataType::List(ListType::Int)).unwrap();
    assert_eq!(ints.get_value::<Vec<u32>>(), None);
    assert_eq!(Content::Int(5).get_value::<Vec<i32>>(), None);
    assert_eq!(Content::Int(5).get_value::<bool>(), None);
}

#[test]
fn rendered_booleans_and_lists() {
    assert_eq!(Content::Bool(true).get_value_str(), "true");
    assert_eq!(Content::Bool(false).get_value_str(), "false");
    let empty = ContentList::new(ListType::Int);
    assert_eq!(Content::List(empty).get_value_str(), "[]");
}

#[test]
fn duplicate_is_equal_and_independent() {
    let c = coerce_text("1 2", &DataType::List(ListType::Int)).unwrap();
    let d = c.duplicate();
    assert_eq!(d.get_value::<Vec<i32>>(), Some(vec![1, 2]));
    drop(c);
    assert_eq!(d.get_value_str(), "[ 1  2 ]");
}
