use migparser::Argument;
use migparser::ArgumentOption;
use migparser::ArgumentType;
use migparser::Content;
use migparser::DataType;

#[test]
fn parse_name_strips_leading_dashes() {
    assert_eq!(Argument::parse_name("--count"), Some("count".to_string()));
    assert_eq!(Argument::parse_name("-c"), Some("c".to_string()));
    assert_eq!(Argument::parse_name("file"), Some("file".to_string()));
    assert_eq!(Argument::parse_name("---"), Some("".to_string()));
    assert_eq!(Argument::parse_name(""), None);
}

#[test]
fn arity_is_the_last_positive_narg() {
    assert_eq!(Argument::get_n_args(&vec![]), 1);
    assert_eq!(Argument::get_n_args(&vec![ArgumentOption::Necessary]), 1);
    assert_eq!(Argument::get_n_args(&vec![ArgumentOption::NArgs(0)]), 1);
    assert_eq!(Argument::get_n_args(&vec![ArgumentOption::NArgs(3)]), 3);
    assert_eq!(
        Argument::get_n_args(&vec![ArgumentOption::NArgs(2), ArgumentOption::NArgs(5)]),
        5
    );
    assert_eq!(
        Argument::get_n_args(&vec![ArgumentOption::NArgs(4), ArgumentOption::NArgs(0)]),
        4
    );
}

#[test]
fn kind_is_inferred_from_name_modifiers_and_type() {
    assert_eq!(
        Argument::guess_type("file", &vec![], &DataType::String),
        Some(ArgumentType::Positional)
    );
    assert_eq!(
        Argument::guess_type("-x", &vec![], &DataType::Int),
        Some(ArgumentType::Optional)
    );
    assert_eq!(
        Argument::guess_type("-x", &vec![], &DataType::Bool),
        Some(ArgumentType::Optional)
    );
    assert_eq!(
        Argument::guess_type("-x", &vec![ArgumentOption::StoreTrue], &DataType::Bool),
        Some(ArgumentType::Flag)
    );
    assert_eq!(
        Argument::guess_type("-x", &vec![ArgumentOption::StoreFalse], &DataType::Bool),
        Some(ArgumentType::Flag)
    );
    assert_eq!(Argument::guess_type("", &vec![], &DataType::Int), None);
}

#[test]
fn identifiers_are_matched_exactly() {
    let a = Argument::new_flag(
        "verbose",
        vec!["--verbose".to_string(), "-v".to_string()],
        Some(vec![ArgumentOption::StoreTrue]),
        None,
    );
    assert!(a.has_identifier("--verbose"));
    assert!(a.has_identifier("-v"));
    assert!(!a.has_identifier("verbose"));
    assert!(!a.has_identifier("-V"));
}

#[test]
fn set_value_after_parse_is_a_no_op() {
    let mut a = Argument::new_optional(
        "count",
        vec!["--count".to_string()],
        DataType::Int,
        None,
        None,
        1,
    );
    assert!(!a.is_parsed());
    assert!(a.set_data(Content::Int(1)));
    a.set_parsed();
    assert!(a.is_parsed());
    assert!(!a.set_data(Content::Int(2)));
    assert_eq!(a.get_data().unwrap().get_value::<i32>(), Some(1));
    a.set_parsed();
    assert!(a.is_parsed());
}

#[test]
fn constructors_record_kind_slot_and_arity() {
    let p = Argument::new_positional("file", vec!["file".to_string()], DataType::String, None, 2);
    assert_eq!(p.get_type(), ArgumentType::Positional);
    assert_eq!(p.get_index(), 2);
    assert_eq!(p.arity(), 1);
    assert!(p.get_data().is_none());

    let o = Argument::new_optional(
        "ids",
        vec!["--ids".to_string()],
        DataType::Int,
        Some(vec![ArgumentOption::NArgs(3)]),
        None,
        3,
    );
    assert_eq!(o.get_type(), ArgumentType::Optional);
    assert_eq!(o.get_index(), -1);
    assert_eq!(o.arity(), 3);
    assert!(o.has_option(ArgumentOption::NArgs(3)));
    assert!(!o.has_option(ArgumentOption::Necessary));

    let f = Argument::new_flag(
        "verbose",
        vec!["--verbose".to_string()],
        Some(vec![ArgumentOption::StoreTrue]),
        Some(Content::Bool(false)),
    );
    assert_eq!(f.get_type(), ArgumentType::Flag);
    assert_eq!(f.get_data_type(), DataType::Bool);
    assert_eq!(f.get_data().unwrap().get_value::<bool>(), Some(false));
}

#[test]
fn descriptor_duplicate_is_equal() {
    let mut a = Argument::new_optional(
        "count",
        vec!["--count".to_string(), "-c".to_string()],
        DataType::Int,
        Some(vec![ArgumentOption::Necessary]),
        Some(Content::Int(9)),
        1,
    );
    let b = a.duplicate();
    a.set_parsed();
    assert!(!b.is_parsed());
    assert_eq!(b.get_data().unwrap().get_value::<i32>(), Some(9));
    assert!(b.has_identifier("-c"));
    assert_eq!(b.get_name(), "count");
}
