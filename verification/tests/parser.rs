use migparser::ArgumentOption;
use migparser::ArgumentParser;
use migparser::DataType;
use migparser::ListType;
use migparser::ParseError;

#[test]
fn positional_string_is_captured() {
    let mut parser = ArgumentParser::new();
    parser
        .add_argument("file", None, DataType::String, None, None)
        .unwrap();
    parser.parse_arguments_from_text("a.txt".to_string()).unwrap();
    assert_eq!(parser.get_value::<String>("file"), Some("a.txt".to_string()));
}

#[test]
fn required_optional_int_is_captured() {
    let mut parser = ArgumentParser::new();
    parser
        .add_argument(
            "--count",
            Some(vec!["-c".to_string()]),
            DataType::Int,
            Some(vec![ArgumentOption::Necessary]),
            None,
        )
        .unwrap();
    parser.parse_arguments_from_text("-c 7".to_string()).unwrap();
    assert_eq!(parser.get_value::<i32>("count"), Some(7));
}

#[test]
fn missing_required_optional_fails_the_pass() {
    let mut parser = ArgumentParser::new();
    parser
        .add_argument(
            "--count",
            Some(vec!["-c".to_string()]),
            DataType::Int,
            Some(vec![ArgumentOption::Necessary]),
            None,
        )
        .unwrap();
    let r = parser.parse_arguments_from_text("other".to_string());
    match r {
        Err(ParseError::MissingRequired(name)) => assert_eq!(name, "count"),
        _ => panic!("expected a missing-required error"),
    }
}

#[test]
fn flag_present_stores_true() {
    let mut parser = ArgumentParser::new();
    parser
        .add_argument(
            "--verbose",
            Some(vec!["-v".to_string()]),
            DataType::Bool,
            Some(vec![ArgumentOption::StoreTrue]),
            None,
        )
        .unwrap();
    parser.parse_arguments_from_text("-v".to_string()).unwrap();
    assert_eq!(parser.get_value::<bool>("verbose"), Some(true));
}

#[test]
fn flag_absent_keeps_default_false() {
    let mut parser = ArgumentParser::new();
    parser
        .add_argument(
            "--verbose",
            Some(vec!["-v".to_string()]),
            DataType::Bool,
            Some(vec![ArgumentOption::StoreTrue]),
            None,
        )
        .unwrap();
    parser.parse_arguments_from_text("nothing here".to_string()).unwrap();
    assert_eq!(parser.get_value::<bool>("verbose"), Some(false));
}

#[test]
fn store_false_flag_defaults_true_and_flips() {
    let mut parser = ArgumentParser::new();
    parser
        .add_argument(
            "--quiet",
            None,
            DataType::Bool,
            Some(vec![ArgumentOption::StoreFalse]),
            None,
        )
        .unwrap();
    assert_eq!(parser.get_value::<bool>("quiet"), Some(true));
    parser.parse_arguments_from_text("--quiet".to_string()).unwrap();
    assert_eq!(parser.get_value::<bool>("quiet"), Some(false));
}

#[test]
fn optional_int_list_with_arity_three() {
    let mut parser = ArgumentParser::new();
    parser
        .add_argument(
            "--ids",
            None,
            DataType::List(ListType::Int),
            Some(vec![ArgumentOption::NArgs(3)]),
            None,
        )
        .unwrap();
    parser.parse_arguments_from_text("--ids 1 2 3".to_string()).unwrap();
    assert_eq!(parser.get_value::<Vec<i32>>("ids"), Some(vec![1, 2, 3]));
}

#[test]
fn optional_list_with_too_few_tokens_fails_with_arity_error() {
    let mut parser = ArgumentParser::new();
    parser
        .add_argument(
            "--ids",
            None,
            DataType::List(ListType::Int),
            Some(vec![ArgumentOption::NArgs(3)]),
            None,
        )
        .unwrap();
    let r = parser.parse_arguments_from_text("--ids 1 2".to_string());
    match r {
        Err(ParseError::ArityUnderflow(name)) => assert_eq!(name, "ids"),
        _ => panic!("expected an arity error"),
    }
}

#[test]
fn two_optionals_consume_only_their_own_tokens() {
    let mut parser = ArgumentParser::new();
    parser
        .add_argument("--alpha", Some(vec!["-a".to_string()]), DataType::Int, None, None)
        .unwrap();
    parser
        .add_argument("--beta", Some(vec!["-b".to_string()]), DataType::Int, None, None)
        .unwrap();
    parser.parse_arguments_from_text("-a 1 -b 2".to_string()).unwrap();
    assert_eq!(parser.get_value::<i32>("alpha"), Some(1));
    assert_eq!(parser.get_value::<i32>("beta"), Some(2));
}

#[test]
fn two_optionals_declared_in_the_other_order_are_unaffected() {
    let mut parser = ArgumentParser::new();
    parser
        .add_argument("--beta", Some(vec!["-b".to_string()]), DataType::Int, None, None)
        .unwrap();
    parser
        .add_argument("--alpha", Some(vec!["-a".to_string()]), DataType::Int, None, None)
        .unwrap();
    parser.parse_arguments_from_text("-a 1 -b 2".to_string()).unwrap();
    assert_eq!(parser.get_value::<i32>("alpha"), Some(1));
    assert_eq!(parser.get_value::<i32>("beta"), Some(2));
}

#[test]
fn second_pass_on_parsed_descriptor_is_a_no_op() {
    let mut parser = ArgumentParser::new();
    parser
        .add_argument("--count", Some(vec!["-c".to_string()]), DataType::Int, None, None)
        .unwrap();
    parser.parse_arguments_from_text("-c 7".to_string()).unwrap();
    assert_eq!(parser.get_value::<i32>("count"), Some(7));
    parser.parse_arguments_from_text("-c 9".to_string()).unwrap();
    assert_eq!(parser.get_value::<i32>("count"), Some(7));
}

#[test]
fn empty_name_is_rejected() {
    let mut parser = ArgumentParser::new();
    let r = parser.add_argument("", None, DataType::Int, None, None);
    assert_eq!(r, Err("Invalid name for arg!".to_string()));
}

#[test]
fn coercion_failure_leaves_the_value_absent() {
    let mut parser = ArgumentParser::new();
    parser
        .add_argument("--count", Some(vec!["-c".to_string()]), DataType::Int, None, None)
        .unwrap();
    parser.parse_arguments_from_text("-c seven".to_string()).unwrap();
    assert_eq!(parser.get_value::<i32>("count"), None);
}

#[test]
fn extraction_of_the_wrong_type_yields_nothing() {
    let mut parser = ArgumentParser::new();
    parser
        .add_argument("--count", Some(vec!["-c".to_string()]), DataType::Int, None, None)
        .unwrap();
    parser.parse_arguments_from_text("-c 7".to_string()).unwrap();
    assert_eq!(parser.get_value::<bool>("count"), None);
    assert_eq!(parser.get_value::<Vec<i32>>("count"), None);
}

#[test]
fn unknown_name_yields_nothing() {
    let parser = ArgumentParser::new();
    assert_eq!(parser.get_value::<i32>("count"), None);
}

#[test]
fn duplicated_parser_parses_independently() {
    let mut parser = ArgumentParser::new();
    parser
        .add_argument("--count", Some(vec!["-c".to_string()]), DataType::Int, None, None)
        .unwrap();
    let mut copy = parser.duplicate();
    copy.parse_arguments_from_text("-c 7".to_string()).unwrap();
    assert_eq!(copy.get_value::<i32>("count"), Some(7));
    assert_eq!(parser.get_value::<i32>("count"), None);
}

#[test]
fn two_positionals_take_the_first_two_token_slots() {
    let mut parser = ArgumentParser::new();
    parser
        .add_argument("source", None, DataType::String, None, None)
        .unwrap();
    parser
        .add_argument("target", None, DataType::String, None, None)
        .unwrap();
    parser.parse_arguments_from_text("in.txt out.txt".to_string()).unwrap();
    assert_eq!(parser.get_value::<String>("source"), Some("in.txt".to_string()));
    assert_eq!(parser.get_value::<String>("target"), Some("out.txt".to_string()));
}

#[test]
fn missing_positional_fails_the_pass() {
    let mut parser = ArgumentParser::new();
    parser
        .add_argument("--pad", Some(vec!["-p".to_string()]), DataType::Int, None, None)
        .unwrap();
    parser
        .add_argument("source", None, DataType::String, None, None)
        .unwrap();
    let r = parser.parse_arguments_from_text("-p 5".to_string());
    match r {
        Err(ParseError::MissingRequired(name)) => assert_eq!(name, "source"),
        _ => panic!("expected a missing-required error"),
    }
}

#[test]
fn consumed_value_token_is_not_matched_as_a_flag() {
    let mut parser = ArgumentParser::new();
    parser
        .add_argument("--val", None, DataType::String, None, None)
        .unwrap();
    parser
        .add_argument(
            "-v",
            None,
            DataType::Bool,
            Some(vec![ArgumentOption::StoreTrue]),
            None,
        )
        .unwrap();
    parser.parse_arguments_from_text("--val -v".to_string()).unwrap();
    assert_eq!(parser.get_value::<String>("val"), Some("-v".to_string()));
    assert_eq!(parser.get_value::<bool>("v"), Some(false));
}
