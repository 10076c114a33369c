use hardeen_core::graph::text::{
    integer_text, join_position, join_position_list, parse_integer, parse_unsigned, split_position,
    split_position_list, split_text, trim, unsigned_text,
};
use hardeen_core::{HardeenError, Parameter, ParameterType, Position, PositionList, Scalar};

fn s(value: f32) -> Scalar {
    Scalar::from_bits(value.to_bits())
}

fn read_scalar(text: &str) -> Option<Scalar> {
    text.parse::<f32>().ok().map(s)
}

fn write_scalar(value: Scalar) -> String {
    f32::from_bits(value.to_bits()).to_string()
}

#[test]
fn test_float() {
    let mut m = Parameter::Float(s(10.0));
    m.set("20.0", read_scalar).unwrap();
    m.to_string(write_scalar);

    if let Parameter::Float(f) = m {
        assert_eq!(f32::from_bits(f.to_bits()), 20.0);
    } else {
        assert!(false);
    }
}

#[test]
fn unsigned_numbers() {
    assert_eq!(parse_unsigned("0"), Some(0));
    assert_eq!(parse_unsigned("007"), Some(7));
    assert_eq!(parse_unsigned("+42"), Some(42));
    assert_eq!(parse_unsigned("4294967295"), Some(u32::MAX));
    assert_eq!(parse_unsigned("4294967296"), None);
    assert_eq!(parse_unsigned("99999999999999999999999999"), None);
    assert_eq!(parse_unsigned(""), None);
    assert_eq!(parse_unsigned("+"), None);
    assert_eq!(parse_unsigned("-1"), None);
    assert_eq!(parse_unsigned("12a"), None);
    assert_eq!(parse_unsigned(" 12"), None);
    assert_eq!(parse_unsigned("1.5"), None);
    for text in ["0", "007", "+42", "4294967295", "4294967296", "", "+", "-1", "12a", "++1"] {
        assert_eq!(parse_unsigned(text), text.parse::<u32>().ok(), "{}", text);
    }
}

#[test]
fn whole_numbers() {
    assert_eq!(parse_integer("-2147483648"), Some(i32::MIN));
    assert_eq!(parse_integer("2147483647"), Some(i32::MAX));
    assert_eq!(parse_integer("2147483648"), None);
    assert_eq!(parse_integer("-2147483649"), None);
    assert_eq!(parse_integer("-0"), Some(0));
    assert_eq!(parse_integer("+15"), Some(15));
    assert_eq!(parse_integer("-"), None);
    assert_eq!(parse_integer("--1"), None);
    assert_eq!(parse_integer("-+1"), None);
    for text in ["-2147483648", "2147483647", "2147483648", "-0", "+15", "-", "", "1-", "0x10"] {
        assert_eq!(parse_integer(text), text.parse::<i32>().ok(), "{}", text);
    }
}

#[test]
fn numbers_written_out() {
    assert_eq!(unsigned_text(0), "0");
    assert_eq!(unsigned_text(9), "9");
    assert_eq!(unsigned_text(10), "10");
    assert_eq!(unsigned_text(4294967295), "4294967295");
    assert_eq!(unsigned_text(u64::MAX), u64::MAX.to_string());
    assert_eq!(integer_text(0), "0");
    assert_eq!(integer_text(-1), "-1");
    assert_eq!(integer_text(i32::MIN), "-2147483648");
    assert_eq!(integer_text(i32::MAX), "2147483647");
    for value in [0, 1, -1, 10, -10, 123456, i32::MIN, i32::MAX] {
        assert_eq!(parse_integer(&integer_text(value)), Some(value));
    }
    for value in [0u32, 1, 10, 99, 100, u32::MAX] {
        assert_eq!(parse_unsigned(&unsigned_text(value as u64)), Some(value));
    }
}

#[test]
fn trimming_and_splitting() {
    assert_eq!(trim("  a b \t\r\n"), "a b");
    assert_eq!(trim(""), "");
    assert_eq!(trim(" \n "), "");
    assert_eq!(trim("x"), "x");
    assert_eq!(split_text("a,b,,c", ','), vec!["a", "b", "", "c"]);
    assert_eq!(split_text("", ','), vec![""]);
    assert_eq!(split_text(",", ','), vec!["", ""]);
    assert_eq!(split_text("abc", ';'), vec!["abc"]);
    assert_eq!(split_text("ä;ö;", ';'), vec!["ä", "ö", ""]);
}

#[test]
fn position_texts() {
    assert_eq!(split_position("1,2"), Some(("1", "2")));
    assert_eq!(split_position(" 1.5 ,\t-2 "), Some(("1.5", "-2")));
    assert_eq!(split_position("1"), None);
    assert_eq!(split_position("1,2,3"), None);
    assert_eq!(split_position(","), Some(("", "")));
    assert_eq!(split_position_list("3,0;1,0;2,1;2,0"), Some(vec![("3", "0"), ("1", "0"), ("2", "1"), ("2", "0")]));
    assert_eq!(split_position_list("3,0; 1,0 ;"), Some(vec![("3", "0"), ("1", "0")]));
    assert_eq!(split_position_list(""), Some(vec![]));
    assert_eq!(split_position_list("  "), Some(vec![]));
    assert_eq!(split_position_list("1,2;;3,4"), None);
    assert_eq!(split_position_list("1,2;3"), None);
    assert_eq!(join_position("1", "2.5"), "1,2.5");
    assert_eq!(
        join_position_list(&vec![("1".to_string(), "2".to_string()), ("3".to_string(), "4".to_string())]),
        "1,2;3,4;"
    );
    assert_eq!(join_position_list(&Vec::new()), "");
}

#[test]
fn parameter_types_and_tags() {
    let kinds = [
        (ParameterType::Integer, "Integer"),
        (ParameterType::UnsignedInteger, "UnsignedInteger"),
        (ParameterType::Float, "Float"),
        (ParameterType::Boolean, "Boolean"),
        (ParameterType::Position, "Position"),
        (ParameterType::String, "String"),
        (ParameterType::PositionList, "PositionList"),
    ];
    for (kind, tag) in kinds {
        assert_eq!(kind.tag(), tag);
        assert_eq!(ParameterType::from_tag(tag), Some(kind));
    }
    assert_eq!(ParameterType::from_tag("Unsigned"), None);
    assert_eq!(ParameterType::from_tag(""), None);
    assert_eq!(Parameter::Integer(3).get_type(), "Integer");
    assert_eq!(Parameter::Float(s(1.0)).get_type(), "Float");
    assert_eq!(Parameter::Boolean(true).get_parameter_type(), ParameterType::Boolean);
}

#[test]
fn parameters_read_from_text() {
    match Parameter::from_string("-12", "Integer", read_scalar) {
        Ok(Parameter::Integer(value)) => assert_eq!(value, -12),
        _ => panic!(),
    }
    match Parameter::from_string("12", "UnsignedInteger", read_scalar) {
        Ok(Parameter::UnsignedInteger(value)) => assert_eq!(value, 12),
        _ => panic!(),
    }
    match Parameter::from_string("true", "Boolean", read_scalar) {
        Ok(Parameter::Boolean(value)) => assert!(value),
        _ => panic!(),
    }
    match Parameter::from_string(" as it is ", "String", read_scalar) {
        Ok(Parameter::String(value)) => assert_eq!(value, " as it is "),
        _ => panic!(),
    }
    match Parameter::from_string("2.5", "Float", read_scalar) {
        Ok(Parameter::Float(value)) => assert_eq!(value, s(2.5)),
        _ => panic!(),
    }
    match Parameter::from_string(" 1 , -2 ", "Position", read_scalar) {
        Ok(Parameter::Position(x, y)) => assert_eq!((x, y), (s(1.0), s(-2.0))),
        _ => panic!(),
    }
    match Parameter::from_string("3,0;1,0;", "PositionList", read_scalar) {
        Ok(Parameter::PositionList(list)) => {
            assert_eq!(list.0, vec![Position(s(3.0), s(0.0)), Position(s(1.0), s(0.0))])
        }
        _ => panic!(),
    }
    for (text, tag) in [
        ("1.5", "Integer"),
        ("-1", "UnsignedInteger"),
        ("True", "Boolean"),
        ("wide", "Float"),
        ("1;2", "Position"),
        ("1,x", "Position"),
        ("1,2;3,y", "PositionList"),
        ("1,2;3", "PositionList"),
    ] {
        assert_eq!(
            Parameter::from_string(text, tag, read_scalar).err(),
            Some(HardeenError::ParseError),
            "{} as {}",
            text,
            tag
        );
    }
}

#[test]
fn parameters_set_and_written() {
    let mut number = Parameter::Integer(1);
    assert_eq!(number.set("17", read_scalar), Ok(()));
    assert_eq!(number.to_string(write_scalar), "17");
    assert_eq!(number.set("seventeen", read_scalar), Err(HardeenError::ParseError));
    assert_eq!(number.to_string(write_scalar), "17");
    let mut flag = Parameter::Boolean(false);
    assert_eq!(flag.set("true", read_scalar), Ok(()));
    assert_eq!(flag.to_string(write_scalar), "true");
    let mut place = Parameter::Position(s(0.0), s(0.0));
    assert_eq!(place.set("1.5, 2", read_scalar), Ok(()));
    assert_eq!(place.to_string(write_scalar), "1.5,2");
    assert_eq!(place.set("1.5", read_scalar), Err(HardeenError::ParseError));
    assert_eq!(place.to_string(write_scalar), "1.5,2");
    let mut list = Parameter::PositionList(PositionList(Vec::new()));
    assert_eq!(list.to_string(write_scalar), "");
    assert_eq!(list.set("3,0;1,0;2,1;2,0", read_scalar), Ok(()));
    assert_eq!(list.to_string(write_scalar), "3,0;1,0;2,1;2,0;");
    let text = list.to_string(write_scalar);
    assert_eq!(list.set(&text, read_scalar), Ok(()));
    assert_eq!(list.to_string(write_scalar), text);
    let mut name = Parameter::String(String::new());
    assert_eq!(name.set("a;b,c", read_scalar), Ok(()));
    assert_eq!(name.to_string(write_scalar), "a;b,c");
    assert_eq!(Parameter::UnsignedInteger(4000000000).to_string(write_scalar), "4000000000");
    assert_eq!(Parameter::Float(s(0.25)).to_string(write_scalar), "0.25");
}
