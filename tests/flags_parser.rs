use rusty_atlas::flags_parser::{
    boolean_parser, data_format_parser, extract_flag_and_parse, int_parser, list_parser,
    parse_args, parse_string_to_raw_flags, resolution_parser, DataFormat, ParseError, RawFlag,
};

fn args(list: &[&str]) -> Vec<String> {
    list.iter().map(|s| String::from(*s)).collect()
}

#[test]
fn flags_parser_parse_long_form() {
    let result = parse_string_to_raw_flags(vec![String::from("--test=lol.,j")]).unwrap();

    assert_eq!(result.len(), 1);
    if let RawFlag::LongForm(flag, value) = result.first().unwrap() {
        assert_eq!(flag, "test");
        assert_eq!(value, "lol.,j");
    } else {
        panic!("expected a long form");
    }
}

#[test]
fn flags_parser_parse_boolean_short_form() {
    let result = parse_string_to_raw_flags(vec![String::from("-f")]).unwrap();

    assert_eq!(result.len(), 1);
    if let RawFlag::BooleanShortForm(flag) = result.first().unwrap() {
        assert_eq!(flag, "f");
    } else {
        panic!("expected a boolean short form");
    }
}

#[test]
fn flags_parser_parse_short_form() {
    let result = parse_string_to_raw_flags(vec![String::from("-f"), String::from("./test.txt")]).unwrap();

    assert_eq!(result.len(), 1);
    if let RawFlag::ShortForm(flag, value) = result.first().unwrap() {
        assert_eq!(flag, "f");
        assert_eq!(value, "./test.txt");
    } else {
        panic!("expected a short form");
    }
}

#[test]
fn flags_parser_return_invalid_argument_order() {
    let result = parse_string_to_raw_flags(vec![String::from("--file=lol"), String::from("./test.txt")]);

    assert!(result.is_err())
}

#[test]
fn return_error_if_cannot_extract_flag_and_no_default_value() {
    let raw_flags = vec![RawFlag::LongForm(String::from("verbosity"), String::from("true"))];

    let result = extract_flag_and_parse(&raw_flags, "t", "test", None, boolean_parser);
    assert!(result.is_err(), "should not find flag")
}

#[test]
fn return_default_value_if_cannot_extract_flag_and_some_default_value() {
    let raw_flags = vec![RawFlag::LongForm(String::from("verbosity"), String::from("true"))];

    let result = extract_flag_and_parse(&raw_flags, "t", "test", Some(true), boolean_parser);
    assert_eq!(result.unwrap(), true);
}

fn bad_parser(_: String) -> Result<bool, ParseError> {
    Err(ParseError::Basic)
}

#[test]
fn return_error_if_parser_error_and_no_default_value() {
    let raw_flags = vec![RawFlag::LongForm(String::from("test1"), String::from("true"))];
    let result = extract_flag_and_parse(&raw_flags, "t", "test1", None, bad_parser);
    assert!(result.is_err())
}

#[test]
fn return_ok_if_parser_long_form_ok_and_no_default_value() {
    let raw_flags = vec![RawFlag::LongForm(String::from("verbosity"), String::from("true"))];

    let result = extract_flag_and_parse(&raw_flags, "v", "verbosity", None, boolean_parser);
    assert!(result.unwrap())
}

#[test]
fn return_ok_if_parser_short_form_ok_and_no_default_value() {
    let raw_flags = vec![RawFlag::ShortForm(String::from("v"), String::from("true"))];

    let result = extract_flag_and_parse(&raw_flags, "v", "verbosity", None, boolean_parser);
    assert!(result.unwrap())
}

#[test]
fn boolean_parser_test() {
    let result = boolean_parser(String::from("true")).unwrap();
    assert_eq!(result, true);
    let result = boolean_parser(String::from("false")).unwrap();
    assert_eq!(result, false);
    let error = boolean_parser(String::from("True"));
    assert!(error.is_err())
}

#[test]
fn list_parser_test() {
    let result = list_parser(String::from("[./dibil.com, allo.me]")).unwrap();
    assert_eq!(result.first().unwrap(), &String::from("./dibil.com"));
    assert_eq!(result.last().unwrap(), &String::from("allo.me"))
}

#[test]
fn int_parser_test() {
    let result = int_parser(String::from("wes"));
    assert!(result.is_err());
    let result = int_parser(String::from("42"));
    assert!(result.is_ok());
    assert_eq!(result.unwrap(), 42)
}

#[test]
fn data_format_parser_test() {
    assert_eq!(data_format_parser(String::from("json")).unwrap(), DataFormat::Json);
    assert_eq!(data_format_parser(String::from("xml")).unwrap(), DataFormat::Xml);
    assert_eq!(data_format_parser(String::from("xmjl")).is_err(), true);
}

#[test]
fn resolution_parser_test() {
    assert_eq!(resolution_parser(String::from("123,453")).unwrap(), (123, 453));
    assert_eq!(resolution_parser(String::from("rre,123")).is_err(), true);
    assert_eq!(resolution_parser(String::from("true")).is_err(), true);
}

#[test]
fn int_parser_edges() {
    assert_eq!(int_parser(String::from("-2147483648")).unwrap(), i32::MIN);
    assert_eq!(int_parser(String::from("2147483647")).unwrap(), i32::MAX);
    assert_eq!(int_parser(String::from("+7")).unwrap(), 7);
    assert_eq!(int_parser(String::from("-0")).unwrap(), 0);
    assert!(matches!(int_parser(String::from("2147483648")), Err(ParseError::IntParsingFailed(s)) if s == "2147483648"));
    assert!(int_parser(String::from("99999999999999999999")).is_err());
    assert!(int_parser(String::from("")).is_err());
    assert!(int_parser(String::from("-")).is_err());
    assert!(int_parser(String::from("1 ")).is_err());
}

#[test]
fn parser_errors_carry_the_input() {
    assert!(matches!(boolean_parser(String::from("yes")), Err(ParseError::BooleanParsingFailed(s)) if s == "yes"));
    assert!(matches!(data_format_parser(String::from("yaml")), Err(ParseError::DataFormatParsingFailed(s)) if s == "yaml"));
    assert!(matches!(list_parser(String::from("[ ]")), Err(ParseError::EmptyListError(s)) if s == "[ ]"));
    assert!(matches!(resolution_parser(String::from("1,2,3")), Err(ParseError::Basic)));
    assert!(matches!(resolution_parser(String::from("1,x")), Err(ParseError::IntParsingFailed(s)) if s == "x"));
}

#[test]
fn list_parser_keeps_every_item() {
    assert_eq!(list_parser(String::from("[a,b , c]")).unwrap(), vec!["a", "b", "c"]);
    assert_eq!(list_parser(String::from("one")).unwrap(), vec!["one"]);
    assert_eq!(list_parser(String::from("[a,]")).unwrap(), vec!["a", ""]);
}

#[test]
fn long_form_matches_anywhere_and_stops_at_whitespace() {
    let flags = parse_string_to_raw_flags(args(&["x--name=v w"])).unwrap();
    assert!(matches!(&flags[0], RawFlag::LongForm(n, v) if n == "name" && v == "v"));
    let flags = parse_string_to_raw_flags(args(&["--na-me=v"])).unwrap();
    assert!(matches!(&flags[0], RawFlag::BooleanShortForm(n) if n == ""));
    let flags = parse_string_to_raw_flags(args(&["-größe"])).unwrap();
    assert!(matches!(&flags[0], RawFlag::BooleanShortForm(n) if n == "größe"));
}

#[test]
fn value_of_flags() {
    let flags = parse_string_to_raw_flags(args(&["-a", "1", "--b=2", "-c"])).unwrap();
    let values: Vec<String> = flags.iter().map(|f| f.value()).collect();
    assert_eq!(values, vec!["1", "2", "true"]);
}

#[test]
fn parse_args_reads_every_setting() {
    let flags = parse_args(args(&[
        "-v",
        "--padding=4",
        "-bg",
        "#ffffff",
        "--data_format=xml",
        "-f",
        "out.png",
        "--image_resolution=32,64",
        "--images=[a.png,b.png]",
    ]))
    .unwrap();
    assert!(flags.verbosity);
    assert_eq!(flags.padding, 4);
    assert_eq!(flags.background_color, "#ffffff");
    assert_eq!(flags.data_format, Some(DataFormat::Xml));
    assert_eq!(flags.filename, "out.png");
    assert_eq!(flags.image_resolution, (32, 64));
    assert_eq!(flags.images, vec!["a.png", "b.png"]);
}

#[test]
fn parse_args_uses_defaults() {
    let flags = parse_args(args(&["-df", "json", "-f", "o.png", "-ir", "1,1", "-i", "a.png"])).unwrap();
    assert!(!flags.verbosity);
    assert_eq!(flags.padding, 1);
    assert_eq!(flags.background_color, "#000000");
    assert_eq!(flags.data_format, Some(DataFormat::Json));
}

#[test]
fn parse_args_reports_the_first_failure() {
    let missing = parse_args(args(&["-df", "json", "-ir", "1,1"])).err().unwrap();
    assert!(matches!(missing, ParseError::FlagNotFound(n) if n == "filename"));
    let bad = parse_args(args(&["--padding=x", "-df", "json"])).err().unwrap();
    assert!(matches!(bad, ParseError::FlagParserError(n, _) if n == "padding"));
    let tokens = parse_args(args(&["program"])).err().unwrap();
    assert!(matches!(tokens, ParseError::TokenParsingFailed(e) if matches!(*e, ParseError::InvalidArgumentOrder(ref t) if t == "program")));
}

#[test]
fn error_messages() {
    let nested = ParseError::FlagParserError(
        String::from("padding"),
        Box::new(ParseError::IntParsingFailed(String::from("x"))),
    );
    assert_eq!(nested.message(), "Wasn't able to parse flag `padding`, Provided string(x) was not an integer");
    assert_eq!(ParseError::FlagNotFound(String::from("images")).message(), "Didn't find required flag `images`");
    assert_eq!(
        ParseError::TokenParsingFailed(Box::new(ParseError::InvalidArgumentOrder(String::from("a")))).message(),
        "Parsing command line string to tokens failed: Invalid argument order for `a`"
    );
    assert_eq!(ParseError::DataFormatParsingFailed(String::from("y")).message(), "Provided string(y) was not `json` or `xml`");
    assert_eq!(ParseError::EmptyListError(String::from("[]")).message(), "Provided list of values([]) was empty");
    assert_eq!(ParseError::Basic.message(), "Not implemented yet");
}
