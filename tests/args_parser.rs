use rusty_atlas::args_parser::{parse_arguments, parse_rec, Argument, ParseError};

#[test]
fn args_parser_parse_long_form() {
    let result = parse_rec(vec![String::from("--test=lol.,j")]).unwrap();

    assert_eq!(result.len(), 1);
    if let Argument::LongForm(flag, value) = result.first().unwrap() {
        assert_eq!(flag, "test");
        assert_eq!(value, "lol.,j");
    } else {
        panic!("expected a long form");
    }
}

#[test]
fn args_parser_parse_boolean_short_form() {
    let result = parse_rec(vec![String::from("-f")]).unwrap();

    assert_eq!(result.len(), 1);
    if let Argument::BooleanShortForm(flag) = result.first().unwrap() {
        assert_eq!(flag, "f");
    } else {
        panic!("expected a boolean short form");
    }
}

#[test]
fn args_parser_parse_short_form() {
    let result = parse_rec(vec![String::from("-f"), String::from("./test.txt")]).unwrap();

    assert_eq!(result.len(), 1);
    if let Argument::ShortForm(flag, value) = result.first().unwrap() {
        assert_eq!(flag, "f");
        assert_eq!(value, "./test.txt")
    } else {
        panic!("expected a short form");
    }
}

#[test]
fn args_parser_return_invalid_argument_order() {
    let result = parse_rec(vec![String::from("--file=lol"), String::from("./test.txt")]).err().unwrap();

    if let ParseError::InvalidArgumentOrder(_) = result {
    } else {
        panic!("shouldBe InvalidArgumentError")
    }
}

#[test]
fn invalid_order_names_the_token_and_fallback() {
    let result = parse_rec(vec![String::from("--file=lol"), String::from("./test.txt")]).err().unwrap();
    let ParseError::InvalidArgumentOrder(text) = result;
    assert_eq!(text, "Invalid token `./test.txt` after `exec`");
}

#[test]
fn invalid_order_names_the_flag_before_the_last() {
    let result = parse_rec(vec![
        String::from("-a"),
        String::from("x"),
        String::from("--b=1"),
        String::from("y"),
    ])
    .err()
    .unwrap();
    let ParseError::InvalidArgumentOrder(text) = result;
    assert_eq!(text, "Invalid token `y` after `a`");
}

#[test]
fn argument_flag_names() {
    let args = parse_rec(vec![String::from("-x"), String::from("v"), String::from("--long=2"), String::from("-q")]).unwrap();
    let names: Vec<&String> = args.iter().map(|a| a.flag()).collect();
    assert_eq!(names, vec!["x", "long", "q"]);
}

#[test]
fn parse_arguments_gives_default_folder() {
    assert_eq!(parse_arguments(vec![String::from("-f")]).folder, "./whatever");
}
