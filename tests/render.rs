use ion::{Ion, IonError, Parser, Value};

fn render(text: &str) -> String {
    text.parse::<Ion>().expect("parse").to_string()
}

#[test]
fn nested_dictionary_renders_sorted() {
    let out = render("R75042 = { view = \"SV\", loc = [\"M\",\"B\"], dist = { beach_km = 4.1 } }\n");
    assert_eq!(
        "[root]\nR75042 = { dist = { beach_km = 4.1 }, loc = [ \"M\", \"B\" ], view = \"SV\" }\n\n",
        out
    );
}

#[test]
fn render_then_parse_is_a_fixed_point() {
    let text = r#"
        b = 2
        a = "x y"
        f = 04.50
        g = 4.0
        arr = [ 1, "two", [ "three" ], { k = "v" }, true ]
        [sec]
        | a | b |
        |---|---|
        |  c |   |
        # comment
        z = { n = 1, m = "s" }
        [other]
        |x|
    "#;
    let once = render(text);
    let twice = render(&once);
    let thrice = render(&twice);
    assert_eq!(once, twice);
    assert_eq!(twice, thrice);
}

#[test]
fn float_is_held_in_canonical_form() {
    let mut p = Parser::new("004.100");
    assert_eq!(Some(Value::Float("4.1".to_string())), p.value());
    let mut p = Parser::new("0.0");
    assert_eq!(Some(Value::Float("0".to_string())), p.value());
    let mut p = Parser::new("12.");
    assert_eq!(None, p.value());
}

#[test]
fn integer_range() {
    let mut p = Parser::new("9223372036854775807");
    assert_eq!(Some(Value::Integer(i64::MAX)), p.value());
    let mut p = Parser::new("9223372036854775808");
    assert_eq!(None, p.value());
    assert_eq!(Value::Integer(i64::MIN).to_string(), "-9223372036854775808");
    assert_eq!(Value::Integer(-42).to_string(), "-42");
}

#[test]
fn unterminated_array_reports_end_of_input() {
    let text = "key = [ \"a\", \"b\"";
    match text.parse::<Ion>() {
        Err(IonError::ParserErrors(errs)) => {
            assert_eq!(1, errs.len());
            assert_eq!(text.len(), errs[0].lo);
            assert_eq!(text.len(), errs[0].hi);
            assert_eq!("Cannot finish an array", errs[0].desc);
        }
        other => panic!("unexpected {:?}", other),
    }
}

#[test]
fn unterminated_dictionary_reports_end_of_input() {
    let text = "key = { a = 1";
    match text.parse::<Ion>() {
        Err(IonError::ParserErrors(errs)) => {
            assert_eq!(1, errs.len());
            assert_eq!(text.len(), errs[0].lo);
            assert_eq!("Cannot finish a dictionary", errs[0].desc);
        }
        other => panic!("unexpected {:?}", other),
    }
}

#[test]
fn missing_value_points_at_the_character() {
    let text = "x = \"é\"\nkey = @";
    match text.parse::<Ion>() {
        Err(IonError::ParserErrors(errs)) => {
            assert_eq!(1, errs.len());
            assert_eq!(text.len() - 1, errs[0].lo);
            assert_eq!(text.len(), errs[0].hi);
            assert_eq!("expected a value", errs[0].desc);
        }
        other => panic!("unexpected {:?}", other),
    }
}

#[test]
fn bad_key_records_an_error() {
    match "[a]\n@@@ = 1\n".parse::<Ion>() {
        Err(IonError::ParserErrors(errs)) => {
            assert_eq!(1, errs.len());
            assert_eq!(4, errs[0].lo);
            assert_eq!(5, errs[0].hi);
            assert_eq!("expected a key", errs[0].desc);
        }
        other => panic!("unexpected {:?}", other),
    }
}

fn single_error(text: &str) -> ion::ParserError {
    match text.parse::<Ion>() {
        Err(IonError::ParserErrors(errs)) => {
            assert_eq!(1, errs.len());
            errs[0].clone()
        }
        other => panic!("unexpected {:?}", other),
    }
}

#[test]
fn missing_equals_records_an_error() {
    let e = single_error("[A]\nx 1\n");
    assert_eq!((6, 7), (e.lo, e.hi));
    assert_eq!("expected `=`", e.desc);
}

#[test]
fn bad_literal_records_an_error() {
    let e = single_error("[A]\nx = tru\n");
    assert_eq!((8, 9), (e.lo, e.hi));
    assert_eq!("expected a value", e.desc);
    let mut p = Parser::new("tru");
    assert_eq!(None, p.value());
    assert_eq!(1, p.errors().len());
    assert_eq!((0, 1), (p.errors()[0].lo, p.errors()[0].hi));
}

#[test]
fn bad_numbers_record_an_error() {
    let e = single_error("x = 12.\n");
    assert_eq!((4, 5), (e.lo, e.hi));
    let e = single_error("x = 9223372036854775808\n");
    assert_eq!((4, 5), (e.lo, e.hi));
    let e = single_error("x = \"");
    assert_eq!((4, 5), (e.lo, e.hi));
}

#[test]
fn read_fails_exactly_when_errors_are_recorded() {
    for text in ["[A]\nx = 1\n", "[A]\nx = tru\n", "x = [1", "|a|b|\n[B]\n"] {
        let mut p = Parser::new(text);
        let r = p.read();
        assert_eq!(r.is_none(), !p.errors().is_empty());
    }
}

#[test]
fn root_content_before_header_is_kept() {
    let ion: Ion = "x = 1\n[a]\ny = 2\n".parse().unwrap();
    assert_eq!(Some(1), ion.get("root").unwrap().get("x").unwrap().as_integer());
    assert_eq!(Some(2), ion.get("a").unwrap().get("y").unwrap().as_integer());
    let ion: Ion = "[a]\ny = 2\n".parse().unwrap();
    assert!(ion.get("root").is_none());
    let ion: Ion = "".parse().unwrap();
    assert!(ion.get("root").is_some());
}

#[test]
fn duplicate_keys_keep_the_last_value() {
    let ion: Ion = "[a]\nk = 1\nk = 2\n".parse().unwrap();
    assert_eq!(Some(2), ion.get("a").unwrap().get("k").unwrap().as_integer());
}

#[test]
fn type_names() {
    assert_eq!("string", Value::new_string("x").type_str());
    assert_eq!("integer", Value::Integer(3).type_str());
    assert_eq!("float", Value::Float("1.5".to_string()).type_str());
    assert_eq!("boolean", Value::Boolean(false).type_str());
    assert_eq!("array", Value::new_string_array("x").type_str());
}

#[test]
fn filtered_empty_list_reads_nothing() {
    let ion = Ion::from_str_filtered("[a]\nx = 1\n", vec![]).unwrap();
    assert!(ion.get("a").is_none());
}

#[test]
fn cell_runs_to_next_pipe_and_is_trimmed() {
    let ion: Ion = "|a\u{a0} \n|b|".parse().unwrap();
    let rows = &ion.get("root").unwrap().rows;
    assert_eq!(1, rows.len());
    assert_eq!(vec![Value::new_string("a"), Value::new_string("b")], rows[0]);
}

#[test]
fn whole_float_beyond_i64_does_not_read_back() {
    let once = render("x = 99999999999999999999.0\n");
    assert_eq!("[root]\nx = 99999999999999999999\n\n", once);
    assert!(once.parse::<Ion>().is_err());
}

#[test]
fn whole_float_reads_back_as_integer_with_same_text() {
    let once = render("x = 4.0\n");
    assert_eq!("[root]\nx = 4\n\n", once);
    let ion: Ion = once.parse().unwrap();
    assert_eq!(Some(4), ion.get("root").unwrap().get("x").unwrap().as_integer());
    assert_eq!(once, ion.to_string());
}
