use ion::{Element, Parser, Section, SortedMap, Value};

#[test]
fn finish_string() {
    let mut p = Parser::new("\"foObar\"");
    assert_eq!(Some("foObar"), p.value().unwrap().as_str());

    let mut p = Parser::new("\"foObar");
    assert_eq!(Some("foObar"), p.value().unwrap().as_str());

    let mut p = Parser::new("");
    assert_eq!(None, p.value());
}

#[test]
fn finish_array() {
    let mut p = Parser::new("[\"a\"");
    assert_eq!(None, p.value());

    let mut p = Parser::new("[\"a\"]");
    assert_eq!(Some(Value::new_string_array("a")), p.value());
}

#[test]
fn finish_dictionary() {
    let mut p = Parser::new("{ foo = \"bar\"");
    assert_eq!(None, p.value());

    let mut p = Parser::new("{ foo = [\"bar\"");
    assert_eq!(None, p.value());

    let mut p = Parser::new("{ foo = [\"bar\"]");
    assert_eq!(None, p.value());

    let mut p = Parser::new("{ foo = [\"bar\"] }");
    assert_eq!("{ foo = [ \"bar\" ] }", p.value().map(|d| d.to_string()).unwrap());
}

#[test]
fn slice_to_inc() {
    let mut p = Parser::new("foObar");
    assert_eq!(Some("foOb".to_string()), p.slice_to_inc('b'));
    assert_eq!(Some((4, 'a')), p.next_char());

    let mut p = Parser::new("foObar");
    assert_eq!(Some("f".to_string()), p.slice_to_inc('f'));
    assert_eq!(Some((1, 'o')), p.next_char());
}

#[test]
fn slice_to_exc() {
    let mut p = Parser::new("foObar");
    assert_eq!(Some("foO".to_string()), p.slice_to_exc('b'));
    assert_eq!(Some((4, 'a')), p.next_char());

    let mut p = Parser::new("foObar");
    assert_eq!(Some("".to_string()), p.slice_to_exc('f'));
    assert_eq!(Some((1, 'o')), p.next_char());
}

#[test]
fn slice_while() {
    let mut p = Parser::new("foObar");
    assert_eq!(Some("foO".to_string()), p.slice_while(|c| c != 'b'));
    assert_eq!(Some((3, 'b')), p.next_char());

    let mut p = Parser::new("foObar");
    assert_eq!(None, p.slice_while(|c| c != 'f'));
    assert_eq!(Some((0, 'f')), p.next_char());
}

#[test]
fn parse() {
    let raw = r#"
                [dict]
                first = "first"
                # comment
                second ="another"
                whitespace = "  "
                empty = ""
                some_bool = true

                ary = [ "col1", 2,"col3", false]

                [table]

                |abc|def|
                |---|---|
                |one|two|
                # comment
                |  1| 2 |
                |  2| 3 |

                [three]
                a=1
                B=2
                | this |
            "#;

    let mut p = Parser::new(raw);

    assert_eq!(Some(Element::Section("dict".to_owned())), p.next());
    assert_eq!(Some(Element::Entry("first".to_owned(), Value::String("first".to_owned()))), p.next());
    assert_eq!(Some(Element::Comment(" comment\n".to_owned())), p.next());
    assert_eq!(Some(Element::Entry("second".to_owned(), Value::String("another".to_owned()))), p.next());
    assert_eq!(Some(Element::Entry("whitespace".to_owned(), Value::String("  ".to_owned()))), p.next());
    assert_eq!(Some(Element::Entry("empty".to_owned(), Value::String("".to_owned()))), p.next());
    assert_eq!(Some(Element::Entry("some_bool".to_owned(), Value::Boolean(true))), p.next());
    assert_eq!(
        Some(Element::Entry(
            "ary".to_owned(),
            Value::Array(vec![
                Value::String("col1".to_owned()),
                Value::Integer(2),
                Value::String("col3".to_owned()),
                Value::Boolean(false)
            ])
        )),
        p.next()
    );

    assert_eq!(Some(Element::Section("table".to_owned())), p.next());
    assert_eq!(Some(Element::Row(vec![Value::String("abc".to_owned()), Value::String("def".to_owned())])), p.next());
    assert_eq!(Some(Element::Row(vec![Value::String("---".to_owned()), Value::String("---".to_owned())])), p.next());
    assert_eq!(Some(Element::Row(vec![Value::String("one".to_owned()), Value::String("two".to_owned())])), p.next());
    assert_eq!(Some(Element::Comment(" comment\n".to_owned())), p.next());
    assert_eq!(Some(Element::Row(vec![Value::String("1".to_owned()), Value::String("2".to_owned())])), p.next());
    assert_eq!(Some(Element::Row(vec![Value::String("2".to_owned()), Value::String("3".to_owned())])), p.next());
    assert_eq!(Some(Element::Section("three".to_owned())), p.next());
    assert_eq!(Some(Element::Entry("a".to_owned(), Value::Integer(1))), p.next());
    assert_eq!(Some(Element::Entry("B".to_owned(), Value::Integer(2))), p.next());
    assert_eq!(Some(Element::Row(vec![Value::String("this".to_owned())])), p.next());
    assert_eq!(None, p.next());
    assert_eq!(None, p.next());
}

#[test]
fn display() {
    assert_eq!(Value::String("foo".to_owned()).to_string(), "foo");
    assert_eq!(Value::Integer(1).to_string(), "1");
    assert_eq!(Value::Boolean(true).to_string(), "true");
    let ary = Value::Array(vec![Value::Integer(1), Value::String("foo".to_owned())]);
    assert_eq!(ary.to_string(), "[ 1, \"foo\" ]");
}

fn section_with(entries: Vec<(&str, Value)>, rows: Vec<Vec<&str>>) -> Section {
    let mut section = Section::new();
    for (k, v) in entries {
        section.dictionary.insert(k.to_owned(), v);
    }
    for row in rows {
        section.rows.push(row.into_iter().map(|c| Value::String(c.to_string())).collect());
    }
    section
}

#[test]
fn parser_then_returns_dictionary() {
    let raw = r#"
                            foo = "bar"
                        "#;
    let mut p = Parser::new(raw);

    let actual = p.read().expect("Read failed");

    let mut expected = SortedMap::new();
    let mut section = Section::new();
    section.dictionary.insert("foo".to_owned(), Value::String("bar".to_owned()));
    expected.insert("root".to_owned(), section);
    assert_eq!(expected, actual);
}

#[test]
fn parser_then_returns_dictionary_with_array() {
    let raw = r#"
                            arr = ["WAW", "WRO"]
                        "#;
    let mut p = Parser::new(raw);

    let actual = p.read().expect("Read failed");

    let mut expected = SortedMap::new();
    let mut section = Section::new();
    let array = vec![Value::String("WAW".to_owned()), Value::String("WRO".to_owned())];
    section.dictionary.insert("arr".to_owned(), Value::Array(array));
    expected.insert("root".to_owned(), section);
    assert_eq!(expected, actual);
}

#[test]
fn parser_then_returns_dictionary_with_dictionary() {
    let raw = r#"
                            ndict = { foo = "bar" }
                        "#;
    let mut p = Parser::new(raw);

    let actual = p.read().expect("Read failed");

    let mut expected = SortedMap::new();
    let mut section = Section::new();
    let mut dict = SortedMap::new();
    dict.insert("foo".to_owned(), Value::String("bar".to_owned()));
    section.dictionary.insert("ndict".to_owned(), Value::Dictionary(dict));
    expected.insert("root".to_owned(), section);
    assert_eq!(expected, actual);
}

#[test]
fn parser_then_returns_dictionary_with_new_lines() {
    let raw = r#"
                            R75042 = {
                            view = "SV"
                            loc  = ["M", "B"]
                            dist = { beach_km = 4.1 }
                        }"#;
    let mut p = Parser::new(raw);

    let actual = p.read().expect("Read failed");

    let mut expected = SortedMap::new();
    let mut sect = Section::new();
    let mut dict = SortedMap::new();
    dict.insert("view".to_owned(), Value::String("SV".to_owned()));
    let array = vec![Value::String("M".to_owned()), Value::String("B".to_owned())];
    dict.insert("loc".to_owned(), Value::Array(array));
    let mut dict_dict = SortedMap::new();
    dict_dict.insert("beach_km".to_owned(), Value::Float("4.1".to_owned()));
    dict.insert("dist".to_owned(), Value::Dictionary(dict_dict));
    sect.dictionary.insert("R75042".to_owned(), Value::Dictionary(dict));
    expected.insert("root".to_owned(), sect);
    assert_eq!(expected, actual);
}

#[test]
fn then_returns_error() {
    let raw = r#"
                            key =
                        "#;
    let mut p = Parser::new(raw);

    let actual = p.read();

    assert_eq!(None, actual);
    assert!(!p.errors().is_empty());
}

#[test]
fn then_returns_array() {
    let raw = r#"
                            |1|2|
                            |3|
                        "#;
    let mut p = Parser::new(raw);

    let actual = p.read().expect("Read failed");

    let mut expected = SortedMap::new();
    expected.insert("root".to_owned(), section_with(vec![], vec![vec!["1", "2"], vec!["3"]]));
    assert_eq!(expected, actual);
}

#[test]
fn then_returns_array_with_empty_strings_on_empty_cells() {
    let raw = r#"
                            |1||2|
                            |3|   |
                        "#;
    let mut p = Parser::new(raw);

    let actual = p.read().expect("Read failed");

    let mut expected = SortedMap::new();
    expected.insert("root".to_owned(), section_with(vec![], vec![vec!["1", "", "2"], vec!["3", ""]]));
    assert_eq!(expected, actual);
}

#[test]
fn then_returns_section() {
    let raw = r#"
                            [SECTION]

                            key = "value"
                            # now a table
                            | col1 | col2|
                            | col1 | col2| # comment
                            | col1 | col2|
                        "#;

    let expected = {
        let mut map = SortedMap::new();
        let mut section = Section::new();
        section.dictionary.insert("key".to_owned(), Value::String("value".to_owned()));
        let mut row = Vec::new();
        row.push(Value::String("col1".to_owned()));
        row.push(Value::String("col2".to_owned()));
        section.rows.push(row.clone());
        section.rows.push(row.clone());
        section.rows.push(row);
        map.insert("SECTION".to_owned(), section);
        map
    };

    let mut p = Parser::new(raw);
    assert_eq!(expected, p.read().unwrap());
}

#[test]
fn then_returns_last_occurance_of_section() {
    let raw = r#"
                            [SECTION]
                            1key = "1value"
                            | 1col1 | 1col2|
                            [SECTION]
                            2key = "2value"
                            | 2col1 | 2col2|
                        "#;
    let mut p = Parser::new(raw);

    let actual = p.read().expect("Read failed");

    let mut expected = SortedMap::new();
    let section = section_with(
        vec![("2key", Value::String("2value".to_owned()))],
        vec![vec!["2col1", "2col2"]],
    );
    expected.insert("SECTION".to_owned(), section);
    assert_eq!(expected, actual);
}

fn accepted_only(key: &str, value: &str, cells: Vec<&str>) -> SortedMap<Section> {
    let mut expected = SortedMap::new();
    let section = section_with(vec![(key, Value::String(value.to_owned()))], vec![cells]);
    expected.insert("ACCEPTED".to_owned(), section);
    expected
}

#[test]
fn parser_then_returns_nothing() {
    let raw = r#"
                            nkey = "nvalue"
                            | ncol1 | ncol2 |
                        "#;
    let mut p = Parser::new_filtered(raw, vec!["ACCEPTED"]);

    let actual = p.read().expect("Read failed");

    let expected = SortedMap::new();
    assert_eq!(expected, actual);
}

#[test]
fn parser_then_returns_accepted_section() {
    let raw = r#"
                            nkey = "nvalue"
                            | ncol1 | ncol2 |
                            [ACCEPTED]
                            key = "value"
                            | col1 | col2|
                        "#;
    let mut p = Parser::new_filtered(raw, vec!["ACCEPTED"]);

    let actual = p.read().expect("Read failed");

    assert_eq!(accepted_only("key", "value", vec!["col1", "col2"]), actual);
}

#[test]
fn parser_then_returns_nothing_after_filtered_section() {
    let raw = r#"
                            nkey = "nvalue"
                            | ncol1 | ncol2 |
                            [FILTERED]
                            key = "value"
                            | col1 | col2|
                        "#;
    let mut p = Parser::new_filtered(raw, vec!["ACCEPTED"]);

    let actual = p.read().expect("Read failed");

    let expected = SortedMap::new();
    assert_eq!(expected, actual);
}

#[test]
fn parser_then_returns_accepted_section_alone() {
    let raw = r#"
                            [ACCEPTED]
                            key = "value"
                            | col1 | col2|
                        "#;
    let mut p = Parser::new_filtered(raw, vec!["ACCEPTED"]);

    let actual = p.read().expect("Read failed");

    assert_eq!(accepted_only("key", "value", vec!["col1", "col2"]), actual);
}

#[test]
fn parser_then_returns_accepted_section_before_filtered() {
    let raw = r#"
                            [ACCEPTED]
                            key = "value"
                            | col1 | col2|
                            [FILTERED]
                            fkey = "fvalue"
                            | fcol1 | fcol2|
                        "#;
    let mut p = Parser::new_filtered(raw, vec!["ACCEPTED"]);

    let actual = p.read().expect("Read failed");

    assert_eq!(accepted_only("key", "value", vec!["col1", "col2"]), actual);
}

#[test]
fn parser_then_returns_first_occurance_of_accepted_section() {
    let raw = r#"
                                [ACCEPTED]
                                1key = "1value"
                                | 1col1 | 1col2|
                                [ACCEPTED]
                                2key = "2value"
                                | 2col1 | 2col2|
                            "#;
    let mut p = Parser::new_filtered(raw, vec!["ACCEPTED"]);

    let actual = p.read().expect("Read failed");

    assert_eq!(accepted_only("1key", "1value", vec!["1col1", "1col2"]), actual);
}

#[test]
fn parser_then_returns_first_occurance_of_accepted_section_among_others() {
    let raw = r#"
                                [ACCEPTED]
                                1key = "1value"
                                | 1col1 | 1col2|
                                [ACCEPTED]
                                2key = "2value"
                                | 2col1 | 2col2|
                            "#;
    let mut p = Parser::new_filtered(raw, vec!["ACCEPTED", "ANOTHER"]);

    let actual = p.read().expect("Read failed");

    assert_eq!(accepted_only("1key", "1value", vec!["1col1", "1col2"]), actual);
}

#[test]
fn parser_then_returns_nothing_for_filtered_section() {
    let raw = r#"
                            [FILTERED]
                            key = "value"
                            | col1 | col2|
                        "#;
    let mut p = Parser::new_filtered(raw, vec!["ACCEPTED"]);

    let actual = p.read().expect("Read failed");

    let expected = SortedMap::new();
    assert_eq!(expected, actual);
}

#[test]
fn parser_then_returns_accepted_section_after_filtered() {
    let raw = r#"
                            [FILTERED]
                            fkey = "fvalue"
                            | fcol1 | fcol2|
                            [ACCEPTED]
                            key = "value"
                            | col1 | col2|
                        "#;
    let mut p = Parser::new_filtered(raw, vec!["ACCEPTED"]);

    let actual = p.read().expect("Read failed");

    assert_eq!(accepted_only("key", "value", vec!["col1", "col2"]), actual);
}

#[test]
fn next_stays_done_once_every_accepted_section_is_read() {
    let mut p = Parser::new_filtered("[A]\nx = 1\n[B]\ny = 2\n", vec!["A"]);
    assert_eq!(Some(Element::Section("A".to_owned())), p.next());
    assert_eq!(Some(Element::Entry("x".to_owned(), Value::Integer(1))), p.next());
    assert_eq!(None, p.next());
    assert_eq!(None, p.next());
    assert!(p.errors().is_empty());
}
