use ion::{FromIon, Ion, IonError, Section, SortedMap, Value, Writer};
use quickcheck::TestResult;
use regex::Regex;

fn ion(raw: &str) -> Ion {
    raw.parse::<Ion>().expect("Failed parsing to 'Ion'")
}

fn ion_filtered(raw: &str, accepted: Vec<&str>) -> Ion {
    Ion::from_str_filtered(raw, accepted).expect("Failed parsing by 'from_str_filtered' to 'Ion'")
}

#[test]
fn as_string() {
    let v = Value::String("foo".into());
    assert_eq!(Some(&"foo".to_string()), v.as_string());
    let v = Value::Integer(1);
    assert_eq!(None, v.as_string());
}

#[test]
fn as_boolean() {
    let v = Value::Boolean(true);
    assert_eq!(Some(true), v.as_boolean());
    let v = Value::Integer(1);
    assert_eq!(None, v.as_boolean());
}

#[test]
fn as_integer() {
    let v = Value::Integer(1);
    assert_eq!(Some(1), v.as_integer());
    let v = Value::String("foo".into());
    assert_eq!(None, v.as_integer());
}

#[test]
fn as_str() {
    let v = Value::String("foo".into());
    assert_eq!(Some("foo"), v.as_str());
    let v = Value::Integer(1);
    assert_eq!(None, v.as_str());
}

#[test]
fn row_without_header() {
    let ion = ion(
        r#"
            [FOO]
            |1||2|
            |1|   |2|
            |1|2|3|
        "#,
    );

    let rows = ion.get("FOO").unwrap().rows_without_header();
    assert!(rows.len() == 3);
}

#[test]
fn row_with_header() {
    let ion = ion(
        r#"
            [FOO]
            | 1 | 2 | 3 |
            |---|---|---|
            |1||2|
            |1|   |2|
        "#,
    );

    let rows = ion.get("FOO").unwrap().rows_without_header();
    assert!(rows.len() == 2);
}

#[test]
fn no_rows_with_header() {
    let ion = ion(
        r#"
            [FOO]
            | 1 | 2 | 3 |
            |---|---|---|
        "#,
    );

    let rows = ion.get("FOO").unwrap().rows_without_header();
    assert_eq!(0, rows.len());
}

#[test]
fn filtered_section() {
    let ion = ion_filtered(
        r#"
            [FOO]
            |1||2|
            |1|   |2|
            |1|2|3|
            [BAR]
            |1||2|
        "#,
        vec!["FOO"],
    );

    let rows = ion.get("FOO").unwrap().rows_without_header();
    assert_eq!(3, rows.len());
    assert!(ion.get("BAR").is_none());
}

fn collect<T>(mut it: ion::IntoIter<T>) -> Vec<T> {
    let mut out = Vec::new();
    while let Some(x) = it.next() {
        out.push(x);
    }
    out
}

#[test]
fn it_works_on_ref_section() {
    let ion = ion(
        r#"
                    [FOO]
                    |1||2|
                    |1|   |2|
                    |1|2|3|
                    "#,
    );

    let section: &Section = ion.get("FOO").unwrap();
    let rows: Vec<_> = collect(section.iter_rows());
    assert_eq!(3, rows.len());
}

#[test]
fn it_works_on_section_by_value() {
    let mut ion = ion(
        r#"
                    [FOO]
                    |1||2|
                    |1|   |2|
                    |1|2|3|
                    "#,
    );

    let section: Section = ion.remove("FOO").unwrap();
    let rows: Vec<_> = collect(section.into_iter());
    assert_eq!(3, rows.len());
}

#[test]
fn it_works_with_loop() {
    let mut ion = ion(
        r#"
                    [FOO]
                    |1||2|
                    |1|   |2|
                    |1|2|3|
                    "#,
    );

    let section: Section = ion.remove("FOO").unwrap();
    let mut rows = Vec::new();
    let mut it = section.into_iter();
    while let Some(row) = it.next() {
        rows.push(row);
    }
    assert_eq!(3, rows.len());
}

#[test]
fn it_works_with_section_by_value() {
    let mut ion = ion(
        r#"
                    [FOO]
                    | 1 | 2 | 3 |
                    |---|---|---|
                    |1||2|
                    |1|   |2|
                    |1|2|3|
                    "#,
    );

    let section: Section = ion.remove("FOO").unwrap();
    let rows: Vec<_> = collect(section.into_iter());

    assert_eq!(3, rows.len());
}

fn is_input_string_invalid(s: &str) -> bool {
    let disallowed_cell_contents: Regex = Regex::new("[\n \t\r|]|^-+$").expect("regex");

    disallowed_cell_contents.is_match(s)
}

fn header_rows_for_any_cell(item: String) -> TestResult {
    if is_input_string_invalid(item.as_str()) {
        return TestResult::discard();
    }

    let ion_str = format!(
        r#"
                [FOO]
                |head1|head2|head3|
                |-----|-----|-----|
                |{item}|{item}|{item}|
                |{item}|{item}|{item}|
                |{item}|{item}|{item}|
                "#,
        item = item
    );

    let ion = ion_str.parse::<Ion>().expect("Format ion");

    let section = ion.get("FOO").expect("Get section");

    TestResult::from_bool(3 == section.rows_without_header().len())
}

fn plain_rows_for_any_cell(item: String) -> TestResult {
    if is_input_string_invalid(item.as_str()) {
        return TestResult::discard();
    }

    let ion_str = format!(
        r#"
                [FOO]
                |{item}|{item}|{item}|
                |{item}|{item}|{item}|
                |{item}|{item}|{item}|
                "#,
        item = item
    );

    let ion = ion_str.parse::<Ion>().expect("Format ion");

    let section = ion.get("FOO").expect("Get section");

    TestResult::from_bool(3 == section.rows_without_header().len())
}

#[test]
fn works_for_any_arbitrary_cell_contents_with_headers() {
    quickcheck::quickcheck(header_rows_for_any_cell as fn(String) -> TestResult);
}

#[test]
fn works_for_any_arbitrary_cell_contents_without_headers() {
    quickcheck::quickcheck(plain_rows_for_any_cell as fn(String) -> TestResult);
}

#[test]
fn section_cell_content_can_start_with_hyphen() {
    let ion = ion(
        r#"
                [FOO]
                |head1|head2|head3|
                |-----|-----|-----|
                | -3  | emp | a   |
                | -3  | -b  | b   |
                | -3  | b   | -b  |
                "#,
    );

    let section = ion.get("FOO").expect("Get section");

    assert_eq!(3, section.rows_without_header().len())
}

#[test]
fn section_cell_content_can_be_empty() {
    let ion = ion(
        r#"
                [FOO]
                |head1|head2|head3|
                |-----|-----|-----|
                |     | emp | a   |
                |     |     | b   |
                |     | b   |     |
                "#,
    );

    let section = ion.get("FOO").expect("Get section");

    assert_eq!(3, section.rows_without_header().len())
}

#[test]
fn section_section_can_have_no_content_rows() {
    let ion = ion(
        r#"
                [FOO]
                |head1|head2|head3|
                |-----|-----|-----|
                "#,
    );

    let section = ion.get("FOO").expect("Get section");

    assert_eq!(0, section.rows_without_header().len())
}

#[test]
fn section_cell_content_can_start_with_hyphen_without_headers() {
    let ion = ion(
        r#"
                [FOO]
                | -3  | emp | a   |
                | -3  | -b  | b   |
                | -3  | b   | -b  |
                "#,
    );

    let section = ion.get("FOO").expect("Get section");

    assert_eq!(3, section.rows_without_header().len())
}

#[test]
fn section_cell_content_can_be_empty_without_headers() {
    let ion = ion(
        r#"
                [FOO]
                |     | emp | a   |
                |     |     | b   |
                |     | b   |     |
                "#,
    );

    let section = ion.get("FOO").expect("Get section");

    assert_eq!(3, section.rows_without_header().len())
}

#[test]
fn section_section_can_have_no_content_rows_without_headers() {
    let ion = ion(
        r#"
                [FOO]
                "#,
    );

    let section = ion.get("FOO").expect("Get section");

    assert_eq!(0, section.rows_without_header().len())
}

#[test]
fn writer() {
    let mut w = Writer::new();
    w.section("TEST");
    w.key_value("string", &Value::String("bar".to_string()));
    w.key_value("integer", &Value::Integer(1));
    w.key_value("boolean", &Value::Boolean(true));
    w.key_value("array", &Value::Array(vec![Value::Integer(1), Value::Integer(2), Value::String("foobar".to_string())]));
    let mut dict = SortedMap::new();
    dict.insert("foo".to_string(), Value::String("bar".to_string()));
    w.key_value("dict", &Value::Dictionary(dict));
    let s = w.into_string();

    assert_eq!(
        r#"[TEST]
string = "bar"
integer = 1
boolean = true
array = [ 1, 2, "foobar" ]
dict = { foo = "bar" }
"#,
        s
    );
}

#[test]
fn string() {
    let v = Value::String("foo".to_owned());
    let s = String::from_ion(&v).unwrap();
    assert_eq!("foo", s);
    let s: String = v.from_ion().unwrap();
    assert_eq!("foo", s);
}

#[test]
fn option_string() {
    let v: Value = "foo".parse().unwrap();
    let os: Option<String> = v.from_ion().unwrap();
    assert_eq!(Some("foo".to_owned()), os);

    let v: Value = "".parse().unwrap();
    let os: Option<String> = v.from_ion().unwrap();
    assert_eq!(None, os);
}

#[test]
fn u32() {
    let v: Value = "16".parse().unwrap();
    let u: u32 = v.from_ion().unwrap();
    assert_eq!(16, u);
}

#[test]
fn bool() {
    let v: Value = "true".parse().unwrap();
    let u: bool = v.from_ion().unwrap();
    assert_eq!(true, u);

    let v: Value = "false".parse().unwrap();
    let u: bool = v.from_ion().unwrap();
    assert_eq!(false, u);

    let v: Value = "".parse().unwrap();
    let u: Result<bool, _> = v.from_ion();
    assert!(u.is_err());
}

struct Foo {
    a: u32,
    b: String,
}

impl FromIon<Section> for Foo {
    type Err = ();
    fn from_ion(_section: &Section) -> Result<Self, Self::Err> {
        Ok(Foo { a: 1, b: "foo".to_owned() })
    }
}

#[test]
fn from_ion_section() {
    let section = Section::new();
    let foo: Foo = section.parse().unwrap();
    assert_eq!(1, foo.a);
    assert_eq!("foo", foo.b);
}

#[test]
fn fetch_reports_missing_section_and_value() {
    let ion = ion("[A]\nx = 1\n");
    assert!(matches!(ion.fetch("B"), Err(IonError::MissingSection(ref n)) if n == "B"));
    let a = ion.fetch("A").unwrap();
    assert_eq!(Some(1), a.fetch("x").unwrap().as_integer());
    assert!(matches!(a.fetch("y"), Err(IonError::MissingValue(ref n)) if n == "y"));
}

#[test]
fn repeated_cells_keep_three_rows() {
    for with_header in [false, true] {
        let head = if with_header { "|head1|head2|head3|\n|-----|-----|-----|\n" } else { "" };
        let text = format!("[FOO]\n{}|a b|a b|a b|\n|a b|a b|a b|\n|a b|a b|a b|\n", head);
        let ion: Ion = text.parse().unwrap();
        assert_eq!(3, ion.get("FOO").unwrap().rows_without_header().len());
    }
}

#[test]
fn dash_cell_with_trailing_blank_reads_as_separator() {
    let ion: Ion = "[FOO]\n|- |- |- |\n|- |- |- |\n|- |- |- |\n".parse().unwrap();
    assert_eq!(1, ion.get("FOO").unwrap().rows_without_header().len());
}

#[test]
fn by_value_iteration_follows_the_header_rule() {
    let mut section = Section::new();
    section.rows.push(vec![Value::new_string("h")]);
    section.rows.push(vec![Value::new_string("---")]);
    assert_eq!(0, section.rows_without_header().len());
    assert_eq!(0, collect(section.into_iter()).len());

    let mut section = Section::new();
    section.rows.push(vec![Value::new_string("a"), Value::new_string("b")]);
    section.rows.push(vec![Value::new_string("c"), Value::new_string("-d")]);
    assert_eq!(2, section.rows_without_header().len());
    assert_eq!(2, collect(section.into_iter()).len());
}

#[test]
fn integers_from_strings() {
    let v: Value = "-5".parse().unwrap();
    assert_eq!(Ok(-5i32), v.from_ion::<i32>());
    let v: Value = "+7".parse().unwrap();
    assert_eq!(Ok(7u8), v.from_ion::<u8>());
    let v: Value = "256".parse().unwrap();
    assert!(v.from_ion::<u8>().is_err());
    let v: Value = "-9223372036854775808".parse().unwrap();
    assert_eq!(Ok(i64::MIN), v.from_ion::<i64>());
    let v: Value = "-129".parse().unwrap();
    assert!(v.from_ion::<i8>().is_err());
    let v: Value = "-".parse().unwrap();
    assert!(v.from_ion::<i16>().is_err());
    let v: Value = "65535".parse().unwrap();
    assert_eq!(Ok(65535u16), v.from_ion::<u16>());
    assert_eq!(Ok(65535usize), v.from_ion::<usize>());
    assert_eq!(Ok(65535isize), v.from_ion::<isize>());
    assert!(Value::Integer(3).from_ion::<i64>().is_err());
}

#[test]
fn signed_parsing_in_any_range() {
    assert_eq!(Some(7), ion::parse_signed("7", 5, 10));
    assert_eq!(None, ion::parse_signed("3", 5, 10));
    assert_eq!(Some(-7), ion::parse_signed("-7", -10, -5));
    assert_eq!(None, ion::parse_signed("-3", -10, -5));
    assert_eq!(None, ion::parse_signed("99999999999999999999", i64::MIN, i64::MAX));
}
