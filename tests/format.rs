use eu4data::{Eu4Error, Eu4KeyValue, Eu4Table, Eu4Value};

fn text(v: &Eu4Value) -> &str {
    v.as_str().unwrap()
}

#[test]
fn parse_escaped_quotes() {
    let data = Eu4Table::parse("foo=\"I'm \\\"quoted\\\"\"").unwrap();
    assert_eq!(data.values.len(), 1);
    assert_eq!(data.values[0].key, "foo");
    assert_eq!(text(&data.values[0].value), "I'm \"quoted\"");
}

#[test]
fn parse_escape_letters() {
    let data = Eu4Table::parse("k=\"a\\nb\\tc\\\\d\\/e\\qf\\bg\\fh\\ri\"").unwrap();
    assert_eq!(text(&data.values[0].value), "a\nb\tc\\d/eqf\u{8}g\u{c}h\ri");
}

#[test]
fn parse_empty_block_is_empty_list() {
    let data = Eu4Table::parse("foo={}").unwrap();
    assert_eq!(data.values.len(), 1);
    match &data.values[0].value {
        Eu4Value::Array(a) => assert_eq!(a.len(), 0),
        _ => panic!("expected a list"),
    }
}

#[test]
fn parse_mixed_block_stays_table() {
    let data = Eu4Table::parse("foo={a b=c}").unwrap();
    match &data.values[0].value {
        Eu4Value::Table(t) => {
            assert_eq!(t.values.len(), 2);
            assert_eq!(t.values[0].key, "");
            assert_eq!(text(&t.values[0].value), "a");
            assert_eq!(t.values[1].key, "b");
            assert_eq!(text(&t.values[1].value), "c");
        }
        _ => panic!("expected a table"),
    }
}

#[test]
fn newline_and_space_separate_alike() {
    let a = Eu4Table::parse("foo=bar\nbar=foo").unwrap();
    let b = Eu4Table::parse("foo=bar bar=foo").unwrap();
    assert_eq!(a.serialize(), b.serialize());
    assert_eq!(a.serialize(), "foo = bar\nbar = foo\n");
}

#[test]
fn comments_and_layout_are_skipped() {
    let data = Eu4Table::parse("# header\n\t foo =\r\n bar # trailing\n#x\nbaz=qux #end").unwrap();
    assert_eq!(data.values.len(), 2);
    assert_eq!(data.values[0].key, "foo");
    assert_eq!(text(&data.values[0].value), "bar");
    assert_eq!(data.values[1].key, "baz");
    assert_eq!(text(&data.values[1].value), "qux");
    for e in &data.values {
        assert!(!text(&e.value).contains('#'));
    }
}

#[test]
fn parse_empty_input() {
    let data = Eu4Table::parse("").unwrap();
    assert_eq!(data.values.len(), 0);
    let data = Eu4Table::parse("  # only a comment").unwrap();
    assert_eq!(data.values.len(), 0);
}

#[test]
fn parse_unicode_words() {
    let data = Eu4Table::parse("ключ=значение név=été").unwrap();
    assert_eq!(data.values.len(), 2);
    assert_eq!(data.values[0].key, "ключ");
    assert_eq!(text(&data.values[0].value), "значение");
    assert_eq!(text(&data.values[1].value), "été");
}

#[test]
fn trailing_input_is_left_unread() {
    let data = Eu4Table::parse("a=b } c=d").unwrap();
    assert_eq!(data.values.len(), 1);
    assert_eq!(data.values[0].key, "a");
}

#[test]
fn error_unterminated_string() {
    assert_eq!(
        Eu4Table::parse("foo=\"abc").unwrap_err(),
        Eu4Error::UnterminatedString { pos: 4 }
    );
    assert_eq!(
        Eu4Table::parse("foo=\"abc\\").unwrap_err(),
        Eu4Error::UnterminatedString { pos: 4 }
    );
}

#[test]
fn error_unbalanced_block() {
    assert_eq!(
        Eu4Table::parse("foo={a=b").unwrap_err(),
        Eu4Error::UnbalancedBlock { pos: 4 }
    );
    assert_eq!(
        Eu4Table::parse("x={y={a=b}").unwrap_err(),
        Eu4Error::UnbalancedBlock { pos: 2 }
    );
}

#[test]
fn error_unexpected_token() {
    assert_eq!(
        Eu4Table::parse("foo={a=b =}").unwrap_err(),
        Eu4Error::UnexpectedToken { pos: 9 }
    );
    assert_eq!(
        Eu4Table::parse("k = }").unwrap_err(),
        Eu4Error::UnexpectedToken { pos: 4 }
    );
}

#[test]
fn as_str_type_mismatch() {
    let data = Eu4Table::parse("t={a=b} l={a b}").unwrap();
    assert_eq!(data.values[0].value.as_str(), Err(Eu4Error::TypeMismatch));
    assert_eq!(data.values[1].value.as_str(), Err(Eu4Error::TypeMismatch));
}

#[test]
fn serialize_exact_text() {
    let mut inner = Eu4Table::new();
    inner.set("a", Eu4Value::String("b".to_string()));
    let mut t = Eu4Table::new();
    t.set("foo", Eu4Value::String("bar".to_string()));
    t.values.push(Eu4KeyValue { key: String::new(), value: Eu4Value::String("x y".to_string()) });
    t.set("k", Eu4Value::Table(inner));
    t.set("l", Eu4Value::Array(vec![Eu4Value::String("1".to_string()), Eu4Value::String("2".to_string())]));
    t.set("path", Eu4Value::String("a\\b".to_string()));
    t.set("my key", Eu4Value::String("v".to_string()));
    assert_eq!(
        t.serialize(),
        "foo = bar\n\"x y\"\nk = {\na = b\n}\nl = {\n1\n2\n}\npath = \"a\\\\b\"\nmy key\" = v\n"
            .replace("my key\"", "\"my key\"")
    );
}

#[test]
fn serialize_empty_table() {
    assert_eq!(Eu4Table::new().serialize(), "");
}

#[test]
fn color_is_decimal_list() {
    let c = Eu4Value::color(255, 0, 7);
    match &c {
        Eu4Value::Array(a) => {
            assert_eq!(a.len(), 3);
            assert_eq!(text(&a[0]), "255");
            assert_eq!(text(&a[1]), "0");
            assert_eq!(text(&a[2]), "7");
        }
        _ => panic!("expected a list"),
    }
    let c = Eu4Value::color(10, 99, 100);
    match &c {
        Eu4Value::Array(a) => {
            assert_eq!(text(&a[0]), "10");
            assert_eq!(text(&a[1]), "99");
            assert_eq!(text(&a[2]), "100");
        }
        _ => panic!("expected a list"),
    }
    let mut t = Eu4Table::new();
    t.set("color", Eu4Value::color(1, 22, 133));
    assert_eq!(t.serialize(), "color = {\n1\n22\n133\n}\n");
}

#[test]
fn get_finds_first_entry() {
    let data = Eu4Table::parse("a=1 b=2 a=3").unwrap();
    assert_eq!(text(data.get("a").unwrap()), "1");
    assert_eq!(text(data.get("b").unwrap()), "2");
    assert!(data.get("c").is_none());
    assert!(data.get("").is_none());
}

#[test]
fn set_twice_keeps_one_entry_in_place() {
    let mut t = Eu4Table::parse("x=0 k=old y=1").unwrap();
    t.set("k", Eu4Value::String("v1".to_string()));
    t.set("k", Eu4Value::String("v2".to_string()));
    assert_eq!(t.values.len(), 3);
    assert_eq!(t.values.iter().filter(|e| e.key == "k").count(), 1);
    assert_eq!(t.values[1].key, "k");
    assert_eq!(text(&t.values[1].value), "v2");
    t.set("new", Eu4Value::String("v3".to_string()));
    assert_eq!(t.values.len(), 4);
    assert_eq!(t.values[3].key, "new");
    assert_eq!(text(&t.values[3].value), "v3");
    assert_eq!(t.serialize(), "x = 0\nk = v2\ny = 1\nnew = v3\n");
}

#[test]
fn set_absent_key_twice_appends_once() {
    let mut t = Eu4Table::new();
    t.set("k", Eu4Value::String("v1".to_string()));
    t.set("k", Eu4Value::String("v2".to_string()));
    assert_eq!(t.values.len(), 1);
    assert_eq!(text(&t.values[0].value), "v2");
}

#[test]
fn serialize_then_parse_gives_same_table() {
    let input = "a=b c={x=1 y=\"hello world\" z=\"back\\\\slash\"} d={1 2 3} e={} f={g={h=i}} j";
    let first = Eu4Table::parse(input).unwrap();
    let text1 = first.serialize();
    let second = Eu4Table::parse(&text1).unwrap();
    assert_eq!(second.serialize(), text1);
    assert_eq!(second.values.len(), 6);
    match &second.values[1].value {
        Eu4Value::Table(t) => {
            assert_eq!(text(&t.values[1].value), "hello world");
            assert_eq!(text(&t.values[2].value), "back\\slash");
        }
        _ => panic!("expected a table"),
    }
    match &second.values[3].value {
        Eu4Value::Array(a) => assert_eq!(a.len(), 0),
        _ => panic!("expected a list"),
    }
    assert_eq!(second.values[5].key, "");
    assert_eq!(text(&second.values[5].value), "j");
}

#[test]
fn clone_is_deep_copy() {
    let t = Eu4Table::parse("a={b=c} d={1 2}").unwrap();
    let mut u = t.clone();
    u.set("a", Eu4Value::String("z".to_string()));
    assert_eq!(t.serialize(), "a = {\nb = c\n}\nd = {\n1\n2\n}\n");
    assert_eq!(u.serialize(), "a = z\nd = {\n1\n2\n}\n");
}

#[test]
fn parse_prefix_reports_where_reading_stopped() {
    let (t, end) = Eu4Table::parse_prefix("a=b } c=d").unwrap();
    assert_eq!(t.values.len(), 1);
    assert_eq!(end, 4);
    let text = "a=b c={d e}\n";
    let (t, end) = Eu4Table::parse_prefix(text).unwrap();
    assert_eq!(t.values.len(), 2);
    assert_eq!(end, text.chars().count());
    assert_eq!(
        Eu4Table::parse_prefix("x=\"open").unwrap_err(),
        Eu4Error::UnterminatedString { pos: 2 }
    );
}

#[test]
fn layout_around_equals_includes_comments() {
    let data = Eu4Table::parse("foo = # note\n bar\nbaz\n=\nqux").unwrap();
    assert_eq!(data.values.len(), 2);
    assert_eq!(data.values[0].key, "foo");
    assert_eq!(text(&data.values[0].value), "bar");
    assert_eq!(data.values[1].key, "baz");
    assert_eq!(text(&data.values[1].value), "qux");
}

#[test]
fn comment_text_is_discarded() {
    let data = Eu4Table::parse("foo=bar #stuff\nbar=foo").unwrap();
    assert_eq!(data.values.len(), 2);
    assert_eq!(text(&data.values[0].value), "bar");
    assert_eq!(text(&data.values[1].value), "foo");
    assert!(!data.serialize().contains("stuff"));
}
