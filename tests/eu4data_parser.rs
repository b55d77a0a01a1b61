use eu4data::{Eu4Table, Eu4Value};

#[test]
fn eu4data_parse_value() {
    let data = Eu4Table::parse("foo=bar").unwrap();
    assert_eq!(data.values.len(), 1);
    assert_eq!(data.values[0].key, "foo");
    assert_eq!(data.values[0].value.as_str(), Ok("bar"));
}

#[test]
fn eu4data_parse_values() {
    let data = Eu4Table::parse("foo=bar\nbar=foo").unwrap();
    assert_eq!(data.values.len(), 2);
    assert_eq!(data.values[0].key, "foo");
    assert_eq!(data.values[0].value.as_str(), Ok("bar"));
    assert_eq!(data.values[1].key, "bar");
    assert_eq!(data.values[1].value.as_str(), Ok("foo"));
}

#[test]
fn eu4data_parse_values_inline() {
    let data = Eu4Table::parse("foo=bar bar=foo").unwrap();
    assert_eq!(data.values.len(), 2);
    assert_eq!(data.values[0].key, "foo");
    assert_eq!(data.values[0].value.as_str(), Ok("bar"));
    assert_eq!(data.values[1].key, "bar");
    assert_eq!(data.values[1].value.as_str(), Ok("foo"));
}

#[test]
fn eu4data_parse_whitespace() {
    let data = Eu4Table::parse(" foo  = bar  ").unwrap();
    assert_eq!(data.values.len(), 1);
    assert_eq!(data.values[0].key, "foo");
    assert_eq!(data.values[0].value.as_str(), Ok("bar"));
}

#[test]
fn eu4data_parse_comments() {
    let data = Eu4Table::parse("foo=bar #things\nbar=foo").unwrap();
    assert_eq!(data.values.len(), 2);
    assert_eq!(data.values[0].key, "foo");
    assert_eq!(data.values[0].value.as_str(), Ok("bar"));
    assert_eq!(data.values[1].key, "bar");
    assert_eq!(data.values[1].value.as_str(), Ok("foo"));
}

#[test]
fn eu4data_parse_quoted() {
    let data = Eu4Table::parse("foo=\"I'm a little teapot\"").unwrap();
    assert_eq!(data.values.len(), 1);
    assert_eq!(data.values[0].key, "foo");
    assert_eq!(data.values[0].value.as_str(), Ok("I'm a little teapot"));

    let data = Eu4Table::parse(r#"foo="I'm a little teapot \"short and stout\"""#).unwrap();
    assert_eq!(data.values.len(), 1);
    assert_eq!(data.values[0].key, "foo");
    assert_eq!(data.values[0].value.as_str(), Ok("I'm a little teapot \"short and stout\""));
}

#[test]
fn eu4data_parse_nested() {
    let data = Eu4Table::parse("foo={bar=chickens foobar=frogs}\ncheeze=unfrogged").unwrap();
    assert_eq!(data.values.len(), 2);
    assert_eq!(data.values[1].key, "cheeze");
    assert_eq!(data.values[1].value.as_str(), Ok("unfrogged"));

    if let &Eu4Value::Table(ref table) = &data.values[0].value {
        assert_eq!(table.values.len(), 2);
        assert_eq!(table.values[0].key, "bar");
        assert_eq!(table.values[0].value.as_str(), Ok("chickens"));
        assert_eq!(table.values[1].key, "foobar");
        assert_eq!(table.values[1].value.as_str(), Ok("frogs"));
    } else {
        assert!(false, "Wrong value type!");
    }
}

#[test]
fn eu4data_parse_annoying_nested() {
    let data = Eu4Table::parse("foo={bar=chickens foobar=frogs}cheeze=unfrogged").unwrap();
    assert_eq!(data.values.len(), 2);
    assert_eq!(data.values[1].key, "cheeze");
    assert_eq!(data.values[1].value.as_str(), Ok("unfrogged"));

    if let &Eu4Value::Table(ref table) = &data.values[0].value {
        assert_eq!(table.values.len(), 2);
        assert_eq!(table.values[0].key, "bar");
        assert_eq!(table.values[0].value.as_str(), Ok("chickens"));
        assert_eq!(table.values[1].key, "foobar");
        assert_eq!(table.values[1].value.as_str(), Ok("frogs"));
    } else {
        assert!(false, "Wrong value type!");
    }
}

#[test]
fn eu4data_parse_array() {
    let data = Eu4Table::parse("foo={why \"does this\" exist}").unwrap();
    assert_eq!(data.values.len(), 1);
    assert_eq!(data.values[0].key, "foo");

    if let &Eu4Value::Array(ref array) = &data.values[0].value {
        assert_eq!(array.len(), 3);
        assert_eq!(array[0].as_str(), Ok("why"));
        assert_eq!(array[1].as_str(), Ok("does this"));
        assert_eq!(array[2].as_str(), Ok("exist"));
    }
}
