use storm::codec::{
    float_bits, from_toml, parse, render, round_trips, same, serialize, to_toml, well_formed,
};
use storm::config::ConfigError;
use storm::value::ConfigValue;

fn table(entries: Vec<(&str, ConfigValue)>) -> ConfigValue {
    ConfigValue::Table(entries.into_iter().map(|(k, v)| (k.to_string(), v)).collect())
}

fn sample() -> ConfigValue {
    table(vec![
        ("count", ConfigValue::Integer(42)),
        ("flag", ConfigValue::Boolean(true)),
        ("list", ConfigValue::Array(vec![ConfigValue::Integer(1), ConfigValue::Integer(2)])),
        ("name", ConfigValue::String("storm".to_string())),
        ("nested", table(vec![("inner", table(vec![("leaf", ConfigValue::String("x".to_string()))]))])),
    ])
}

#[test]
fn parse_reads_scalars_arrays_and_tables() {
    let text = "count = 42\nflag = true\nlist = [1, 2]\nname = \"storm\"\n\n[nested.inner]\nleaf = \"x\"\n";
    assert_eq!(parse(text), Ok(sample()));
}

#[test]
fn parse_rejects_malformed_text() {
    assert_eq!(parse("a = "), Err(ConfigError::MalformedDocument));
    assert_eq!(parse("[unclosed"), Err(ConfigError::MalformedDocument));
    assert_eq!(parse("a = 1\na = 2\n"), Err(ConfigError::MalformedDocument));
}

#[test]
fn parse_of_empty_text_is_the_empty_table() {
    assert_eq!(parse(""), Ok(ConfigValue::Table(vec![])));
}

#[test]
fn serialize_writes_exact_text() {
    let doc = table(vec![("a", ConfigValue::Integer(1))]);
    assert_eq!(serialize(&doc), Ok("a = 1\n".to_string()));
    let doc = table(vec![("cli", table(vec![("prompt", ConfigValue::Boolean(false))]))]);
    assert_eq!(serialize(&doc), Ok("[cli]\nprompt = false\n".to_string()));
}

#[test]
fn serialize_then_parse_gives_the_value_back() {
    let doc = sample();
    let text = serialize(&doc).unwrap();
    assert_eq!(parse(&text), Ok(sample()));
}

#[test]
fn parse_then_serialize_is_stable() {
    let text = serialize(&sample()).unwrap();
    let again = serialize(&parse(&text).unwrap()).unwrap();
    assert_eq!(text, again);
}

#[test]
fn round_trip_does_not_depend_on_the_order_of_entries() {
    let shuffled = table(vec![
        ("name", ConfigValue::String("storm".to_string())),
        ("count", ConfigValue::Integer(42)),
    ]);
    let sorted = table(vec![
        ("count", ConfigValue::Integer(42)),
        ("name", ConfigValue::String("storm".to_string())),
    ]);
    assert_eq!(parse(&serialize(&shuffled).unwrap()), Ok(sorted));
}

#[test]
fn floats_and_datetimes_are_carried_through() {
    let text = "at = 1979-05-27T07:32:00Z\nratio = 1.5\n";
    let doc = parse(text).unwrap();
    match &doc {
        ConfigValue::Table(entries) => {
            assert_eq!(entries.len(), 2);
            assert_eq!(entries[0].0, "at");
            assert!(matches!(entries[0].1, ConfigValue::Datetime(_)));
            assert_eq!(entries[1].0, "ratio");
            assert_eq!(entries[1].1, ConfigValue::Float(toml::Value::Float(1.5)));
        }
        _ => panic!("not a table"),
    }
    assert_eq!(serialize(&doc), Ok(text.to_string()));
}

#[test]
fn pretty_text_lays_arrays_out_on_lines() {
    let text = "count = 42\nflag = true\nlist = [\n    1,\n    2,\n]\nname = 'storm'\n[nested.inner]\nleaf = 'x'\n";
    assert_eq!(serialize(&sample()), Ok(text.to_string()));
}

#[test]
fn keys_that_are_no_bare_words_are_quoted() {
    let doc = table(vec![("a b", ConfigValue::Integer(1)), ("", ConfigValue::Integer(2))]);
    let text = serialize(&doc).unwrap();
    assert_eq!(text, "\"\" = 2\n\"a b\" = 1\n");
    assert_eq!(parse(&text), Ok(table(vec![("", ConfigValue::Integer(2)), ("a b", ConfigValue::Integer(1))])));
}

#[test]
fn a_scalar_is_written_bare() {
    assert_eq!(serialize(&ConfigValue::Integer(1)), Ok("1".to_string()));
    assert_eq!(serialize(&ConfigValue::String("s".to_string())), Ok("'s'".to_string()));
}

#[test]
fn render_writes_on_few_lines() {
    let list = ConfigValue::Array(vec![ConfigValue::Integer(1), ConfigValue::Integer(2)]);
    assert_eq!(render(&list), Ok("[1, 2]".to_string()));
    assert_eq!(render(&ConfigValue::Boolean(true)), Ok("true".to_string()));
    assert_eq!(render(&ConfigValue::Integer(-7)), Ok("-7".to_string()));
}

#[test]
fn conversion_to_toml_and_back_keeps_the_value() {
    let value = to_toml(&sample());
    assert_eq!(value.get("count").and_then(|v| v.as_integer()), Some(42));
    assert_eq!(value.get("name").and_then(|v| v.as_str()), Some("storm"));
    assert_eq!(
        value.get("nested").and_then(|v| v.get("inner")).and_then(|v| v.get("leaf")).and_then(|v| v.as_str()),
        Some("x")
    );
    assert_eq!(from_toml(value), sample());
}

#[test]
fn conversion_from_toml_reads_every_kind() {
    let mut map = toml::value::Table::new();
    map.insert("b".to_string(), toml::Value::Boolean(false));
    map.insert("a".to_string(), toml::Value::Array(vec![toml::Value::String("s".to_string())]));
    let got = from_toml(toml::Value::Table(map));
    let want = table(vec![
        ("a", ConfigValue::Array(vec![ConfigValue::String("s".to_string())])),
        ("b", ConfigValue::Boolean(false)),
    ]);
    assert_eq!(got, want);
}

#[test]
fn typed_extraction_checks_the_kind() {
    assert_eq!(ConfigValue::String("s".to_string()).as_str(), Ok("s"));
    assert_eq!(ConfigValue::Integer(3).as_str(), Err(ConfigError::TypeMismatch));
    assert_eq!(ConfigValue::Integer(3).as_integer(), Ok(3));
    assert_eq!(ConfigValue::Boolean(true).as_integer(), Err(ConfigError::TypeMismatch));
    assert_eq!(ConfigValue::Boolean(true).as_bool(), Ok(true));
    assert_eq!(ConfigValue::String("true".to_string()).as_bool(), Err(ConfigError::TypeMismatch));
    let d: toml::value::Datetime = "1979-05-27T07:32:00Z".parse().unwrap();
    assert_eq!(ConfigValue::Datetime(d.clone()).as_datetime(), Ok(&d));
    assert_eq!(ConfigValue::Integer(3).as_datetime(), Err(ConfigError::TypeMismatch));
    assert_eq!(float_bits(&ConfigValue::Float(toml::Value::Float(1.5))), Ok(1.5f64.to_bits()));
    assert_eq!(float_bits(&ConfigValue::Float(toml::Value::Float(-0.0))), Ok(1u64 << 63));
    assert_eq!(float_bits(&ConfigValue::Integer(3)), Err(ConfigError::TypeMismatch));
    assert_eq!(float_bits(&ConfigValue::Float(toml::Value::Integer(3))), Err(ConfigError::TypeMismatch));
}

#[test]
fn table_get_insert_remove() {
    let mut t = ConfigValue::new_table();
    assert_eq!(t, ConfigValue::Table(vec![]));
    assert_eq!(t.get("a"), None);
    assert_eq!(t.insert("a".to_string(), ConfigValue::Integer(1)), None);
    assert_eq!(t.insert("b".to_string(), ConfigValue::Integer(2)), None);
    assert_eq!(t.get("a"), Some(&ConfigValue::Integer(1)));
    assert_eq!(t.insert("a".to_string(), ConfigValue::Integer(3)), Some(ConfigValue::Integer(1)));
    assert_eq!(t.get("a"), Some(&ConfigValue::Integer(3)));
    assert_eq!(t, table(vec![("a", ConfigValue::Integer(3)), ("b", ConfigValue::Integer(2))]));
    assert_eq!(t.remove("a"), Some(ConfigValue::Integer(3)));
    assert_eq!(t.remove("a"), None);
    assert_eq!(t, table(vec![("b", ConfigValue::Integer(2))]));
}

#[test]
fn table_operations_leave_other_kinds_alone() {
    let mut v = ConfigValue::Integer(1);
    assert_eq!(v.get("a"), None);
    assert_eq!(v.insert("a".to_string(), ConfigValue::Boolean(true)), Some(ConfigValue::Boolean(true)));
    assert_eq!(v.remove("a"), None);
    assert_eq!(v, ConfigValue::Integer(1));
}

#[test]
fn array_index() {
    let a = ConfigValue::Array(vec![ConfigValue::Integer(10), ConfigValue::Integer(20)]);
    assert_eq!(a.index(0), Some(&ConfigValue::Integer(10)));
    assert_eq!(a.index(1), Some(&ConfigValue::Integer(20)));
    assert_eq!(a.index(2), None);
    assert_eq!(ConfigValue::Integer(1).index(0), None);
}

#[test]
fn well_formed_wants_each_key_once_and_floats_in_floats() {
    assert!(well_formed(&sample()));
    assert!(well_formed(&parse("a = 1.5\n[t]\nk = [1, 2]\n").unwrap()));
    let twice = || table(vec![("a", ConfigValue::Integer(1)), ("a", ConfigValue::Integer(2))]);
    assert!(!well_formed(&twice()));
    assert!(!well_formed(&ConfigValue::Array(vec![ConfigValue::Integer(1), twice()])));
    assert!(!well_formed(&table(vec![("outer", twice())])));
    assert!(well_formed(&ConfigValue::Float(toml::Value::Float(0.5))));
    assert!(!well_formed(&ConfigValue::Float(toml::Value::Integer(1))));
    assert!(!well_formed(&table(vec![("f", ConfigValue::Float(toml::Value::String("s".to_string())))])));
}

#[test]
fn same_passes_over_the_order_of_entries() {
    let a = table(vec![
        ("x", ConfigValue::Integer(1)),
        ("t", table(vec![("p", ConfigValue::Boolean(true)), ("q", ConfigValue::Boolean(false))])),
    ]);
    let b = table(vec![
        ("t", table(vec![("q", ConfigValue::Boolean(false)), ("p", ConfigValue::Boolean(true))])),
        ("x", ConfigValue::Integer(1)),
    ]);
    assert!(same(&a, &b));
    assert!(same(&b, &a));
    assert!(a != b);
    assert!(same(&sample(), &sample()));
}

#[test]
fn same_tells_different_trees_apart() {
    let a = table(vec![("x", ConfigValue::Integer(1))]);
    assert!(!same(&a, &table(vec![("x", ConfigValue::Integer(2))])));
    assert!(!same(&a, &table(vec![("y", ConfigValue::Integer(1))])));
    assert!(!same(&a, &table(vec![("x", ConfigValue::Integer(1)), ("y", ConfigValue::Integer(1))])));
    assert!(!same(&table(vec![("x", ConfigValue::Integer(1)), ("y", ConfigValue::Integer(1))]), &a));
    assert!(!same(&a, &ConfigValue::Integer(1)));
    assert!(!same(&ConfigValue::Integer(1), &ConfigValue::String("1".to_string())));
    assert!(!same(&ConfigValue::Boolean(true), &ConfigValue::Boolean(false)));
    let one_two = ConfigValue::Array(vec![ConfigValue::Integer(1), ConfigValue::Integer(2)]);
    let two_one = ConfigValue::Array(vec![ConfigValue::Integer(2), ConfigValue::Integer(1)]);
    let one = ConfigValue::Array(vec![ConfigValue::Integer(1)]);
    assert!(!same(&one_two, &two_one));
    assert!(!same(&one_two, &one));
    assert!(!same(&one, &one_two));
}

#[test]
fn same_compares_floats_by_their_bits_and_datetimes_by_their_fields() {
    let f = |x| ConfigValue::Float(toml::Value::Float(x));
    assert!(same(&f(1.5), &f(1.5)));
    assert!(!same(&f(1.5), &f(2.5)));
    assert!(!same(&f(0.0), &f(-0.0)));
    assert!(same(&f(f64::NAN), &f(f64::NAN)));
    assert!(!same(&f(1.0), &ConfigValue::Integer(1)));
    let d = |s: &str| ConfigValue::Datetime(s.parse().unwrap());
    assert!(same(&d("1979-05-27T07:32:00Z"), &d("1979-05-27T07:32:00Z")));
    assert!(!same(&d("1979-05-27T07:32:00Z"), &d("1979-05-27T07:32:01Z")));
    assert!(!same(&d("1979-05-27"), &d("1979-05-27T00:00:00Z")));
}

#[test]
fn documents_round_trip() {
    assert!(round_trips(&sample()));
    assert!(round_trips(&ConfigValue::Table(vec![])));
    assert!(round_trips(&parse("at = 1979-05-27T07:32:00Z\nratio = 1.5\n\n[[t]]\nk = [1, 2]\n").unwrap()));
    let unsorted = table(vec![("b", ConfigValue::Integer(2)), ("a", ConfigValue::Integer(1))]);
    assert!(round_trips(&unsorted));
    let odd = table(vec![
        ("a b", ConfigValue::String("line\nbreak \"quoted\" \\ é".to_string())),
        ("", ConfigValue::Array(vec![])),
        ("deep", table(vec![("er", table(vec![("est", ConfigValue::Array(vec![ConfigValue::Array(vec![])]))]))])),
    ]);
    assert!(round_trips(&odd));
}

#[test]
fn what_is_no_document_does_not_round_trip() {
    assert!(!round_trips(&ConfigValue::Integer(1)));
    assert!(!round_trips(&ConfigValue::Array(vec![ConfigValue::Integer(1)])));
    let mixed = ConfigValue::Array(vec![table(vec![("k", ConfigValue::Integer(1))]), ConfigValue::Integer(1)]);
    assert!(!round_trips(&table(vec![("a", mixed)])));
}
