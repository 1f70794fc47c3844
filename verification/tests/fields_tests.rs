use serde::de::{IntoDeserializer, Unexpected};
use serde::Deserialize;
use serde_value::Value;
use playground::fields::{
    describe_value,
    deserialize_fields, deserialize_fields_nested, split_key, FieldValue, FieldsError,
    FieldsVisitor, Foo, FooError, FooField, Properties, PropertyError,
};

fn entry(key: &str, value: FieldValue) -> (String, FieldValue) {
    (key.to_string(), value)
}

fn text(s: &str) -> FieldValue {
    FieldValue::Text(s.to_string())
}

fn find<'a>(records: &'a [(String, Properties)], name: &str) -> &'a Properties {
    &records.iter().find(|(n, _)| n == name).expect("record present").1
}

#[test]
fn top_level_keys_split_into_name_and_property() {
    assert_eq!(
        split_key("fields.a.f1", false),
        Some(("a".to_string(), "f1".to_string()))
    );
    assert_eq!(
        split_key("fields.a.f3.f4", false),
        Some(("a".to_string(), "f3.f4".to_string()))
    );
    assert_eq!(split_key("fields.a", false), None);
    assert_eq!(split_key("other.a.f1", false), None);
    assert_eq!(split_key("", false), None);
}

#[test]
fn nested_keys_split_at_first_dot() {
    assert_eq!(
        split_key("f3.f4", true),
        Some(("f3".to_string(), "f4".to_string()))
    );
    assert_eq!(
        split_key("a.b.c", true),
        Some(("a".to_string(), "b.c".to_string()))
    );
    assert_eq!(split_key("f4", true), None);
    assert_eq!(split_key(".x", true), Some(("".to_string(), "x".to_string())));
}

#[test]
fn records_are_gathered_by_name() {
    let entries = vec![
        entry("fields.a.f1", text("v1")),
        entry("fields.a.f2", FieldValue::Unsigned(0)),
        entry("fields.b.f1", text("v3")),
    ];
    let records = deserialize_fields(&entries).unwrap();
    assert_eq!(records.len(), 2);
    assert_eq!(records[0].0, "a");
    assert_eq!(records[1].0, "b");
    let a = find(&records, "a");
    assert_eq!(a.f1.as_deref(), Some("v1"));
    assert_eq!(a.f2, Some(0));
    assert!(a.nested.is_empty());
    let b = find(&records, "b");
    assert_eq!(b.f1.as_deref(), Some("v3"));
    assert_eq!(b.f2, None);
}

#[test]
fn unknown_properties_become_nested_records() {
    let entries = vec![
        entry("fields.a.f1", text("v1")),
        entry("fields.a.x.f1", text("inner")),
        entry("fields.a.x.f2", FieldValue::Signed(9)),
    ];
    let records = deserialize_fields(&entries).unwrap();
    let a = find(&records, "a");
    assert_eq!(a.nested.len(), 1);
    assert_eq!(a.nested[0].0, "x");
    assert_eq!(a.nested[0].1.f1.as_deref(), Some("inner"));
    assert_eq!(a.nested[0].1.f2, Some(9));
}

#[test]
fn a_property_without_dot_below_nesting_is_an_error() {
    let entries = vec![
        entry("fields.a.f1", text("v1")),
        entry("fields.a.f2", FieldValue::Unsigned(0)),
        entry("fields.b.f1", text("v3")),
        entry("fields.a.f3.f4", text("v4")),
    ];
    let err = deserialize_fields(&entries).unwrap_err();
    assert_eq!(
        err.message(),
        "failed to deserialize `fields.a`: failed to deserialize `fields.f3`: \
         expected key in format `<name>.<property>`, got `f4`"
    );
}

#[test]
fn malformed_top_level_key_is_reported() {
    let entries = vec![entry("fields.a.f1", text("v1")), entry("other.a.f1", text("x"))];
    let err = deserialize_fields(&entries).unwrap_err();
    match &err {
        FieldsError::KeyFormat { key, nested } => {
            assert_eq!(key, "other.a.f1");
            assert!(!nested);
        }
        other => panic!("unexpected error {other:?}"),
    }
    assert_eq!(
        err.message(),
        "expected key in format `fields.<name>.<property>`, got `other.a.f1`"
    );
}

#[test]
fn later_entries_override_earlier_ones() {
    let entries = vec![
        entry("fields.a.f1", text("first")),
        entry("fields.a.f1", text("second")),
    ];
    let records = deserialize_fields(&entries).unwrap();
    assert_eq!(records.len(), 1);
    assert_eq!(records[0].1.f1.as_deref(), Some("second"));
}

#[test]
fn byte_property_must_fit() {
    let too_big = vec![entry("fields.a.f2", FieldValue::Unsigned(300))];
    match deserialize_fields(&too_big).unwrap_err() {
        FieldsError::Property { name, cause: PropertyError::ByteExpected(FieldValue::Unsigned(300)) } => {
            assert_eq!(name, "a")
        }
        other => panic!("unexpected error {other:?}"),
    }
    let negative = vec![entry("fields.a.f2", FieldValue::Signed(-1))];
    assert!(deserialize_fields(&negative).is_err());
    let top = vec![entry("fields.a.f2", FieldValue::Unsigned(255))];
    assert_eq!(deserialize_fields(&top).unwrap()[0].1.f2, Some(255));
}

#[test]
fn text_property_must_be_text_or_null() {
    let wrong = vec![entry("fields.a.f1", FieldValue::Bool(true))];
    let err = deserialize_fields(&wrong).unwrap_err();
    assert!(matches!(
        err,
        FieldsError::Property { cause: PropertyError::TextExpected(FieldValue::Bool(true)), .. }
    ));
    assert_eq!(
        err.message(),
        "failed to deserialize `fields.a`: Invalid type boolean `true`. Expected a string"
    );
    let null = vec![entry("fields.a.f1", FieldValue::Null), entry("fields.a.f2", FieldValue::Null)];
    let records = deserialize_fields(&null).unwrap();
    assert_eq!(records[0].1.f1, None);
    assert_eq!(records[0].1.f2, None);
}

#[test]
fn nested_visitor_reads_name_dot_property() {
    let entries = vec![entry("x.f1", text("t")), entry("y.z.f2", FieldValue::Unsigned(3))];
    let records = deserialize_fields_nested(&entries).unwrap();
    assert_eq!(records.len(), 2);
    assert_eq!(records[0].0, "x");
    assert_eq!(records[1].0, "y");
    assert_eq!(records[1].1.nested[0].0, "z");
    assert_eq!(records[1].1.nested[0].1.f2, Some(3));
    let same = FieldsVisitor { nested: true }.visit_map(&entries).unwrap();
    assert_eq!(same.len(), 2);
}

#[test]
fn no_entries_give_no_records() {
    assert!(deserialize_fields(&Vec::new()).unwrap().is_empty());
}

#[test]
fn properties_from_entries_reads_own_fields() {
    let entries = vec![entry("f1", text("t")), entry("f2", FieldValue::Unsigned(1))];
    let p = Properties::from_entries(&entries).unwrap();
    assert_eq!(p.f1.as_deref(), Some("t"));
    assert_eq!(p.f2, Some(1));
    assert!(p.nested.is_empty());
}

#[test]
fn foo_is_built_from_its_entries() {
    let entries = vec![
        entry("a", FieldValue::Unsigned(1)),
        entry("b", text("hello")),
        entry("fields.a.f1", text("v1")),
        entry("fields.a.f2", FieldValue::Unsigned(0)),
        entry("fields.b.f1", text("v3")),
    ];
    let foo = Foo::from_entries(&entries).unwrap();
    assert_eq!(foo.a, 1);
    assert_eq!(foo.b, "hello");
    assert_eq!(foo.fields.len(), 2);
    assert_eq!(find(&foo.fields, "b").f1.as_deref(), Some("v3"));
}

#[test]
fn foo_reports_missing_duplicate_and_invalid_fields() {
    let missing_a = vec![entry("b", text("x"))];
    assert!(matches!(
        Foo::from_entries(&missing_a),
        Err(FooError::MissingField(FooField::A))
    ));
    let missing_b = vec![entry("a", FieldValue::Unsigned(1))];
    assert!(matches!(
        Foo::from_entries(&missing_b),
        Err(FooError::MissingField(FooField::B))
    ));
    let duplicate = vec![
        entry("a", FieldValue::Unsigned(1)),
        entry("a", FieldValue::Unsigned(2)),
        entry("b", text("x")),
    ];
    assert!(matches!(
        Foo::from_entries(&duplicate),
        Err(FooError::DuplicateField(FooField::A))
    ));
    let invalid = vec![entry("a", FieldValue::Signed(-1)), entry("b", text("x"))];
    assert!(matches!(
        Foo::from_entries(&invalid),
        Err(FooError::InvalidField(FooField::A, FieldValue::Signed(-1)))
    ));
    let invalid_b = vec![entry("a", FieldValue::Unsigned(1)), entry("b", FieldValue::Unsigned(1))];
    assert!(matches!(
        Foo::from_entries(&invalid_b),
        Err(FooError::InvalidField(FooField::B, FieldValue::Unsigned(1)))
    ));
    let bad_fields = vec![
        entry("a", FieldValue::Unsigned(1)),
        entry("b", text("x")),
        entry("fields.a", text("x")),
    ];
    assert!(matches!(
        Foo::from_entries(&bad_fields),
        Err(FooError::Fields(FieldsError::KeyFormat { .. }))
    ));
}

#[test]
fn split_then_join_gives_the_key_back() {
    for key in ["fields.a.f1", "fields.name.x.y.z", "fields..f1"] {
        let (name, property) = split_key(key, false).unwrap();
        assert_eq!(format!("fields.{name}.{property}"), key);
        assert!(!name.contains('.'));
    }
    let (name, property) = split_key("n.p.q", true).unwrap();
    assert_eq!(format!("{name}.{property}"), "n.p.q");
}

fn value_tree_error<T: for<'de> serde::Deserialize<'de>>(v: serde_value::Value) -> String {
    T::deserialize(v).err().expect("rejected").to_string()
}

fn json_error<T: for<'de> serde::Deserialize<'de> + std::fmt::Debug>(json: &str) -> String {
    let e = serde_json::from_str::<T>(json).err().expect("rejected").to_string();
    e.split(" at line ").next().unwrap().to_string()
}

#[test]
fn record_causes_read_as_value_trees_report_them() {
    let cases = vec![
        (FieldValue::Unsigned(300), Value::U64(300)),
        (FieldValue::Signed(-1), Value::I64(-1)),
        (FieldValue::Bool(true), Value::Bool(true)),
        (text("x\"y"), Value::String("x\"y".to_string())),
    ];
    for (field, tree) in cases {
        let entries = vec![entry("fields.p.f2", field)];
        let err = deserialize_fields(&entries).unwrap_err();
        let expected = format!(
            "failed to deserialize `fields.p`: {}",
            value_tree_error::<Option<u8>>(tree)
        );
        assert_eq!(err.message(), expected);
    }
    let entries = vec![entry("fields.p.f1", FieldValue::Unsigned(5))];
    assert_eq!(
        deserialize_fields(&entries).unwrap_err().message(),
        format!(
            "failed to deserialize `fields.p`: {}",
            value_tree_error::<Option<String>>(Value::U64(5))
        )
    );
    assert_eq!(
        deserialize_fields(&vec![entry("fields.p.f2", FieldValue::Unsigned(300))])
            .unwrap_err()
            .message(),
        "failed to deserialize `fields.p`: Invalid value integer `300`. Expected u8"
    );
}

#[test]
fn foo_errors_read_as_json_reports_them() {
    let base = |a: FieldValue, b: FieldValue| vec![entry("a", a), entry("b", b)];
    let msg = |es: Vec<(String, FieldValue)>| Foo::from_entries(&es).unwrap_err().message();
    assert_eq!(
        msg(base(FieldValue::Signed(-1), text("x"))),
        json_error::<usize>("-1")
    );
    assert_eq!(msg(base(FieldValue::Null, text("x"))), json_error::<usize>("null"));
    assert_eq!(msg(base(text("q"), text("x"))), json_error::<usize>("\"q\""));
    assert_eq!(
        msg(base(FieldValue::Unsigned(1), FieldValue::Unsigned(7))),
        json_error::<String>("7")
    );
    assert_eq!(
        msg(base(FieldValue::Unsigned(1), FieldValue::Other("sequence".to_string()))),
        json_error::<String>("[1]")
    );
    assert_eq!(msg(vec![entry("b", text("x"))]), "missing field `a`");
    assert_eq!(
        msg(vec![entry("a", FieldValue::Unsigned(1)), entry("a", FieldValue::Unsigned(1))]),
        "duplicate field `a`"
    );
}

#[test]
fn values_are_described_as_serde_does() {
    assert_eq!(describe_value(&FieldValue::Bool(false)), Unexpected::Bool(false).to_string());
    assert_eq!(describe_value(&FieldValue::Unsigned(9)), Unexpected::Unsigned(9).to_string());
    assert_eq!(describe_value(&FieldValue::Signed(-9)), Unexpected::Signed(-9).to_string());
    assert_eq!(describe_value(&text("a\nb")), Unexpected::Str("a\nb").to_string());
    assert_eq!(describe_value(&FieldValue::Null), "null");
    assert_eq!(describe_value(&FieldValue::Other("map".to_string())), "map");
}

fn canonical(records: &[(String, Properties)]) -> String {
    let mut parts: Vec<String> = records
        .iter()
        .map(|(name, p)| format!("{}:{:?}:{:?}:[{}]", name, p.f1, p.f2, canonical(&p.nested)))
        .collect();
    parts.sort();
    parts.join(",")
}

fn reorder_sample(order: &[usize]) -> Vec<(String, FieldValue)> {
    let make = |i: usize| match i {
        0 => entry("fields.x.f1", text("one")),
        1 => entry("fields.y.f2", FieldValue::Unsigned(2)),
        2 => entry("fields.x.n.f2", FieldValue::Unsigned(3)),
        3 => entry("fields.x.m.f1", text("m")),
        4 => entry("fields.x.n.deep.f1", text("d")),
        _ => entry("fields.z.f1", FieldValue::Null),
    };
    order.iter().map(|&i| make(i)).collect()
}

#[test]
fn reordered_entries_give_the_same_records() {
    let first = deserialize_fields(&reorder_sample(&[0, 1, 2, 3, 4, 5])).unwrap();
    let second = deserialize_fields(&reorder_sample(&[5, 4, 3, 2, 1, 0])).unwrap();
    let third = deserialize_fields(&reorder_sample(&[2, 5, 0, 4, 1, 3])).unwrap();
    assert_eq!(first.len(), 3);
    assert_eq!(canonical(&first), canonical(&second));
    assert_eq!(canonical(&first), canonical(&third));
    assert_eq!(first[0].0, "x");
    assert_eq!(second[0].0, "z");
}

#[test]
fn reordered_entries_fail_alike() {
    let good = reorder_sample(&[0, 1, 2]);
    let mut bad_first = vec![entry("fields.x.f2", FieldValue::Unsigned(300))];
    bad_first.extend(good);
    let mut bad_last = reorder_sample(&[2, 1, 0]);
    bad_last.push(entry("fields.x.f2", FieldValue::Unsigned(300)));
    assert!(deserialize_fields(&bad_first).is_err());
    assert!(deserialize_fields(&bad_last).is_err());
}

fn map_of_values_error(key: &str, v: Value) -> String {
    let mut m = std::collections::HashMap::new();
    m.insert(key.to_string(), v);
    std::collections::HashMap::<String, Option<u8>>::deserialize(m.into_deserializer())
        .unwrap_err()
        .to_string()
}

#[test]
fn record_cause_reads_as_a_map_of_values_reports_it() {
    let entries = vec![entry("fields.p.f2", FieldValue::Unsigned(300))];
    assert_eq!(
        deserialize_fields(&entries).unwrap_err().message(),
        format!("failed to deserialize `fields.p`: {}", map_of_values_error("f2", Value::U64(300)))
    );
    let entries = vec![entry("fields.p.f2", FieldValue::Bool(false))];
    assert_eq!(
        deserialize_fields(&entries).unwrap_err().message(),
        format!("failed to deserialize `fields.p`: {}", map_of_values_error("f2", Value::Bool(false)))
    );
}
