use fgscsv::dsl::{Field, FieldMeta, FieldType, Schema};
use fgscsv::error::Error;
use fgscsv::pipeline::{
    get_current_state, get_new_state, get_record_state_hash, get_record_states, process_record,
    state_from_entries, Record, RecordState, SheetState,
};
use fgscsv::strmap::StrMap;
use fgscsv::table::process_sheet_content;
use fgscsv::value::FieldValue;

// Helper to build a schema from a list of fields
fn build_schema(fields: Vec<(&str, Field)>) -> Schema {
    let identifier = fields
        .iter()
        .find(|(_name, field)| field.meta == Some(FieldMeta::Identifier))
        .map(|(name, _)| (*name).to_string())
        .unwrap();

    let mut map = StrMap::new();

    for (name, field) in fields {
        map.insert(name.to_string(), field);
    }

    Schema {
        identifier,
        fields: map,
    }
}

fn id_field() -> Field {
    Field {
        ty: FieldType::String,
        nullable: false,
        rename: None,
        meta: Some(FieldMeta::Identifier),
    }
}

#[test]
fn process_record_ok() {
    let schema = build_schema(vec![
        ("id", id_field()),
        (
            "price",
            Field {
                ty: FieldType::Float,
                nullable: true,
                rename: Some("cost".to_string()),
                meta: None,
            },
        ),
    ]);

    let mut record = StrMap::new();
    record.insert("id".to_string(), "abc".to_string());
    record.insert("price".to_string(), "12.5".to_string());

    let result = process_record(record, &schema).unwrap();
    assert_eq!(result.len(), 2);
    assert_eq!(
        result.get("id").unwrap(),
        &Some(FieldValue::String("abc".to_string()))
    );
    match result.get("cost").unwrap() {
        Some(FieldValue::Float(text)) => assert_eq!(text.parse::<f64>().unwrap(), 12.5),
        other => panic!("expected a float, found {other:?}"),
    }
}

#[test]
fn process_record_nullable_empty() {
    let schema = build_schema(vec![
        ("id", id_field()),
        (
            "qty",
            Field {
                ty: FieldType::Int,
                nullable: true,
                rename: None,
                meta: None,
            },
        ),
    ]);

    let mut record = StrMap::new();
    record.insert("id".to_string(), "1".to_string());
    record.insert("qty".to_string(), "".to_string());

    let result = process_record(record, &schema).unwrap();
    assert_eq!(result.get("qty").unwrap(), &None);
}

#[test]
fn process_record_non_nullable_empty_error() {
    let schema = build_schema(vec![
        ("id", id_field()),
        (
            "qty",
            Field {
                ty: FieldType::Int,
                nullable: false,
                rename: None,
                meta: None,
            },
        ),
    ]);

    let mut record = StrMap::new();
    record.insert("id".to_string(), "123".to_string());
    record.insert("qty".to_string(), "".to_string());

    let err = process_record(record, &schema).unwrap_err();
    let msg = err.message();
    assert!(msg.contains("not nullable") && msg.contains("empty value"));
}

#[test]
fn process_record_missing_key_error() {
    let schema = build_schema(vec![("id", id_field())]);

    let record = StrMap::new(); // no "id" key

    let err = process_record(record, &schema).unwrap_err();
    let msg = err.message();
    assert!(msg.contains("unexpected key `id`"));
}

#[test]
fn process_record_later_field_replaces_same_output_name() {
    let schema = build_schema(vec![
        ("id", id_field()),
        (
            "a",
            Field {
                ty: FieldType::Int,
                nullable: false,
                rename: Some("id".to_string()),
                meta: None,
            },
        ),
    ]);
    let mut record = StrMap::new();
    record.insert("id".to_string(), "x".to_string());
    record.insert("a".to_string(), "7".to_string());
    let result = process_record(record, &schema).unwrap();
    assert_eq!(result.len(), 1);
    assert_eq!(result.get("id").unwrap(), &Some(FieldValue::Int(7)));
}

#[test]
fn process_record_value_errors() {
    let schema = build_schema(vec![
        ("id", id_field()),
        (
            "n",
            Field { ty: FieldType::Int, nullable: false, rename: None, meta: None },
        ),
    ]);
    let cases = [
        ("4294967296", "number too large to fit in target type"),
        ("-1", "invalid digit found in string"),
        ("+", "invalid digit found in string"),
        ("12a", "invalid digit found in string"),
    ];
    for (text, message) in cases {
        let mut record = StrMap::new();
        record.insert("id".to_string(), "x".to_string());
        record.insert("n".to_string(), text.to_string());
        assert_eq!(process_record(record, &schema).unwrap_err().message(), message);
    }
    let mut record = StrMap::new();
    record.insert("id".to_string(), "x".to_string());
    record.insert("n".to_string(), "+4294967295".to_string());
    let result = process_record(record, &schema).unwrap();
    assert_eq!(result.get("n").unwrap(), &Some(FieldValue::Int(u32::MAX)));
}

#[test]
fn process_sheet_content_ok() {
    let schema = build_schema(vec![
        ("id", id_field()),
        (
            "name",
            Field {
                ty: FieldType::String,
                nullable: false,
                rename: None,
                meta: None,
            },
        ),
        (
            "age",
            Field {
                ty: FieldType::Int,
                nullable: true,
                rename: None,
                meta: None,
            },
        ),
    ]);

    let csv_data = "id,name,age\n1,Alice,30\n2,Bob,\n3,Charlie,25";
    let result = process_sheet_content(csv_data, &schema).unwrap();

    assert_eq!(result.len(), 3);
    // First record
    let r0 = &result[0];
    assert_eq!(
        r0.get("name").unwrap(),
        &Some(FieldValue::String("Alice".to_string()))
    );
    assert_eq!(r0.get("age").unwrap(), &Some(FieldValue::Int(30)));
    // Second record with empty age -> None
    let r1 = &result[1];
    assert_eq!(
        r1.get("name").unwrap(),
        &Some(FieldValue::String("Bob".to_string()))
    );
    assert_eq!(r1.get("age").unwrap(), &None);
    // Third
    let r2 = &result[2];
    assert_eq!(
        r2.get("name").unwrap(),
        &Some(FieldValue::String("Charlie".to_string()))
    );
    assert_eq!(r2.get("age").unwrap(), &Some(FieldValue::Int(25)));
}

#[test]
fn process_sheet_content_error_on_invalid_type() {
    let schema = build_schema(vec![
        ("id", id_field()),
        (
            "age",
            Field {
                ty: FieldType::Int,
                nullable: false,
                rename: None,
                meta: None,
            },
        ),
    ]);

    let csv_data = "age\nnot_a_number";
    let result = process_sheet_content(csv_data, &schema);
    assert!(result.is_err());
}

#[test]
fn process_sheet_content_reports_unequal_rows() {
    let schema = build_schema(vec![("id", id_field())]);
    let err = process_sheet_content("id,name\n1,a\n2", &schema).unwrap_err();
    assert!(err.message().contains("found record with 1 field"));
    // a header row alone gives no records
    assert_eq!(process_sheet_content("id,name\n", &schema).unwrap().len(), 0);
}

fn state(entries: &[(&str, &str)]) -> SheetState {
    let mut s = StrMap::new();
    for (k, v) in entries {
        s.insert(k.to_string(), v.to_string());
    }
    s
}

#[test]
fn get_record_states_reports_each_change() {
    let old = state(&[("a", "1"), ("b", "2"), ("c", "3")]);
    let new = state(&[("b", "2"), ("c", "4"), ("d", "5")]);
    let states = get_record_states(&old, &new);
    assert_eq!(states.len(), 3);
    assert_eq!(
        states.get("a").unwrap(),
        &RecordState::Deleted { hash: "1".to_string() }
    );
    assert_eq!(
        states.get("c").unwrap(),
        &RecordState::Updated { old_hash: "3".to_string(), new_hash: "4".to_string() }
    );
    assert_eq!(
        states.get("d").unwrap(),
        &RecordState::Added { hash: "5".to_string() }
    );
    assert!(states.get("b").is_none());
}

#[test]
fn get_record_states_of_equal_states_is_empty() {
    let s = state(&[("a", "1"), ("b", "2")]);
    assert_eq!(get_record_states(&s, &s).len(), 0);
}

#[test]
fn get_record_states_reversed() {
    let old = state(&[("a", "1"), ("c", "3")]);
    let new = state(&[("c", "4"), ("d", "5")]);
    let back = get_record_states(&new, &old);
    assert_eq!(back.get("a").unwrap(), &RecordState::Added { hash: "1".to_string() });
    assert_eq!(back.get("d").unwrap(), &RecordState::Deleted { hash: "5".to_string() });
    assert_eq!(
        back.get("c").unwrap(),
        &RecordState::Updated { old_hash: "4".to_string(), new_hash: "3".to_string() }
    );
}

#[test]
fn get_record_states_applied_give_new_state() {
    let old = state(&[("a", "1"), ("b", "2"), ("c", "3")]);
    let new = state(&[("b", "2"), ("c", "4"), ("d", "5")]);
    let states = get_record_states(&old, &new);
    let mut applied = std::collections::BTreeMap::new();
    for (k, v) in old.entries() {
        applied.insert(k.clone(), v.clone());
    }
    for (k, change) in states.entries() {
        match change {
            RecordState::Added { hash } => {
                applied.insert(k.clone(), hash.clone());
            }
            RecordState::Updated { new_hash, .. } => {
                applied.insert(k.clone(), new_hash.clone());
            }
            RecordState::Deleted { .. } => {
                applied.remove(k);
            }
        }
    }
    let mut expected = std::collections::BTreeMap::new();
    for (k, v) in new.entries() {
        expected.insert(k.clone(), v.clone());
    }
    assert_eq!(applied, expected);
}

fn record(entries: Vec<(&str, Option<FieldValue>)>) -> Record {
    let mut r = StrMap::new();
    for (k, v) in entries {
        r.insert(k.to_string(), v);
    }
    r
}

#[test]
fn get_new_state_maps_identifiers_to_hashes() {
    let records = vec![
        record(vec![("id", Some(FieldValue::Int(7))), ("x", None)]),
        record(vec![("id", Some(FieldValue::Bool(true)))]),
        record(vec![("id", Some(FieldValue::String("k".to_string())))]),
        record(vec![("id", Some(FieldValue::Float("1e2".to_string())))]),
        record(vec![("id", Some(FieldValue::Int(7)))]),
    ];
    let hashes: Vec<String> = ["h0", "h1", "h2", "h3", "h4"].iter().map(|s| s.to_string()).collect();
    let state = get_new_state(&records, &hashes, "id", |t: &str| {
        t.parse::<f64>().unwrap().to_string()
    })
    .unwrap();
    assert_eq!(state.len(), 4);
    assert_eq!(state.get("7").unwrap(), "h4");
    assert_eq!(state.get("true").unwrap(), "h1");
    assert_eq!(state.get("k").unwrap(), "h2");
    assert_eq!(state.get("100").unwrap(), "h3");
}

#[test]
fn get_new_state_errors() {
    let hashes = vec!["h".to_string()];
    let missing = vec![record(vec![("name", None)])];
    let err = get_new_state(&missing, &hashes, "id", |t: &str| t.to_string()).unwrap_err();
    assert_eq!(err.message(), "identifier field is missing from record");
    let empty = vec![record(vec![("id", None)])];
    let err = get_new_state(&empty, &hashes, "id", |t: &str| t.to_string()).unwrap_err();
    assert_eq!(err.message(), "identifier field has no value");
}

#[test]
fn process_sheet_content_first_failing_row_gives_the_error() {
    let schema = build_schema(vec![
        ("id", id_field()),
        (
            "age",
            Field {
                ty: FieldType::Int,
                nullable: false,
                rename: None,
                meta: None,
            },
        ),
    ]);
    let err = process_sheet_content("id,age\n1,5\n2,x\n3,\n", &schema).unwrap_err();
    assert_eq!(err.message(), "invalid digit found in string");
    let err = process_sheet_content("id,age\n1,5\n3,\n2,x\n", &schema).unwrap_err();
    assert_eq!(err.message(), "field `age` is not nullable but has an empty value");
    let records = process_sheet_content("id,age\n7,5\n3,6\n", &schema).unwrap();
    assert_eq!(records.len(), 2);
    assert_eq!(
        records[0].get("id").unwrap(),
        &Some(FieldValue::String("7".to_string()))
    );
    assert_eq!(
        records[1].get("id").unwrap(),
        &Some(FieldValue::String("3".to_string()))
    );
}

#[test]
fn record_state_hash_is_blake3_hex() {
    assert_eq!(
        get_record_state_hash(b""),
        "af1349b9f5f9a1a6a0404dea36dcc9499bcb25c9adc112b7cc9a93cae41f3262"
    );
    let a = get_record_state_hash(br#"{"id":"1"}"#);
    let b = get_record_state_hash(br#"{"id":"2"}"#);
    assert_ne!(a, b);
    assert_ne!(a.as_bytes(), br#"{"id":"1"}"#);
    assert_eq!(a.len(), 64);
    assert!(a.chars().all(|c| c.is_ascii_digit() || ('a'..='f').contains(&c)));
    assert_eq!(a, get_record_state_hash(br#"{"id":"1"}"#));
}

#[test]
fn current_state_without_a_file_is_empty() {
    assert_eq!(get_current_state(None, "product").unwrap().len(), 0);
}

#[test]
fn current_state_reads_the_schema_entry() {
    let file = br#"{"product":{"1":"aa","2":"bb"},"other":{"3":"cc"}}"#;
    let s = get_current_state(Some(file), "product").unwrap();
    assert_eq!(s.len(), 2);
    assert_eq!(s.get("1").unwrap(), "aa");
    assert_eq!(s.get("2").unwrap(), "bb");
    assert!(s.get("3").is_none());
    assert_eq!(get_current_state(Some(file), "missing").unwrap().len(), 0);
}

#[test]
fn current_state_refuses_malformed_files() {
    for file in [&b"nope"[..], &br#"{"product":[1]}"#[..], &br#"{"product":{"1":2}}"#[..]] {
        match get_current_state(Some(file), "product") {
            Err(Error::StateFile(m)) => assert!(m.contains("line 1")),
            other => panic!("expected a state file error, got {:?}", other),
        }
    }
}

#[test]
fn state_from_entries_later_entries_win() {
    let entries = vec![
        ("p".to_string(), vec![("1".to_string(), "old".to_string())]),
        (
            "p".to_string(),
            vec![
                ("1".to_string(), "x".to_string()),
                ("1".to_string(), "y".to_string()),
                ("2".to_string(), "z".to_string()),
            ],
        ),
    ];
    let s = state_from_entries(Ok(entries), "p").unwrap();
    assert_eq!(s.len(), 2);
    assert_eq!(s.get("1").unwrap(), "y");
    assert_eq!(s.get("2").unwrap(), "z");
    let e = state_from_entries(Err("bad".to_string()), "p").unwrap_err();
    assert_eq!(e.message(), "bad");
}
