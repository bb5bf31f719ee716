use fgscsv::cli::{group_by_schema, initial_config, merge_state, overwrite_answer, plan_sheets};
use fgscsv::dsl::{parse_schema, FieldMeta, FieldMetaMedia, FieldType};
use fgscsv::pipeline::{Record, SheetResult, SheetState};
use fgscsv::value::FieldValue;
use fgscsv::config::{Config, Sheet};
use fgscsv::dsl::RawSchema;
use fgscsv::strmap::StrMap;

#[test]
fn initial_config_is_planned() {
    let config = initial_config();
    assert_eq!(config.root_path, "url/to/your/csv/file");
    assert_eq!(config.sheets.len(), 2);
    let product = config.schemas.get("product").unwrap();
    assert_eq!(product.len(), 6);
    assert_eq!(product.get("base qty").unwrap(), "string -> base_qty");
    let jobs = plan_sheets(&config).unwrap();
    assert_eq!(jobs.len(), 2);
    assert_eq!(jobs[0].sheet_id, "1234");
    assert_eq!(jobs[1].sheet_id, "4321");
    assert_eq!(jobs[0].schema_name, "product");
    assert_eq!(jobs[0].schema.identifier, "id");
    assert_eq!(jobs[0].schema.fields.len(), 6);
}

#[test]
fn plan_sheets_errors() {
    let mut sheets = StrMap::new();
    sheets.insert(
        "1".to_string(),
        Sheet { name: "One".to_string(), schema: "missing".to_string() },
    );
    let config = Config { root_path: String::new(), schemas: StrMap::new(), sheets };
    assert_eq!(
        plan_sheets(&config).unwrap_err().message(),
        "schema `missing` doesn't exist"
    );

    let mut bad = RawSchema::new();
    bad.insert("name".to_string(), "string".to_string());
    let mut schemas = StrMap::new();
    schemas.insert("s".to_string(), bad);
    let mut sheets = StrMap::new();
    sheets.insert("1".to_string(), Sheet { name: "One".to_string(), schema: "s".to_string() });
    let config = Config { root_path: String::new(), schemas, sheets };
    assert_eq!(
        plan_sheets(&config).unwrap_err().message(),
        "no field has been marked as an identifier"
    );
}

#[test]
fn merge_state_prefers_later_hashes() {
    let mut into = StrMap::new();
    into.insert("a".to_string(), "1".to_string());
    into.insert("b".to_string(), "2".to_string());
    let mut from = StrMap::new();
    from.insert("b".to_string(), "3".to_string());
    from.insert("c".to_string(), "4".to_string());
    merge_state(&mut into, &from);
    assert_eq!(into.len(), 3);
    assert_eq!(into.get("a").unwrap(), "1");
    assert_eq!(into.get("b").unwrap(), "3");
    assert_eq!(into.get("c").unwrap(), "4");
}

#[test]
fn overwrite_answers() {
    assert_eq!(overwrite_answer("y\n"), Some(true));
    assert_eq!(overwrite_answer("  YES \r\n"), Some(true));
    assert_eq!(overwrite_answer("No\n"), Some(false));
    assert_eq!(overwrite_answer("\n"), Some(false));
    assert_eq!(overwrite_answer("\u{3000}n\u{a0}"), Some(false));
    assert_eq!(overwrite_answer("maybe\n"), None);
    assert_eq!(overwrite_answer("y es"), None);
}

fn sheet(ids: &[&str], hashes: &[(&str, &str)]) -> SheetResult {
    let records = ids
        .iter()
        .map(|id| {
            let mut r = Record::new();
            r.insert("id".to_string(), Some(FieldValue::String(id.to_string())));
            r
        })
        .collect();
    let mut state = SheetState::new();
    for (k, v) in hashes {
        state.insert(k.to_string(), v.to_string());
    }
    SheetResult { records, state }
}

fn ids_of(records: &[Record]) -> Vec<String> {
    records
        .iter()
        .map(|r| match r.get("id").unwrap() {
            Some(FieldValue::String(s)) => s.clone(),
            other => panic!("unexpected id {:?}", other),
        })
        .collect()
}

#[test]
fn group_by_schema_joins_sheets_of_a_schema() {
    let results = vec![
        ("product".to_string(), sheet(&["1", "2"], &[("1", "a"), ("2", "b")])),
        ("category".to_string(), sheet(&["c"], &[("c", "x")])),
        ("product".to_string(), sheet(&["2", "3"], &[("2", "B"), ("3", "c")])),
    ];
    let grouped = group_by_schema(results);
    assert_eq!(grouped.len(), 2);
    let product = grouped.get("product").unwrap();
    assert_eq!(ids_of(&product.records), vec!["1", "2", "2", "3"]);
    assert_eq!(product.state.len(), 3);
    assert_eq!(product.state.get("1").unwrap(), "a");
    assert_eq!(product.state.get("2").unwrap(), "B");
    assert_eq!(product.state.get("3").unwrap(), "c");
    let category = grouped.get("category").unwrap();
    assert_eq!(ids_of(&category.records), vec!["c"]);
    assert_eq!(category.state.get("c").unwrap(), "x");
    assert!(grouped.get("other").is_none());
    assert_eq!(group_by_schema(Vec::new()).len(), 0);
}

#[test]
fn initial_product_schema_parses_to_six_fields() {
    let config = initial_config();
    let schema = parse_schema(config.schemas.get("product").unwrap()).unwrap();
    assert_eq!(schema.fields.len(), 6);
    assert_eq!(schema.identifier, "id");
    let id = schema.fields.get("id").unwrap();
    assert_eq!(id.meta, Some(FieldMeta::Identifier));
    let price = schema.fields.get("price").unwrap();
    assert_eq!(price.ty, FieldType::Float);
    let qty = schema.fields.get("base qty").unwrap();
    assert_eq!(qty.rename, Some("base_qty".to_string()));
    let img = schema.fields.get("img1").unwrap();
    assert!(img.nullable);
    assert_eq!(img.meta, Some(FieldMeta::Media(FieldMetaMedia::Image)));
    assert!(schema.fields.get("description").unwrap().nullable);
}
