use fgscsv::dsl::RawSchema;
use fgscsv::export::{deserialize_record, deserialize_sheet};
use fgscsv::strmap::StrMap;
use fgscsv::value::FieldValue;

fn schemas() -> StrMap<RawSchema> {
    let mut product = RawSchema::new();
    product.insert("id".to_string(), "string @identifier".to_string());
    product.insert("qty".to_string(), "int? -> count".to_string());
    product.insert("pic".to_string(), "int @media(image)".to_string());
    let mut all = StrMap::new();
    all.insert("product".to_string(), product);
    all
}

#[test]
fn deserialize_record_reads_each_column() {
    let mut record = StrMap::new();
    record.insert("id".to_string(), "a1".to_string());
    record.insert("qty".to_string(), "".to_string());
    record.insert("pic".to_string(), "3".to_string());
    let out = deserialize_record(record, "product", &schemas()).unwrap();
    assert_eq!(out.len(), 3);
    assert_eq!(out.get("id").unwrap(), &Some(FieldValue::String("a1".to_string())));
    assert_eq!(out.get("count").unwrap(), &None);
    assert_eq!(out.get("pic").unwrap(), &Some(FieldValue::Int(3)));
}

#[test]
fn deserialize_record_errors() {
    let mut record = StrMap::new();
    record.insert("id".to_string(), "a1".to_string());
    let err = deserialize_record(record, "product", &schemas()).unwrap_err();
    assert_eq!(err.message(), "unexpected key in record");

    let record = StrMap::new();
    let err = deserialize_record(record, "order", &schemas()).unwrap_err();
    assert_eq!(err.message(), "No schema with name order exists.");
}

#[test]
fn deserialize_sheet_reads_rows() {
    let rows = deserialize_sheet("id,qty,pic\nx,4,1\ny,,2\n", "product", &schemas()).unwrap();
    assert_eq!(rows.len(), 2);
    assert_eq!(rows[0].get("count").unwrap(), &Some(FieldValue::Int(4)));
    assert_eq!(rows[1].get("id").unwrap(), &Some(FieldValue::String("y".to_string())));
    assert_eq!(rows[1].get("count").unwrap(), &None);
    // an unknown schema refuses the first row, and only when there is one
    assert_eq!(
        deserialize_sheet("id\nx\n", "order", &schemas()).unwrap_err().message(),
        "No schema with name order exists."
    );
    assert_eq!(deserialize_sheet("id\n", "order", &schemas()).unwrap().len(), 0);
}
