use fgscsv::dsl::{
    parse_field, parse_schema, strip_some_prefix, FieldMeta, FieldMetaMedia, FieldType, RawSchema,
};
use fgscsv::error::Error;
use fgscsv::export::deserialize_field;
use fgscsv::value::FieldValue;

#[test]
fn parse_field_basic() {
    let field = parse_field("string").unwrap();
    assert!(matches!(field.ty, FieldType::String));
    assert!(!field.nullable);
    assert_eq!(field.rename, None);
    assert!(field.meta.is_none());

    let field = parse_field("int? -> count @identifier").unwrap();
    assert!(matches!(field.ty, FieldType::Int));
    assert!(field.nullable);
    assert_eq!(field.rename, Some("count".to_owned()));
    assert!(matches!(field.meta, Some(FieldMeta::Identifier)));
}

#[test]
fn parse_field_media() {
    let field = parse_field("string? @media(image)").unwrap();
    assert!(matches!(field.ty, FieldType::String));
    assert!(field.nullable);
    assert!(field.rename.is_none());
    let meta = field.meta.unwrap();
    match meta {
        FieldMeta::Media(media) => assert!(matches!(media, FieldMetaMedia::Image)),
        _ => panic!("expected Media"),
    }
}

#[test]
fn parse_field_media_err() {
    let field_err = parse_field("int @media(image)").unwrap_err();
    let err_msg = field_err.message();
    assert_eq!(
        err_msg,
        "expected field type `String` for media metadata, found `{ty:?}`".to_string()
    );
}

#[test]
fn parse_field_errors() {
    assert!(parse_field("unknown").is_err());
    assert!(parse_field("int -> ").is_err()); // empty rename
    assert!(parse_field("string @unknown").is_err());
    assert!(parse_field("string @media(unknown)").is_err());
    assert!(parse_field("bool? extra").is_err()); // unexpected trailing
}

#[test]
fn strip_some_prefix_works() {
    let input = "string? -> name";
    let (prefix, rest) = strip_some_prefix(input, vec!["string", "int", "float", "bool"]).unwrap();
    assert_eq!(prefix, "string");
    assert_eq!(rest, "? -> name");

    let input = "float";
    let (prefix, rest) = strip_some_prefix(input, vec!["string", "int", "float", "bool"]).unwrap();
    assert_eq!(prefix, "float");
    assert_eq!(rest, "");

    let input = "unknown";
    assert!(strip_some_prefix(input, vec!["string", "int", "float", "bool"]).is_none());
}

#[test]
fn field_type_parse() {
    let ty = FieldType::String;
    assert!(matches!(ty.parse("hello").unwrap(), FieldValue::String(s) if s == "hello"));

    let ty = FieldType::Int;
    assert!(matches!(ty.parse("42").unwrap(), FieldValue::Int(42)));
    assert!(ty.parse("foo").is_err());

    let ty = FieldType::Float;
    assert!(matches!(
        ty.parse("3.14").unwrap(),
        FieldValue::Float(v) if (v.parse::<f64>().unwrap() - 3.14).abs() < 1e-9
    ));
    assert!(ty.parse("abc").is_err());

    let ty = FieldType::Bool;
    assert!(matches!(ty.parse("true").unwrap(), FieldValue::Bool(true)));
    assert!(matches!(ty.parse("false").unwrap(), FieldValue::Bool(false)));
    assert!(matches!(ty.parse("True").unwrap(), FieldValue::Bool(true)));
    assert!(ty.parse("1").is_err());
}

#[test]
fn parse_schema_ok() {
    let mut raw = RawSchema::new();
    raw.insert("id".to_string(), "string @identifier".to_string());
    raw.insert("name".to_string(), "string".to_string());
    raw.insert("qty".to_string(), "int? -> count".to_string());

    let schema = parse_schema(&raw).unwrap();
    assert_eq!(schema.fields.len(), 3);
    let id_field = schema.fields.get("id").unwrap();
    assert!(matches!(id_field.ty, FieldType::String));
    assert!(matches!(id_field.meta, Some(FieldMeta::Identifier)));
    let qty_field = schema.fields.get("qty").unwrap();
    assert!(matches!(qty_field.ty, FieldType::Int));
    assert_eq!(qty_field.rename, Some("count".to_string()));
    assert!(qty_field.nullable);
}

#[test]
fn parse_schema_error() {
    let mut raw = RawSchema::new();
    raw.insert("bad".to_string(), "unknown".to_string());
    assert!(parse_schema(&raw).is_err());
}

#[test]
fn parse_schema_no_identifier() {
    let mut raw = RawSchema::new();
    raw.insert("name".into(), "string".into());
    raw.insert("qty".into(), "int -> count".into());
    let err = parse_schema(&raw).unwrap_err();
    assert!(err
        .message()
        .contains("no field has been marked as an identifier"))
}

#[test]
fn parse_schema_identifier_is_first_marked_field() {
    let mut raw = RawSchema::new();
    raw.insert("name".into(), "string".into());
    raw.insert("sku".into(), "string @identifier".into());
    raw.insert("code".into(), "int @identifier".into());
    let schema = parse_schema(&raw).unwrap();
    assert_eq!(schema.identifier, "sku");
}

#[test]
fn parse_schema_reports_first_bad_definition() {
    let mut raw = RawSchema::new();
    raw.insert("id".into(), "string @identifier".into());
    raw.insert("a".into(), "bool? extra".into());
    raw.insert("b".into(), "text".into());
    let err = parse_schema(&raw).unwrap_err();
    assert_eq!(err.message(), "unknown metadata `extra`");
}

#[test]
fn parse_field_error_messages() {
    assert_eq!(parse_field("unknown").unwrap_err().message(), "unexpected type");
    assert_eq!(
        parse_field("int -> ").unwrap_err().message(),
        "Expected identifier after ` -> `"
    );
    assert_eq!(
        parse_field("string @unknown").unwrap_err().message(),
        "unknown metadata `@unknown`"
    );
    assert_eq!(
        parse_field("string @media(unknown)").unwrap_err().message(),
        "unknown media type `unknown`"
    );
    assert_eq!(
        parse_field("string @media(image").unwrap_err().message(),
        "expected `)` after media type"
    );
    assert_eq!(
        parse_field("bool? extra").unwrap_err().message(),
        "unknown metadata `extra`"
    );
    assert_eq!(
        parse_field("int!").unwrap_err().message(),
        "unexpected input `!`"
    );
    assert!(matches!(parse_field("float?->x"), Err(Error::UnexpectedInput(s)) if s == "->x"));
}

#[test]
fn parse_field_rename_stops_at_space() {
    let field = parse_field("float -> price_eur @media(video)");
    assert!(field.is_err());
    let field = parse_field("string -> pic @media(video)").unwrap();
    assert_eq!(field.rename, Some("pic".to_owned()));
    assert!(matches!(field.meta, Some(FieldMeta::Media(FieldMetaMedia::Video))));
    let field = parse_field("bool -> flag").unwrap();
    assert_eq!(field.rename, Some("flag".to_owned()));
    assert!(field.meta.is_none());
    // two spaces before the metadata leave a space in it
    assert!(matches!(
        parse_field("string  @identifier"),
        Err(Error::UnknownMetadata(s)) if s == " @identifier"
    ));
}

#[test]
fn deserialize_field_accepts_media_on_any_type() {
    let field = deserialize_field("int @media(image)").unwrap();
    assert!(matches!(field.ty, FieldType::Int));
    assert!(matches!(field.meta, Some(FieldMeta::Media(FieldMetaMedia::Image))));
    // otherwise the two readings agree
    let a = parse_field("string? -> x @identifier").unwrap();
    let b = deserialize_field("string? -> x @identifier").unwrap();
    assert_eq!(a.rename, b.rename);
    assert_eq!(a.nullable, b.nullable);
    assert_eq!(a.meta, b.meta);
    assert_eq!(
        deserialize_field("int @media(audio)").unwrap_err().message(),
        "unknown media type `audio`"
    );
}

#[test]
fn parse_schema_fields_are_parsed_definitions() {
    let mut raw = RawSchema::new();
    raw.insert("id".into(), "int @identifier".into());
    raw.insert("img".into(), "string? @media(video)".into());
    raw.insert("flag".into(), "bool -> active".into());
    let schema = parse_schema(&raw).unwrap();
    assert_eq!(schema.fields.len(), raw.len());
    for (column, definition) in raw.entries() {
        let parsed = parse_field(definition).unwrap();
        let field = schema.fields.get(column).unwrap();
        assert_eq!(field.ty, parsed.ty);
        assert_eq!(field.nullable, parsed.nullable);
        assert_eq!(field.rename, parsed.rename);
        assert_eq!(field.meta, parsed.meta);
    }
}
