//! The errors of the library and the text each one is reported with.
use vstd::prelude::*;

verus! {

/// Why a field definition, a value or a record was refused.
#[derive(Debug)]
pub enum Error {
    /// The field definition does not start with a known type.
    UnexpectedType,
    /// Nothing follows ` -> ` in a field definition.
    EmptyRename,
    /// Media metadata on a field whose type is not `string`.
    MediaTypeMismatch,
    /// `@media(` without a closing `)`.
    MissingMediaParen,
    /// A media kind other than `image` or `video`.
    UnknownMediaType(String),
    /// Metadata other than `@identifier` or `@media(..)`.
    UnknownMetadata(String),
    /// Input left over after the type, `?` and rename.
    UnexpectedInput(String),
    /// No field of a schema is marked `@identifier`.
    NoIdentifier,
    /// An integer value is empty.
    IntEmpty,
    /// An integer value holds a character that is not a decimal digit.
    IntInvalidDigit,
    /// An integer value does not fit in 32 bits.
    IntOverflow,
    /// A float value is empty.
    FloatEmpty,
    /// A float value is not a float literal.
    FloatInvalid,
    /// A boolean value is neither `true` nor `false`.
    InvalidBool(String),
    /// A record has no value for a field of the schema.
    MissingKey(String),
    /// A field that is not nullable has an empty value.
    EmptyValue(String),
    /// A record has no entry for the schema's identifier field.
    IdentifierMissing,
    /// A record's identifier field is empty.
    IdentifierNoValue,
    /// The CSV reader refused the input; its message.
    Csv(String),
    /// A sheet names a schema that the configuration does not define.
    MissingSchema(String),
    /// A record lacks a column that its schema names.
    UnexpectedRecordKey,
    /// No schema of the configuration has the given name.
    UnknownSchema(String),
    /// The state file is not JSON of the expected shape; the parser's message.
    StateFile(String),
}

/// An error with its text taken by view.
pub enum ErrorView {
    UnexpectedType,
    EmptyRename,
    MediaTypeMismatch,
    MissingMediaParen,
    UnknownMediaType(Seq<char>),
    UnknownMetadata(Seq<char>),
    UnexpectedInput(Seq<char>),
    NoIdentifier,
    IntEmpty,
    IntInvalidDigit,
    IntOverflow,
    FloatEmpty,
    FloatInvalid,
    InvalidBool(Seq<char>),
    MissingKey(Seq<char>),
    EmptyValue(Seq<char>),
    IdentifierMissing,
    IdentifierNoValue,
    Csv(Seq<char>),
    MissingSchema(Seq<char>),
    UnexpectedRecordKey,
    UnknownSchema(Seq<char>),
    StateFile(Seq<char>),
}

impl DeepView for Error {
    type V = ErrorView;

    open spec fn deep_view(&self) -> ErrorView {
        match self {
            Error::UnexpectedType => ErrorView::UnexpectedType,
            Error::EmptyRename => ErrorView::EmptyRename,
            Error::MediaTypeMismatch => ErrorView::MediaTypeMismatch,
            Error::MissingMediaParen => ErrorView::MissingMediaParen,
            Error::UnknownMediaType(s) => ErrorView::UnknownMediaType(s@),
            Error::UnknownMetadata(s) => ErrorView::UnknownMetadata(s@),
            Error::UnexpectedInput(s) => ErrorView::UnexpectedInput(s@),
            Error::NoIdentifier => ErrorView::NoIdentifier,
            Error::IntEmpty => ErrorView::IntEmpty,
            Error::IntInvalidDigit => ErrorView::IntInvalidDigit,
            Error::IntOverflow => ErrorView::IntOverflow,
            Error::FloatEmpty => ErrorView::FloatEmpty,
            Error::FloatInvalid => ErrorView::FloatInvalid,
            Error::InvalidBool(s) => ErrorView::InvalidBool(s@),
            Error::MissingKey(s) => ErrorView::MissingKey(s@),
            Error::EmptyValue(s) => ErrorView::EmptyValue(s@),
            Error::IdentifierMissing => ErrorView::IdentifierMissing,
            Error::IdentifierNoValue => ErrorView::IdentifierNoValue,
            Error::Csv(s) => ErrorView::Csv(s@),
            Error::MissingSchema(s) => ErrorView::MissingSchema(s@),
            Error::UnexpectedRecordKey => ErrorView::UnexpectedRecordKey,
            Error::UnknownSchema(s) => ErrorView::UnknownSchema(s@),
            Error::StateFile(s) => ErrorView::StateFile(s@),
        }
    }
}

/// The text an error is reported with.
pub open spec fn message_of(e: ErrorView) -> Seq<char> {
    match e {
        ErrorView::UnexpectedType => "unexpected type"@,
        ErrorView::EmptyRename => "Expected identifier after ` -> `"@,
        ErrorView::MediaTypeMismatch => "expected field type `String` for media metadata, found `{ty:?}`"@,
        ErrorView::MissingMediaParen => "expected `)` after media type"@,
        ErrorView::UnknownMediaType(s) => "unknown media type `"@ + s + "`"@,
        ErrorView::UnknownMetadata(s) => "unknown metadata `"@ + s + "`"@,
        ErrorView::UnexpectedInput(s) => "unexpected input `"@ + s + "`"@,
        ErrorView::NoIdentifier => "no field has been marked as an identifier"@,
        ErrorView::IntEmpty => "cannot parse integer from empty string"@,
        ErrorView::IntInvalidDigit => "invalid digit found in string"@,
        ErrorView::IntOverflow => "number too large to fit in target type"@,
        ErrorView::FloatEmpty => "cannot parse float from empty string"@,
        ErrorView::FloatInvalid => "invalid float literal"@,
        ErrorView::InvalidBool(s) => "invalid bool value "@ + s,
        ErrorView::MissingKey(s) => "unexpected key `"@ + s + "` in record"@,
        ErrorView::EmptyValue(s) => "field `"@ + s + "` is not nullable but has an empty value"@,
        ErrorView::IdentifierMissing => "identifier field is missing from record"@,
        ErrorView::IdentifierNoValue => "identifier field has no value"@,
        ErrorView::Csv(s) => s,
        ErrorView::MissingSchema(s) => "schema `"@ + s + "` doesn't exist"@,
        ErrorView::UnexpectedRecordKey => "unexpected key in record"@,
        ErrorView::UnknownSchema(s) => "No schema with name "@ + s + " exists."@,
        ErrorView::StateFile(s) => s,
    }
}

/// `open` followed by `middle` and `close`.
fn enclose(open: &str, middle: &str, close: &str) -> (r: String)
    ensures
        r@ == open@ + middle@ + close@,
{
    let mut r = open.to_owned();
    r.append(middle);
    r.append(close);
    r
}

impl Error {
    /// The text this error is reported with.
    pub fn message(&self) -> (m: String)
        ensures
            m@ == message_of(self.deep_view()),
    {
        match self {
            Error::UnexpectedType => "unexpected type".to_owned(),
            Error::EmptyRename => "Expected identifier after ` -> `".to_owned(),
            Error::MediaTypeMismatch => "expected field type `String` for media metadata, found `{ty:?}`".to_owned(),
            Error::MissingMediaParen => "expected `)` after media type".to_owned(),
            Error::UnknownMediaType(s) => enclose("unknown media type `", s.as_str(), "`"),
            Error::UnknownMetadata(s) => enclose("unknown metadata `", s.as_str(), "`"),
            Error::UnexpectedInput(s) => enclose("unexpected input `", s.as_str(), "`"),
            Error::NoIdentifier => "no field has been marked as an identifier".to_owned(),
            Error::IntEmpty => "cannot parse integer from empty string".to_owned(),
            Error::IntInvalidDigit => "invalid digit found in string".to_owned(),
            Error::IntOverflow => "number too large to fit in target type".to_owned(),
            Error::FloatEmpty => "cannot parse float from empty string".to_owned(),
            Error::FloatInvalid => "invalid float literal".to_owned(),
            Error::InvalidBool(s) => {
                let mut r = "invalid bool value ".to_owned();
                r.append(s.as_str());
                r
            },
            Error::MissingKey(s) => enclose("unexpected key `", s.as_str(), "` in record"),
            Error::EmptyValue(s) => enclose("field `", s.as_str(), "` is not nullable but has an empty value"),
            Error::IdentifierMissing => "identifier field is missing from record".to_owned(),
            Error::IdentifierNoValue => "identifier field has no value".to_owned(),
            Error::Csv(s) => s.clone(),
            Error::MissingSchema(s) => enclose("schema `", s.as_str(), "` doesn't exist"),
            Error::UnexpectedRecordKey => "unexpected key in record".to_owned(),
            Error::UnknownSchema(s) => enclose("No schema with name ", s.as_str(), " exists."),
            Error::StateFile(s) => s.clone(),
        }
    }
}

} // verus!
