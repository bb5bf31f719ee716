//! The field DSL: a schema maps each CSV column to a definition such as
//! `int? -> count @identifier` (type, optional `?`, optional rename, optional metadata).
use vstd::prelude::*;

use crate::error::{Error, ErrorView};
use crate::strmap::{StrMap, distinct_keys, pairs_to_map};
use crate::text::{first_index_of, has_prefix, has_suffix};

verus! {

/// The type of a field's values.
#[derive(Debug, Clone, Copy, PartialEq, Eq, Structural)]
pub enum FieldType {
    String,
    Int,
    Float,
    Bool,
}

/// The kind of media a field links to.
#[derive(Debug, Clone, Copy, PartialEq, Eq, Structural)]
pub enum FieldMetaMedia {
    Image,
    Video,
}

/// What a field is marked with after its type.
#[derive(Debug, Clone, Copy, PartialEq, Eq, Structural)]
pub enum FieldMeta {
    Identifier,
    Media(FieldMetaMedia),
}

/// A parsed field definition.
#[derive(Debug)]
pub struct Field {
    pub ty: FieldType,
    pub nullable: bool,
    pub rename: Option<String>,
    pub meta: Option<FieldMeta>,
}

/// A field definition with its rename taken by view.
pub struct FieldView {
    pub ty: FieldType,
    pub nullable: bool,
    pub rename: Option<Seq<char>>,
    pub meta: Option<FieldMeta>,
}

impl DeepView for Field {
    type V = FieldView;

    open spec fn deep_view(&self) -> FieldView {
        FieldView {
            ty: self.ty,
            nullable: self.nullable,
            rename: match self.rename {
                Some(s) => Some(s@),
                None => None,
            },
            meta: self.meta,
        }
    }
}

/// The raw definitions of a schema: column name to DSL text.
pub type RawSchema = StrMap<String>;

/// A parsed schema: its fields by column name, and the column that identifies a record.
#[derive(Debug)]
pub struct Schema {
    pub fields: StrMap<Field>,
    pub identifier: String,
}

/// Index of the first of `ps` that is a prefix of `s`, or `ps.len()` when none is.
pub open spec fn first_prefix_index(s: Seq<char>, ps: Seq<Seq<char>>) -> int
    decreases ps.len(),
{
    if ps.len() == 0 {
        0
    } else if has_prefix(s, ps[0]) {
        0
    } else {
        1 + first_prefix_index(s, ps.drop_first())
    }
}

pub proof fn lemma_first_prefix_index(s: Seq<char>, ps: Seq<Seq<char>>)
    ensures
        0 <= first_prefix_index(s, ps) <= ps.len(),
        first_prefix_index(s, ps) < ps.len() ==> has_prefix(s, ps[first_prefix_index(s, ps)]),
        forall|j: int| 0 <= j < first_prefix_index(s, ps) ==> !has_prefix(s, #[trigger] ps[j]),
    decreases ps.len(),
{
    if ps.len() > 0 && !has_prefix(s, ps[0]) {
        lemma_first_prefix_index(s, ps.drop_first());
        assert forall|j: int| 0 <= j < first_prefix_index(s, ps) implies !has_prefix(
            s,
            #[trigger] ps[j],
        ) by {
            if j > 0 {
                assert(ps[j] == ps.drop_first()[j - 1]);
            }
        }
    }
}

/// Finds the first of `possible_prefixes` that `input` starts with, and returns it with the
/// rest of `input`.
pub fn strip_some_prefix<'a>(input: &'a str, possible_prefixes: Vec<&'a str>) -> (r: Option<
    (&'a str, &'a str),
>)
    ensures
        ({
            let ps = possible_prefixes@.map_values(|p: &'a str| p@);
            let k = first_prefix_index(input@, ps);
            &&& r is None <==> k == ps.len()
            &&& r matches Some((p, rest)) ==> p@ == ps[k] && rest@ == input@.skip(ps[k].len() as int)
        }),
        r matches Some((p, rest)) ==> p@ + rest@ == input@,
{
    let ghost ps = possible_prefixes@.map_values(|p: &'a str| p@);
    proof {
        lemma_first_prefix_index(input@, ps);
    }
    let n = possible_prefixes.len();
    let mut i: usize = 0;
    while i < n
        invariant
            n == possible_prefixes@.len(),
            ps == possible_prefixes@.map_values(|p: &'a str| p@),
            i <= n,
            i <= first_prefix_index(input@, ps),
            0 <= first_prefix_index(input@, ps) <= ps.len(),
            first_prefix_index(input@, ps) < ps.len() ==> has_prefix(
                input@,
                ps[first_prefix_index(input@, ps)],
            ),
            forall|j: int| 0 <= j < first_prefix_index(input@, ps) ==> !has_prefix(input@, #[trigger] ps[j]),
        decreases n - i,
    {
        let prefix = possible_prefixes[i];
        assert(ps[i as int] == prefix@);
        match crate::text::strip_prefix(input, prefix) {
            Some(rest) => {
                assert(prefix@ + rest@ =~= input@);
                return Some((prefix, rest));
            },
            None => {},
        }
        i = i + 1;
    }
    None
}

/// The type a definition starts with, and what follows it.
pub open spec fn spec_leading_type(s: Seq<char>) -> Option<(FieldType, Seq<char>)> {
    if has_prefix(s, "string"@) {
        Some((FieldType::String, s.skip("string"@.len() as int)))
    } else if has_prefix(s, "int"@) {
        Some((FieldType::Int, s.skip("int"@.len() as int)))
    } else if has_prefix(s, "float"@) {
        Some((FieldType::Float, s.skip("float"@.len() as int)))
    } else if has_prefix(s, "bool"@) {
        Some((FieldType::Bool, s.skip("bool"@.len() as int)))
    } else {
        None
    }
}

/// An optional ` -> name` (the name runs up to the next space), and what follows it.
pub open spec fn spec_rename(r: Seq<char>) -> Result<(Option<Seq<char>>, Seq<char>), ErrorView> {
    if has_prefix(r, " -> "@) {
        let a = r.skip(" -> "@.len() as int);
        let e = first_index_of(a, ' ');
        if e == 0 {
            Err(ErrorView::EmptyRename)
        } else {
            Ok((Some(a.take(e)), a.skip(e)))
        }
    } else {
        Ok((None, r))
    }
}

/// The metadata that ends a definition: nothing, ` @identifier` or ` @media(image|video)`.
/// When `media_needs_string` holds, media metadata is refused on a field not of type `string`.
pub open spec fn spec_meta(r: Seq<char>, ty: FieldType, media_needs_string: bool) -> Result<
    Option<FieldMeta>,
    ErrorView,
> {
    if r.len() == 0 {
        Ok(None)
    } else if has_prefix(r, " "@) {
        let a = r.skip(" "@.len() as int);
        if a == "@identifier"@ {
            Ok(Some(FieldMeta::Identifier))
        } else if has_prefix(a, "@media("@) {
            if media_needs_string && ty != FieldType::String {
                Err(ErrorView::MediaTypeMismatch)
            } else {
                let m = a.skip("@media("@.len() as int);
                if !has_suffix(m, ")"@) {
                    Err(ErrorView::MissingMediaParen)
                } else {
                    let inner = m.take(m.len() - ")"@.len());
                    if inner == "image"@ {
                        Ok(Some(FieldMeta::Media(FieldMetaMedia::Image)))
                    } else if inner == "video"@ {
                        Ok(Some(FieldMeta::Media(FieldMetaMedia::Video)))
                    } else {
                        Err(ErrorView::UnknownMediaType(inner))
                    }
                }
            }
        } else {
            Err(ErrorView::UnknownMetadata(a))
        }
    } else {
        Err(ErrorView::UnexpectedInput(r))
    }
}

/// What a field definition means: type, then an optional `?` (nullable), then rename, then
/// metadata.
pub open spec fn spec_parse_field(s: Seq<char>, media_needs_string: bool) -> Result<
    FieldView,
    ErrorView,
> {
    match spec_leading_type(s) {
        None => Err(ErrorView::UnexpectedType),
        Some((ty, r0)) => {
            let nullable = has_prefix(r0, "?"@);
            let r1 = if nullable {
                r0.skip("?"@.len() as int)
            } else {
                r0
            };
            match spec_rename(r1) {
                Err(e) => Err(e),
                Ok((rename, r2)) => match spec_meta(r2, ty, media_needs_string) {
                    Err(e) => Err(e),
                    Ok(meta) => Ok(FieldView { ty, nullable, rename, meta }),
                },
            }
        },
    }
}

/// The type of a parsed field is the one its leading keyword names: `string`, `int`, `float` or
/// `bool`; a definition that starts with none of them does not parse.
pub proof fn law_field_type_is_leading_keyword(s: Seq<char>, media_needs_string: bool)
    ensures
        spec_parse_field(s, media_needs_string) is Ok ==> (s.len() >= 6 && s.subrange(0, 6) == seq![
            's',
            't',
            'r',
            'i',
            'n',
            'g',
        ]) || (s.len() >= 3 && s.subrange(0, 3) == seq!['i', 'n', 't']) || (s.len() >= 5
            && s.subrange(0, 5) == seq!['f', 'l', 'o', 'a', 't']) || (s.len() >= 4 && s.subrange(
            0,
            4,
        ) == seq!['b', 'o', 'o', 'l']),
        spec_parse_field(s, media_needs_string) matches Ok(f) ==> {
            &&& s.len() >= 6 && s.subrange(0, 6) == seq!['s', 't', 'r', 'i', 'n', 'g'] ==> f.ty
                == FieldType::String
            &&& s.len() >= 3 && s.subrange(0, 3) == seq!['i', 'n', 't'] ==> f.ty == FieldType::Int
            &&& s.len() >= 5 && s.subrange(0, 5) == seq!['f', 'l', 'o', 'a', 't'] ==> f.ty
                == FieldType::Float
            &&& s.len() >= 4 && s.subrange(0, 4) == seq!['b', 'o', 'o', 'l'] ==> f.ty
                == FieldType::Bool
        },
{
    reveal_strlit("string");
    reveal_strlit("int");
    reveal_strlit("float");
    reveal_strlit("bool");
    assert("string"@ =~= seq!['s', 't', 'r', 'i', 'n', 'g']);
    assert("int"@ =~= seq!['i', 'n', 't']);
    assert("float"@ =~= seq!['f', 'l', 'o', 'a', 't']);
    assert("bool"@ =~= seq!['b', 'o', 'o', 'l']);
    if s.len() >= 6 && s.subrange(0, 6) == seq!['s', 't', 'r', 'i', 'n', 'g'] {
        assert(s[0] == s.subrange(0, 6)[0]);
    }
    if s.len() >= 3 && s.subrange(0, 3) == seq!['i', 'n', 't'] {
        assert(s[0] == s.subrange(0, 3)[0]);
    }
    if s.len() >= 5 && s.subrange(0, 5) == seq!['f', 'l', 'o', 'a', 't'] {
        assert(s[0] == s.subrange(0, 5)[0]);
    }
    if s.len() >= 4 && s.subrange(0, 4) == seq!['b', 'o', 'o', 'l'] {
        assert(s[0] == s.subrange(0, 4)[0]);
    }
    if has_prefix(s, "string"@) {
        assert(s[0] == s.subrange(0, 6)[0]);
    }
    if has_prefix(s, "int"@) {
        assert(s[0] == s.subrange(0, 3)[0]);
    }
    if has_prefix(s, "float"@) {
        assert(s[0] == s.subrange(0, 5)[0]);
    }
}

/// Length of the keyword that names a type.
pub open spec fn keyword_len(ty: FieldType) -> int {
    match ty {
        FieldType::String => 6,
        FieldType::Int => 3,
        FieldType::Float => 5,
        FieldType::Bool => 4,
    }
}

/// What a parsed definition says after its keyword: the field is nullable exactly when `?`
/// follows the keyword; a rename is the non-empty text without spaces that follows ` -> ` there;
/// `@identifier` and `@media(..)` come from the definition's end.
pub proof fn law_field_marks_follow_keyword(s: Seq<char>, media_needs_string: bool)
    ensures
        spec_parse_field(s, media_needs_string) matches Ok(f) ==> {
            let k = keyword_len(f.ty);
            let p = if f.nullable {
                k + 1
            } else {
                k
            };
            &&& k <= s.len()
            &&& f.nullable <==> (s.len() > k && s[k] == '?')
            &&& f.rename matches Some(r) ==> r.len() > 0 && p + 4 + r.len() <= s.len() && s.subrange(
                p,
                p + 4,
            ) == seq![' ', '-', '>', ' '] && s.subrange(p + 4, p + 4 + r.len()) == r && forall|i: int|
                0 <= i < r.len() ==> #[trigger] r[i] != ' '
            &&& f.rename is None ==> !(p + 4 <= s.len() && s.subrange(p, p + 4) == seq![' ', '-', '>', ' '])
            &&& f.meta == Some(FieldMeta::Identifier) ==> s.len() >= 12 && s.subrange(
                s.len() - 12,
                s.len() as int,
            ) == seq![' ', '@', 'i', 'd', 'e', 'n', 't', 'i', 'f', 'i', 'e', 'r']
            &&& f.meta == Some(FieldMeta::Media(FieldMetaMedia::Image)) ==> s.len() >= 7 && s.subrange(
                s.len() - 7,
                s.len() as int,
            ) == seq!['(', 'i', 'm', 'a', 'g', 'e', ')']
            &&& f.meta == Some(FieldMeta::Media(FieldMetaMedia::Video)) ==> s.len() >= 7 && s.subrange(
                s.len() - 7,
                s.len() as int,
            ) == seq!['(', 'v', 'i', 'd', 'e', 'o', ')']
            &&& f.meta is None ==> f.rename is None ==> s.len() == p
        },
{
    reveal_strlit("?");
    if let Ok(f) = spec_parse_field(s, media_needs_string) {
        lemma_leading_type_text(s);
        let k = keyword_len(f.ty);
        let r0 = spec_leading_type(s)->Some_0.1;
        let p = if f.nullable { k + 1 } else { k };
        if f.nullable {
            assert(r0.subrange(0, 1)[0] == r0[0]);
        } else if s.len() > k && s[k] == '?' {
            assert(r0.subrange(0, 1) =~= "?"@);
        }
        let r1 = if f.nullable { r0.skip(1) } else { r0 };
        assert(r1 =~= s.skip(p));
        lemma_rename_text(r1);
        let r2 = spec_rename(r1)->Ok_0.1;
        let q = s.len() - r2.len();
        assert(r2 =~= s.skip(q));
        if let Some(r) = f.rename {
            assert(s.subrange(p, p + 4) =~= r1.subrange(0, 4));
            assert(s.subrange(p + 4, p + 4 + r.len()) =~= r1.subrange(4, 4 + r.len() as int));
        } else {
            if p + 4 <= s.len() && s.subrange(p, p + 4) == seq![' ', '-', '>', ' '] {
                assert(r1.subrange(0, 4) =~= s.subrange(p, p + 4));
            }
        }
        lemma_meta_text(r2, f.ty, media_needs_string);
        if f.meta == Some(FieldMeta::Identifier) {
            assert(s.subrange(s.len() - 12, s.len() as int) =~= r2);
        }
        if f.meta matches Some(FieldMeta::Media(_)) {
            assert(s.subrange(s.len() - 7, s.len() as int) =~= r2.subrange(7, 14));
        }
    }
}

/// A definition's leading keyword names its type, and what follows is the rest after it.
pub proof fn lemma_leading_type_text(s: Seq<char>)
    ensures
        spec_leading_type(s) matches Some((ty, r)) ==> keyword_len(ty) <= s.len() && r == s.skip(
            keyword_len(ty),
        ),
{
    reveal_strlit("string");
    reveal_strlit("int");
    reveal_strlit("float");
    reveal_strlit("bool");
}

/// The text a rename is read from: ` -> `, then the name up to the next space.
pub proof fn lemma_rename_text(r1: Seq<char>)
    ensures
        spec_rename(r1) matches Ok((rename, r2)) ==> {
            &&& rename matches Some(r) ==> r.len() > 0 && 4 + r.len() <= r1.len() && r1.subrange(0, 4)
                == seq![' ', '-', '>', ' '] && r1.subrange(4, 4 + r.len() as int) == r && r2 == r1.skip(
                4 + r.len() as int,
            ) && forall|i: int| 0 <= i < r.len() ==> #[trigger] r[i] != ' '
            &&& rename is None ==> r2 == r1 && !(4 <= r1.len() && r1.subrange(0, 4) == seq![
                ' ',
                '-',
                '>',
                ' ',
            ])
        },
{
    reveal_strlit(" -> ");
    assert(" -> "@ =~= seq![' ', '-', '>', ' ']);
    if has_prefix(r1, " -> "@) {
        let a = r1.skip(4);
        let e = first_index_of(a, ' ');
        crate::text::lemma_first_index_of(a, ' ');
        let r = a.take(e);
        assert(r1.subrange(4, 4 + r.len() as int) =~= r);
        assert(a.skip(e) =~= r1.skip(4 + e));
        assert forall|i: int| 0 <= i < r.len() implies #[trigger] r[i] != ' ' by {
            assert(r[i] == a[i]);
        }
    }
}

/// The text metadata is read from: nothing, ` @identifier`, or ` @media(` with the kind and `)`.
pub proof fn lemma_meta_text(r: Seq<char>, ty: FieldType, media_needs_string: bool)
    ensures
        spec_meta(r, ty, media_needs_string) matches Ok(meta) ==> {
            &&& meta is None ==> r.len() == 0
            &&& meta == Some(FieldMeta::Identifier) ==> r == seq![
                ' ',
                '@',
                'i',
                'd',
                'e',
                'n',
                't',
                'i',
                'f',
                'i',
                'e',
                'r',
            ]
            &&& meta == Some(FieldMeta::Media(FieldMetaMedia::Image)) ==> r.len() == 14 && r.subrange(
                7,
                14,
            ) == seq!['(', 'i', 'm', 'a', 'g', 'e', ')']
            &&& meta == Some(FieldMeta::Media(FieldMetaMedia::Video)) ==> r.len() == 14 && r.subrange(
                7,
                14,
            ) == seq!['(', 'v', 'i', 'd', 'e', 'o', ')']
        },
{
    reveal_strlit(" ");
    reveal_strlit("@identifier");
    reveal_strlit("@media(");
    reveal_strlit(")");
    reveal_strlit("image");
    reveal_strlit("video");
    if r.len() > 0 && has_prefix(r, " "@) {
        let a = r.skip(1);
        assert(r =~= r.subrange(0, 1) + a);
        assert(r.subrange(0, 1) =~= seq![' ']);
        if a == "@identifier"@ {
            assert(r =~= seq![' ', '@', 'i', 'd', 'e', 'n', 't', 'i', 'f', 'i', 'e', 'r']);
        } else if has_prefix(a, "@media("@) {
            let m = a.skip(7);
            assert(a =~= a.subrange(0, 7) + m);
            if has_suffix(m, ")"@) {
                let inner = m.take(m.len() - 1);
                assert(m =~= inner + m.subrange(m.len() - 1, m.len() as int));
                if inner == "image"@ || inner == "video"@ {
                    assert(r.subrange(7, 14) =~= seq!['('] + inner + seq![')']);
                }
            }
        }
    }
}

/// Parses a field definition; `media_needs_string` decides whether media metadata is refused
/// on a field that is not of type `string`.
pub fn parse_field_definition(dsl_command: &str, media_needs_string: bool) -> (r: Result<
    Field,
    Error,
>)
    ensures
        match (r, spec_parse_field(dsl_command@, media_needs_string)) {
            (Ok(f), Ok(v)) => f.deep_view() == v,
            (Err(e), Err(v)) => e.deep_view() == v,
            _ => false,
        },
{
    let ghost s = dsl_command@;
    let prefixes = vec!["string", "int", "float", "bool"];
    let ghost ps = prefixes@.map_values(|p: &str| p@);
    assert(ps =~= seq!["string"@, "int"@, "float"@, "bool"@]);
    proof {
        lemma_first_prefix_index(s, ps);
    }
    let (ty, mut rest) = match strip_some_prefix(dsl_command, prefixes) {
        Some((p, rem)) => {
            if crate::text::str_eq(p, "string") {
                (FieldType::String, rem)
            } else if crate::text::str_eq(p, "int") {
                (FieldType::Int, rem)
            } else if crate::text::str_eq(p, "float") {
                (FieldType::Float, rem)
            } else if crate::text::str_eq(p, "bool") {
                (FieldType::Bool, rem)
            } else {
                return Err(Error::UnexpectedType);
            }
        },
        None => {
            return Err(Error::UnexpectedType);
        },
    };
    assert(spec_leading_type(s) == Some((ty, rest@)));

    let nullable = match crate::text::strip_prefix(rest, "?") {
        Some(after) => {
            rest = after;
            true
        },
        None => false,
    };

    let rename = match crate::text::strip_prefix(rest, " -> ") {
        Some(after_arrow) => {
            let end_index = crate::text::find_char(after_arrow, ' ');
            if end_index == 0 {
                return Err(Error::EmptyRename);
            }
            let len = after_arrow.unicode_len();
            let new_name = after_arrow.substring_char(0, end_index);
            rest = after_arrow.substring_char(end_index, len);
            assert(new_name@ =~= after_arrow@.take(end_index as int));
            assert(rest@ =~= after_arrow@.skip(end_index as int));
            Some(new_name.to_owned())
        },
        None => None,
    };

    let meta = if rest.is_empty() {
        None
    } else {
        match crate::text::strip_prefix(rest, " ") {
            Some(after_space) => {
                if crate::text::str_eq(after_space, "@identifier") {
                    Some(FieldMeta::Identifier)
                } else {
                    match crate::text::strip_prefix(after_space, "@media(") {
                        Some(media) => {
                            if media_needs_string && ty != FieldType::String {
                                return Err(Error::MediaTypeMismatch);
                            }
                            match crate::text::strip_suffix(media, ")") {
                                Some(inner) => {
                                    assert(inner@ =~= media@.take(media@.len() - ")"@.len()));
                                    if crate::text::str_eq(inner, "image") {
                                        Some(FieldMeta::Media(FieldMetaMedia::Image))
                                    } else if crate::text::str_eq(inner, "video") {
                                        Some(FieldMeta::Media(FieldMetaMedia::Video))
                                    } else {
                                        return Err(Error::UnknownMediaType(inner.to_owned()));
                                    }
                                },
                                None => {
                                    return Err(Error::MissingMediaParen);
                                },
                            }
                        },
                        None => {
                            return Err(Error::UnknownMetadata(after_space.to_owned()));
                        },
                    }
                }
            },
            None => {
                return Err(Error::UnexpectedInput(rest.to_owned()));
            },
        }
    };

    Ok(Field { ty, nullable, rename, meta })
}

/// Parses a field definition of a schema.
pub fn parse_field(dsl_command: &str) -> (r: Result<Field, Error>)
    ensures
        match (r, spec_parse_field(dsl_command@, true)) {
            (Ok(f), Ok(v)) => f.deep_view() == v,
            (Err(e), Err(v)) => e.deep_view() == v,
            _ => false,
        },
{
    parse_field_definition(dsl_command, true)
}

/// The definitions parsed in order; the first definition that fails gives the error.
pub open spec fn spec_parse_fields(p: Seq<(Seq<char>, Seq<char>)>) -> Result<
    Seq<(Seq<char>, FieldView)>,
    ErrorView,
>
    decreases p.len(),
{
    if p.len() == 0 {
        Ok(Seq::empty())
    } else {
        match spec_parse_fields(p.drop_last()) {
            Err(e) => Err(e),
            Ok(fs) => match spec_parse_field(p.last().1, true) {
                Err(e) => Err(e),
                Ok(f) => Ok(fs.push((p.last().0, f))),
            },
        }
    }
}

/// Index of the first field marked `@identifier`, or the length when none is.
pub open spec fn first_identifier(fs: Seq<(Seq<char>, FieldView)>) -> int
    decreases fs.len(),
{
    if fs.len() == 0 {
        0
    } else if fs[0].1.meta == Some(FieldMeta::Identifier) {
        0
    } else {
        1 + first_identifier(fs.drop_first())
    }
}

pub proof fn lemma_first_identifier(fs: Seq<(Seq<char>, FieldView)>)
    ensures
        0 <= first_identifier(fs) <= fs.len(),
        first_identifier(fs) < fs.len() ==> fs[first_identifier(fs)].1.meta == Some(
            FieldMeta::Identifier,
        ),
        forall|j: int|
            0 <= j < first_identifier(fs) ==> (#[trigger] fs[j]).1.meta != Some(FieldMeta::Identifier),
    decreases fs.len(),
{
    if fs.len() > 0 && fs[0].1.meta != Some(FieldMeta::Identifier) {
        lemma_first_identifier(fs.drop_first());
        assert forall|j: int| 0 <= j < first_identifier(fs) implies (#[trigger] fs[j]).1.meta
            != Some(FieldMeta::Identifier) by {
            if j > 0 {
                assert(fs[j] == fs.drop_first()[j - 1]);
            }
        }
    }
}

/// What a schema's definitions mean: the parsed fields in order and the name of the first field
/// marked `@identifier`; a schema without such a field is refused.
pub open spec fn spec_parse_schema(p: Seq<(Seq<char>, Seq<char>)>) -> Result<
    (Seq<(Seq<char>, FieldView)>, Seq<char>),
    ErrorView,
> {
    match spec_parse_fields(p) {
        Err(e) => Err(e),
        Ok(fs) => {
            let k = first_identifier(fs);
            if k == fs.len() {
                Err(ErrorView::NoIdentifier)
            } else {
                Ok((fs, fs[k].0))
            }
        },
    }
}

/// Parses every definition of a schema. A schema must mark a field `@identifier`; the first
/// such field, in the order of the definitions, identifies the records.
pub fn parse_schema(schema: &RawSchema) -> (r: Result<Schema, Error>)
    ensures
        match (r, spec_parse_schema(schema.pairs())) {
            (Ok(s), Ok((fs, id))) => s.fields.pairs() == fs && s.identifier@ == id,
            (Err(e), Err(v)) => e.deep_view() == v,
            _ => false,
        },
        r matches Ok(s) ==> s.fields.deep_view().dom().contains(s.identifier@)
            && s.fields.deep_view()[s.identifier@].meta == Some(FieldMeta::Identifier),
{
    let n = schema.len();
    let ghost p = schema.pairs();
    let mut fields: StrMap<Field> = StrMap::new();
    let mut ident: Option<usize> = None;
    let mut i: usize = 0;
    while i < n
        invariant
            n == p.len(),
            p == schema.pairs(),
            distinct_keys(p),
            i <= n,
            spec_parse_fields(p.take(i as int)) == Ok::<Seq<(Seq<char>, FieldView)>, ErrorView>(
                fields.pairs(),
            ),
            fields.pairs().len() == i,
            forall|j: int| 0 <= j < i ==> (#[trigger] fields.pairs()[j]).0 == p[j].0,
            match ident {
                Some(k) => k < i && k == first_identifier(fields.pairs()),
                None => first_identifier(fields.pairs()) == i,
            },
        decreases n - i,
    {
        let name = schema.key_at(i);
        let dsl = schema.value_at(i);
        let ghost before = fields.pairs();
        assert(p.take(i + 1).drop_last() =~= p.take(i as int));
        assert(p.take(i + 1).last() == p[i as int]);
        proof {
            lemma_first_identifier(before);
        }
        match parse_field(dsl.as_str()) {
            Ok(field) => {
                let is_ident = field.meta == Some(FieldMeta::Identifier);
                proof {
                    crate::strmap::lemma_pairs_to_map_dom(before, name@);
                    if fields.deep_view().dom().contains(name@) {
                        let j = choose|j: int| 0 <= j < before.len() && #[trigger] before[j].0 == name@;
                        assert(p[j].0 == p[i as int].0);
                    }
                }
                let ghost fv = field.deep_view();
                fields.insert(name.clone(), field);
                proof {
                    assert(fields.pairs() == before.push((name@, fv)));
                    lemma_first_identifier_push(before, (name@, fv));
                }
                if ident.is_none() && is_ident {
                    ident = Some(i);
                }
            },
            Err(e) => {
                proof {
                    assert(dsl@ == p[i as int].1);
                    assert(spec_parse_fields(p.take(i + 1)) is Err);
                    lemma_parse_fields_err_extends(p, i as int, n as int);
                    assert(p.take(n as int) =~= p);
                }
                return Err(e);
            },
        }
        i = i + 1;
    }
    assert(p.take(n as int) =~= p);
    match ident {
        Some(k) => {
            let identifier = fields.key_at(k).clone();
            proof {
                let fs = fields.pairs();
                lemma_first_identifier(fs);
                assert(distinct_keys(fs)) by {
                    assert forall|a: int, b: int|
                        0 <= a < fs.len() && 0 <= b < fs.len() && a != b implies #[trigger] fs[a].0
                        != #[trigger] fs[b].0 by {
                        assert(fs[a].0 == p[a].0 && fs[b].0 == p[b].0);
                    }
                }
                crate::strmap::lemma_pairs_to_map_index(fs, k as int);
            }
            Ok(Schema { fields, identifier })
        },
        None => Err(Error::NoIdentifier),
    }
}

pub proof fn lemma_parse_fields_each(p: Seq<(Seq<char>, Seq<char>)>)
    ensures
        spec_parse_fields(p) is Ok <==> forall|i: int|
            0 <= i < p.len() ==> spec_parse_field(#[trigger] p[i].1, true) is Ok,
        spec_parse_fields(p) matches Ok(fs) ==> fs.len() == p.len() && forall|i: int|
            0 <= i < p.len() ==> (#[trigger] fs[i]).0 == p[i].0 && spec_parse_field(p[i].1, true)
                == Ok::<FieldView, ErrorView>(fs[i].1),
    decreases p.len(),
{
    if p.len() > 0 {
        let t = p.drop_last();
        lemma_parse_fields_each(t);
        assert forall|i: int| 0 <= i < t.len() implies #[trigger] t[i] == p[i] by {}
        if spec_parse_fields(p) is Ok {
            let fs = spec_parse_fields(p)->Ok_0;
            let ft = spec_parse_fields(t)->Ok_0;
            assert forall|i: int| 0 <= i < p.len() implies (#[trigger] fs[i]).0 == p[i].0
                && spec_parse_field(p[i].1, true) == Ok::<FieldView, ErrorView>(fs[i].1) by {
                if i < t.len() {
                    assert(fs[i] == ft[i]);
                    assert(t[i] == p[i]);
                }
            }
        }
        if forall|i: int| 0 <= i < p.len() ==> spec_parse_field(#[trigger] p[i].1, true) is Ok {
            assert forall|i: int| 0 <= i < t.len() implies spec_parse_field(#[trigger] t[i].1, true) is Ok by {
                assert(t[i] == p[i]);
            }
            assert(spec_parse_field(p[p.len() - 1].1, true) is Ok);
        }
        if !(forall|i: int| 0 <= i < p.len() ==> spec_parse_field(#[trigger] p[i].1, true) is Ok) {
            let i = choose|i: int| 0 <= i < p.len() && !(spec_parse_field(#[trigger] p[i].1, true) is Ok);
            if i < t.len() {
                assert(t[i] == p[i]);
            }
        }
    }
}

/// Whether a definition parses to a field marked `@identifier`.
pub open spec fn marks_identifier(def: Seq<char>) -> bool {
    spec_parse_field(def, true) matches Ok(f) && f.meta == Some(FieldMeta::Identifier)
}

/// A schema parses exactly when every definition parses and one of them is marked
/// `@identifier`; its fields are then the definitions' columns in order, each with the field its
/// definition reads as.
pub proof fn law_schema_parses_field_by_field(raw: &RawSchema)
    ensures
        ({
            let p = raw.pairs();
            &&& spec_parse_schema(p) is Ok <==> (forall|i: int|
                0 <= i < p.len() ==> spec_parse_field(#[trigger] p[i].1, true) is Ok) && exists|i: int|
                0 <= i < p.len() && #[trigger] marks_identifier(p[i].1)
            &&& spec_parse_schema(p) matches Ok((fs, id)) ==> fs.len() == p.len() && forall|i: int|
                0 <= i < p.len() ==> (#[trigger] fs[i]).0 == p[i].0 && spec_parse_field(
                    p[i].1,
                    true,
                ) == Ok::<FieldView, ErrorView>(fs[i].1)
            &&& spec_parse_schema(p) matches Ok((fs, id)) ==> pairs_to_map(fs).dom()
                == raw.deep_view().dom() && forall|k: Seq<char>|
                #[trigger] raw.deep_view().dom().contains(k) ==> spec_parse_field(
                    raw.deep_view()[k],
                    true,
                ) == Ok::<FieldView, ErrorView>(pairs_to_map(fs)[k])
        }),
{
    let p = raw.pairs();
    lemma_parse_fields_each(p);
    if let Ok(fs) = spec_parse_fields(p) {
        assert forall|k: Seq<char>| #[trigger] pairs_to_map(fs).dom().contains(k)
            == raw.deep_view().dom().contains(k) && (raw.deep_view().dom().contains(k)
            ==> spec_parse_field(raw.deep_view()[k], true) == Ok::<FieldView, ErrorView>(
            pairs_to_map(fs)[k],
        )) by {
            crate::strmap::lemma_last_index_same_keys(fs, p, k);
            crate::strmap::lemma_pairs_to_map_last(fs, k);
            crate::strmap::lemma_pairs_to_map_last(p, k);
        }
        assert(pairs_to_map(fs).dom() =~= raw.deep_view().dom());
        lemma_first_identifier(fs);
        if exists|i: int| 0 <= i < p.len() && #[trigger] marks_identifier(p[i].1) {
            let i = choose|i: int| 0 <= i < p.len() && #[trigger] marks_identifier(p[i].1);
            assert(fs[i].1.meta == Some(FieldMeta::Identifier));
        }
        let k = first_identifier(fs);
        if k < fs.len() {
            assert(spec_parse_field(p[k].1, true) == Ok::<FieldView, ErrorView>(fs[k].1));
            assert(marks_identifier(p[k].1));
        }
    }
}

/// Adding a field keeps the first identifier, or makes the new field it when none came before.
pub proof fn lemma_first_identifier_push(fs: Seq<(Seq<char>, FieldView)>, f: (Seq<char>, FieldView))
    ensures
        first_identifier(fs.push(f)) == if first_identifier(fs) < fs.len() {
            first_identifier(fs)
        } else if f.1.meta == Some(FieldMeta::Identifier) {
            fs.len() as int
        } else {
            fs.len() + 1int
        },
    decreases fs.len(),
{
    assert(fs.push(f)[0] == if fs.len() > 0 { fs[0] } else { f });
    if fs.len() > 0 {
        assert(fs.push(f).drop_first() =~= fs.drop_first().push(f));
        lemma_first_identifier_push(fs.drop_first(), f);
        if fs[0].1.meta != Some(FieldMeta::Identifier) {
            assert(first_identifier(fs) == 1 + first_identifier(fs.drop_first()));
            assert(first_identifier(fs.push(f)) == 1 + first_identifier(fs.push(f).drop_first()));
        }
    } else {
        assert(fs.push(f).drop_first() =~= Seq::<(Seq<char>, FieldView)>::empty());
        assert(first_identifier(Seq::<(Seq<char>, FieldView)>::empty()) == 0);
    }
}

/// Once a prefix of the definitions fails, every longer prefix fails the same way.
pub proof fn lemma_parse_fields_err_extends(p: Seq<(Seq<char>, Seq<char>)>, i: int, n: int)
    requires
        0 <= i < n <= p.len(),
        spec_parse_fields(p.take(i + 1)) is Err,
    ensures
        spec_parse_fields(p.take(n)) == spec_parse_fields(p.take(i + 1)),
    decreases n - i,
{
    if n > i + 1 {
        lemma_parse_fields_err_extends(p, i, n - 1);
        assert(p.take(n).drop_last() =~= p.take(n - 1));
    }
}

} // verus!
