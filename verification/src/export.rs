//! Exporting a sheet by the name of its schema: each row is read against the schema's raw
//! definitions, which are parsed as the row is read.
use vstd::prelude::*;

use crate::dsl::{Field, RawSchema, parse_field_definition, spec_parse_field};
use crate::error::{Error, ErrorView};
use crate::pipeline::output_key;
use crate::strmap::StrMap;
use crate::table::{CsvTable, cells_view, csv_table, row_record, row_view, spec_row_record};
use crate::value::{FieldValue, FieldValueView, spec_parse_value};

verus! {

/// Parses a field definition; media metadata is accepted on a field of any type.
pub fn deserialize_field(dsl_command: &str) -> (r: Result<Field, Error>)
    ensures
        match (r, spec_parse_field(dsl_command@, false)) {
            (Ok(f), Ok(v)) => f.deep_view() == v,
            (Err(e), Err(v)) => e.deep_view() == v,
            _ => false,
        },
{
    parse_field_definition(dsl_command, false)
}

/// Reading a definition for an export and for a schema gives the same result, except where a
/// schema refuses media metadata on a field that is not of type `string`; an export never
/// refuses a definition for that reason.
pub proof fn law_definition_readings_agree(dsl: Seq<char>)
    ensures
        spec_parse_field(dsl, true) != Err::<crate::dsl::FieldView, ErrorView>(
            ErrorView::MediaTypeMismatch,
        ) ==> spec_parse_field(dsl, false) == spec_parse_field(dsl, true),
        spec_parse_field(dsl, false) != Err::<crate::dsl::FieldView, ErrorView>(
            ErrorView::MediaTypeMismatch,
        ),
{
}

/// One column of a row: its definition is parsed first, then the cell is read as in
/// `spec_field_value`, a missing cell giving `UnexpectedRecordKey`.
pub open spec fn spec_deserialize_column(
    record: Map<Seq<char>, Seq<char>>,
    name: Seq<char>,
    dsl: Seq<char>,
) -> Result<(Seq<char>, Option<FieldValueView>), ErrorView> {
    match spec_parse_field(dsl, false) {
        Err(e) => Err(e),
        Ok(f) => if !record.dom().contains(name) {
            Err(ErrorView::UnexpectedRecordKey)
        } else if record[name].len() == 0 {
            if f.nullable {
                Ok((output_key(name, f), None))
            } else {
                Err(ErrorView::EmptyValue(name))
            }
        } else {
            match spec_parse_value(f.ty, record[name]) {
                Ok(v) => Ok((output_key(name, f), Some(v))),
                Err(e) => Err(e),
            }
        },
    }
}

/// A row read column by column in the order of the definitions; the first failing column gives
/// the error.
pub open spec fn spec_deserialize_record(
    record: Map<Seq<char>, Seq<char>>,
    defs: Seq<(Seq<char>, Seq<char>)>,
) -> Result<Map<Seq<char>, Option<FieldValueView>>, ErrorView>
    decreases defs.len(),
{
    if defs.len() == 0 {
        Ok(Map::empty())
    } else {
        match spec_deserialize_record(record, defs.drop_last()) {
            Err(e) => Err(e),
            Ok(m) => match spec_deserialize_column(record, defs.last().0, defs.last().1) {
                Err(e) => Err(e),
                Ok((k, v)) => Ok(m.insert(k, v)),
            },
        }
    }
}

pub proof fn lemma_deserialize_record_err_extends(
    record: Map<Seq<char>, Seq<char>>,
    defs: Seq<(Seq<char>, Seq<char>)>,
    i: int,
    n: int,
)
    requires
        0 <= i < n <= defs.len(),
        spec_deserialize_record(record, defs.take(i + 1)) is Err,
    ensures
        spec_deserialize_record(record, defs.take(n)) == spec_deserialize_record(record, defs.take(i + 1)),
    decreases n - i,
{
    if n > i + 1 {
        lemma_deserialize_record_err_extends(record, defs, i, n - 1);
        assert(defs.take(n).drop_last() =~= defs.take(n - 1));
    }
}

/// Reads a row against raw definitions.
fn deserialize_with(record: &StrMap<String>, defs: &RawSchema) -> (r: Result<
    StrMap<Option<FieldValue>>,
    Error,
>)
    ensures
        match (r, spec_deserialize_record(record.deep_view(), defs.pairs())) {
            (Ok(out), Ok(m)) => out.deep_view() == m,
            (Err(e), Err(v)) => e.deep_view() == v,
            _ => false,
        },
{
    let ghost ds = defs.pairs();
    let ghost rec = record.deep_view();
    let n = defs.len();
    let mut output: StrMap<Option<FieldValue>> = StrMap::new();
    let mut i: usize = 0;
    assert(ds.take(0) =~= Seq::<(Seq<char>, Seq<char>)>::empty());
    while i < n
        invariant
            n == ds.len(),
            ds == defs.pairs(),
            rec == record.deep_view(),
            i <= n,
            spec_deserialize_record(rec, ds.take(i as int)) == Ok::<
                Map<Seq<char>, Option<FieldValueView>>,
                ErrorView,
            >(output.deep_view()),
        decreases n - i,
    {
        let csv_name = defs.key_at(i);
        let dsl_command = defs.value_at(i);
        assert(ds.take(i + 1).drop_last() =~= ds.take(i as int));
        assert(ds.take(i + 1).last() == ds[i as int]);
        let field = match deserialize_field(dsl_command.as_str()) {
            Ok(f) => f,
            Err(e) => {
                proof {
                    lemma_deserialize_record_err_extends(rec, ds, i as int, n as int);
                    assert(ds.take(n as int) =~= ds);
                }
                return Err(e);
            },
        };
        let value = match record.get(csv_name.as_str()) {
            None => {
                proof {
                    lemma_deserialize_record_err_extends(rec, ds, i as int, n as int);
                    assert(ds.take(n as int) =~= ds);
                }
                return Err(Error::UnexpectedRecordKey);
            },
            Some(raw) => {
                if raw.as_str().is_empty() {
                    if field.nullable {
                        None
                    } else {
                        proof {
                            lemma_deserialize_record_err_extends(rec, ds, i as int, n as int);
                            assert(ds.take(n as int) =~= ds);
                        }
                        return Err(Error::EmptyValue(csv_name.clone()));
                    }
                } else {
                    match field.ty.parse(raw.as_str()) {
                        Ok(v) => Some(v),
                        Err(e) => {
                            proof {
                                lemma_deserialize_record_err_extends(rec, ds, i as int, n as int);
                                assert(ds.take(n as int) =~= ds);
                            }
                            return Err(e);
                        },
                    }
                }
            },
        };
        let key = match field.rename {
            Some(new_name) => new_name,
            None => csv_name.clone(),
        };
        output.insert(key, value);
        i = i + 1;
    }
    assert(ds.take(n as int) =~= ds);
    Ok(output)
}

/// Reads a row against the schema named `schema_name` among `schemas`.
pub fn deserialize_record(
    record: StrMap<String>,
    schema_name: &str,
    schemas: &StrMap<RawSchema>,
) -> (r: Result<StrMap<Option<FieldValue>>, Error>)
    ensures
        !schemas.deep_view().dom().contains(schema_name@) ==> (r matches Err(e) && e.deep_view()
            == ErrorView::UnknownSchema(schema_name@)),
        schemas.lookup(schema_name@) matches Some(defs) ==> match (
            r,
            spec_deserialize_record(record.deep_view(), defs.pairs()),
        ) {
            (Ok(out), Ok(m)) => out.deep_view() == m,
            (Err(e), Err(v)) => e.deep_view() == v,
            _ => false,
        },
{
    match schemas.get(schema_name) {
        Some(defs) => deserialize_with(&record, defs),
        None => Err(Error::UnknownSchema(schema_name.to_owned())),
    }
}

/// The rows of a table read in order against `defs`, the definitions of the schema named
/// `schema_name` (`None` when there is no such schema, so that every row is refused); the first
/// failing row gives the error.
pub open spec fn spec_deserialize_rows(
    headers: Seq<Seq<char>>,
    rows: Seq<Result<Seq<Seq<char>>, Seq<char>>>,
    defs: Option<Seq<(Seq<char>, Seq<char>)>>,
    schema_name: Seq<char>,
) -> Result<Seq<Map<Seq<char>, Option<FieldValueView>>>, ErrorView>
    decreases rows.len(),
{
    if rows.len() == 0 {
        Ok(Seq::empty())
    } else {
        match spec_deserialize_rows(headers, rows.drop_last(), defs, schema_name) {
            Err(e) => Err(e),
            Ok(done) => match rows.last() {
                Err(m) => Err(ErrorView::Csv(m)),
                Ok(row) => match defs {
                    None => Err(ErrorView::UnknownSchema(schema_name)),
                    Some(d) => match spec_deserialize_record(spec_row_record(headers, row), d) {
                        Err(e) => Err(e),
                        Ok(rec) => Ok(done.push(rec)),
                    },
                },
            },
        }
    }
}

/// A whole table read against a schema's definitions.
pub open spec fn spec_deserialize_table(
    table: (Result<Seq<Seq<char>>, Seq<char>>, Seq<Result<Seq<Seq<char>>, Seq<char>>>),
    defs: Option<Seq<(Seq<char>, Seq<char>)>>,
    schema_name: Seq<char>,
) -> Result<Seq<Map<Seq<char>, Option<FieldValueView>>>, ErrorView> {
    match table.0 {
        Err(m) => Err(ErrorView::Csv(m)),
        Ok(headers) => spec_deserialize_rows(headers, table.1, defs, schema_name),
    }
}

pub proof fn lemma_deserialize_rows_err_extends(
    headers: Seq<Seq<char>>,
    rows: Seq<Result<Seq<Seq<char>>, Seq<char>>>,
    defs: Option<Seq<(Seq<char>, Seq<char>)>>,
    schema_name: Seq<char>,
    i: int,
    n: int,
)
    requires
        0 <= i < n <= rows.len(),
        spec_deserialize_rows(headers, rows.take(i + 1), defs, schema_name) is Err,
    ensures
        spec_deserialize_rows(headers, rows.take(n), defs, schema_name) == spec_deserialize_rows(
            headers,
            rows.take(i + 1),
            defs,
            schema_name,
        ),
    decreases n - i,
{
    if n > i + 1 {
        lemma_deserialize_rows_err_extends(headers, rows, defs, schema_name, i, n - 1);
        assert(rows.take(n).drop_last() =~= rows.take(n - 1));
    }
}

/// Reads every row of a table against `defs`, the definitions of the schema named `schema_name`
/// (`None` when the configuration has no such schema).
pub fn deserialize_csv_table(
    table: &CsvTable,
    schema_name: &str,
    defs: Option<&RawSchema>,
) -> (r: Result<Vec<StrMap<Option<FieldValue>>>, Error>)
    ensures
        match (
            r,
            spec_deserialize_table(
                table.parts(),
                match defs {
                    Some(d) => Some(d.pairs()),
                    None => None,
                },
                schema_name@,
            ),
        ) {
            (Ok(recs), Ok(ms)) => recs@.map_values(|m: StrMap<Option<FieldValue>>| m.deep_view()) == ms,
            (Err(e), Err(v)) => e.deep_view() == v,
            _ => false,
        },
{
    let ghost d = match defs {
        Some(d) => Some(d.pairs()),
        None => None,
    };
    let headers = match &table.headers {
        Ok(h) => h,
        Err(m) => {
            return Err(Error::Csv(m.clone()));
        },
    };
    let ghost h = cells_view(*headers);
    let ghost rows = table.parts().1;
    let n = table.rows.len();
    let mut records: Vec<StrMap<Option<FieldValue>>> = Vec::new();
    let mut i: usize = 0;
    assert(rows.take(0) =~= Seq::<Result<Seq<Seq<char>>, Seq<char>>>::empty());
    assert(records@.map_values(|m: StrMap<Option<FieldValue>>| m.deep_view()) =~= Seq::<
        Map<Seq<char>, Option<FieldValueView>>,
    >::empty());
    while i < n
        invariant
            n == table.rows@.len(),
            n == rows.len(),
            rows == table.parts().1,
            h == cells_view(*headers),
            table.parts().0 == Ok::<Seq<Seq<char>>, Seq<char>>(h),
            d == match defs {
                Some(d) => Some(d.pairs()),
                None => None,
            },
            i <= n,
            spec_deserialize_rows(h, rows.take(i as int), d, schema_name@) == Ok::<
                Seq<Map<Seq<char>, Option<FieldValueView>>>,
                ErrorView,
            >(records@.map_values(|m: StrMap<Option<FieldValue>>| m.deep_view())),
        decreases n - i,
    {
        assert(rows.take(i + 1).drop_last() =~= rows.take(i as int));
        assert(rows.take(i + 1).last() == rows[i as int]);
        assert(rows[i as int] == row_view(table.rows[i as int]));
        match &table.rows[i] {
            Err(m) => {
                proof {
                    lemma_deserialize_rows_err_extends(h, rows, d, schema_name@, i as int, n as int);
                    assert(rows.take(n as int) =~= rows);
                }
                return Err(Error::Csv(m.clone()));
            },
            Ok(row) => {
                let raw = row_record(headers, row);
                let result = match defs {
                    Some(defs) => deserialize_with(&raw, defs),
                    None => Err(Error::UnknownSchema(schema_name.to_owned())),
                };
                match result {
                    Ok(rec) => {
                        let ghost before = records@.map_values(
                            |m: StrMap<Option<FieldValue>>| m.deep_view(),
                        );
                        records.push(rec);
                        assert(records@.map_values(|m: StrMap<Option<FieldValue>>| m.deep_view())
                            =~= before.push(rec.deep_view()));
                    },
                    Err(e) => {
                        proof {
                            lemma_deserialize_rows_err_extends(
                                h,
                                rows,
                                d,
                                schema_name@,
                                i as int,
                                n as int,
                            );
                            assert(rows.take(n as int) =~= rows);
                        }
                        return Err(e);
                    },
                }
            },
        }
        i = i + 1;
    }
    assert(rows.take(n as int) =~= rows);
    Ok(records)
}

/// Reads a sheet's CSV text, each row against the schema named `schema_name` among `schemas`.
pub fn deserialize_sheet(
    sheet_content: &str,
    schema_name: &str,
    schemas: &StrMap<RawSchema>,
) -> (r: Result<Vec<StrMap<Option<FieldValue>>>, Error>)
    ensures
        !schemas.deep_view().dom().contains(schema_name@) ==> match (
            r,
            spec_deserialize_table(csv_table(sheet_content@), None, schema_name@),
        ) {
            (Ok(recs), Ok(ms)) => recs@.map_values(|m: StrMap<Option<FieldValue>>| m.deep_view()) == ms,
            (Err(e), Err(v)) => e.deep_view() == v,
            _ => false,
        },
        schemas.lookup(schema_name@) matches Some(defs) ==> match (
            r,
            spec_deserialize_table(csv_table(sheet_content@), Some(defs.pairs()), schema_name@),
        ) {
            (Ok(recs), Ok(ms)) => recs@.map_values(|m: StrMap<Option<FieldValue>>| m.deep_view()) == ms,
            (Err(e), Err(v)) => e.deep_view() == v,
            _ => false,
        },
{
    let table = crate::table::read_csv_table(sheet_content);
    let defs = schemas.get(schema_name);
    deserialize_csv_table(&table, schema_name, defs)
}

} // verus!
