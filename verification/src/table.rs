//! Sheets as CSV text: reading the rows with the `csv` crate and processing each as a record.
use vstd::prelude::*;

use crate::dsl::{FieldView, Schema};
use crate::error::{Error, ErrorView};
use crate::pipeline::{Record, process_record, spec_process_record};
use crate::strmap::{StrMap, pairs_to_map};
use crate::value::FieldValueView;

verus! {

/// What a CSV reader gives for a text: the header row, then each later row, each cell as a
/// string, or the reader's message where it refused a row.
pub struct CsvTable {
    pub headers: Result<Vec<String>, String>,
    pub rows: Vec<Result<Vec<String>, String>>,
}

/// The cells of a row taken by view.
pub open spec fn cells_view(r: Vec<String>) -> Seq<Seq<char>> {
    r@.map_values(|s: String| s@)
}

/// A row or the reader's message, taken by view.
pub open spec fn row_view(r: Result<Vec<String>, String>) -> Result<Seq<Seq<char>>, Seq<char>> {
    match r {
        Ok(cells) => Ok(cells_view(cells)),
        Err(m) => Err(m@),
    }
}

impl CsvTable {
    /// The header row and the rows, taken by view.
    pub open spec fn parts(&self) -> (Result<Seq<Seq<char>>, Seq<char>>, Seq<Result<Seq<Seq<char>>, Seq<char>>>) {
        (row_view(self.headers), self.rows@.map_values(|r: Result<Vec<String>, String>| row_view(r)))
    }
}

/// What the `csv` crate's reader, with its default settings, reads from `content`: the header
/// row and each later row in order.
pub uninterp spec fn csv_table(content: Seq<char>) -> (
    Result<Seq<Seq<char>>, Seq<char>>,
    Seq<Result<Seq<Seq<char>>, Seq<char>>>,
);

/// Reads `content` with `csv::Reader::from_reader`: the header row from `Reader::headers`, then
/// every row that `Reader::records` yields, each error taken by its message. The contract claims
/// only that the result is a function of the text, named `csv_table`.
#[verifier::external_body]
pub(crate) fn read_csv_table(content: &str) -> (t: CsvTable)
    ensures
        t.parts() == csv_table(content@),
{
    let mut reader = csv::Reader::from_reader(content.as_bytes());
    let headers = match reader.headers() {
        Ok(h) => Ok(h.iter().map(String::from).collect()),
        Err(e) => Err(e.to_string()),
    };
    let rows = reader.records().map(|r| match r {
        Ok(rec) => Ok(rec.iter().map(String::from).collect()),
        Err(e) => Err(e.to_string()),
    }).collect();
    CsvTable { headers, rows }
}

/// A row read against the header row: each column name to the cell under it, a later column
/// with the same name replacing an earlier one.
pub open spec fn spec_row_record(headers: Seq<Seq<char>>, row: Seq<Seq<char>>) -> Map<Seq<char>, Seq<char>> {
    let n = if headers.len() <= row.len() {
        headers.len()
    } else {
        row.len()
    };
    pairs_to_map(Seq::new(n, |j: int| (headers[j], row[j])))
}

/// The rows processed in order; the first row that the reader refused or that does not fit the
/// fields gives the error.
pub open spec fn spec_process_rows(
    headers: Seq<Seq<char>>,
    rows: Seq<Result<Seq<Seq<char>>, Seq<char>>>,
    fields: Seq<(Seq<char>, FieldView)>,
) -> Result<Seq<Map<Seq<char>, Option<FieldValueView>>>, ErrorView>
    decreases rows.len(),
{
    if rows.len() == 0 {
        Ok(Seq::empty())
    } else {
        match spec_process_rows(headers, rows.drop_last(), fields) {
            Err(e) => Err(e),
            Ok(done) => match rows.last() {
                Err(m) => Err(ErrorView::Csv(m)),
                Ok(row) => match spec_process_record(spec_row_record(headers, row), fields) {
                    Err(e) => Err(e),
                    Ok(rec) => Ok(done.push(rec)),
                },
            },
        }
    }
}

/// A table processed against a schema's fields.
pub open spec fn spec_process_table(
    table: (Result<Seq<Seq<char>>, Seq<char>>, Seq<Result<Seq<Seq<char>>, Seq<char>>>),
    fields: Seq<(Seq<char>, FieldView)>,
) -> Result<Seq<Map<Seq<char>, Option<FieldValueView>>>, ErrorView> {
    match table.0 {
        Err(m) => Err(ErrorView::Csv(m)),
        Ok(headers) => spec_process_rows(headers, table.1, fields),
    }
}

pub proof fn lemma_process_rows_err_extends(
    headers: Seq<Seq<char>>,
    rows: Seq<Result<Seq<Seq<char>>, Seq<char>>>,
    fields: Seq<(Seq<char>, FieldView)>,
    i: int,
    n: int,
)
    requires
        0 <= i < n <= rows.len(),
        spec_process_rows(headers, rows.take(i + 1), fields) is Err,
    ensures
        spec_process_rows(headers, rows.take(n), fields) == spec_process_rows(headers, rows.take(i + 1), fields),
    decreases n - i,
{
    if n > i + 1 {
        lemma_process_rows_err_extends(headers, rows, fields, i, n - 1);
        assert(rows.take(n).drop_last() =~= rows.take(n - 1));
    }
}

/// One row processed on its own: the reader's refusal, or the record its cells give.
pub open spec fn spec_row_result(
    headers: Seq<Seq<char>>,
    row: Result<Seq<Seq<char>>, Seq<char>>,
    fields: Seq<(Seq<char>, FieldView)>,
) -> Result<Map<Seq<char>, Option<FieldValueView>>, ErrorView> {
    match row {
        Err(m) => Err(ErrorView::Csv(m)),
        Ok(cells) => spec_process_record(spec_row_record(headers, cells), fields),
    }
}

pub proof fn lemma_process_rows_each(
    headers: Seq<Seq<char>>,
    rows: Seq<Result<Seq<Seq<char>>, Seq<char>>>,
    fields: Seq<(Seq<char>, FieldView)>,
)
    ensures
        spec_process_rows(headers, rows, fields) is Ok <==> forall|i: int|
            0 <= i < rows.len() ==> (#[trigger] spec_row_result(headers, rows[i], fields)) is Ok,
        spec_process_rows(headers, rows, fields) matches Ok(v) ==> v.len() == rows.len()
            && forall|i: int|
            0 <= i < rows.len() ==> #[trigger] spec_row_result(headers, rows[i], fields) == Ok::<
                Map<Seq<char>, Option<FieldValueView>>,
                ErrorView,
            >(v[i]),
        spec_process_rows(headers, rows, fields) matches Err(e) ==> exists|k: int|
            0 <= k < rows.len() && #[trigger] spec_row_result(headers, rows[k], fields) == Err::<
                Map<Seq<char>, Option<FieldValueView>>,
                ErrorView,
            >(e) && forall|i: int|
                0 <= i < k ==> (#[trigger] spec_row_result(headers, rows[i], fields)) is Ok,
    decreases rows.len(),
{
    if rows.len() > 0 {
        let t = rows.drop_last();
        let last = rows.len() - 1;
        lemma_process_rows_each(headers, t, fields);
        assert forall|i: int| 0 <= i < t.len() implies #[trigger] t[i] == rows[i] by {}
        assert(rows[last] == rows.last());
        match spec_process_rows(headers, t, fields) {
            Ok(done) => {
                assert forall|i: int| 0 <= i < t.len() implies (#[trigger] spec_row_result(
                    headers,
                    rows[i],
                    fields,
                )) == Ok::<Map<Seq<char>, Option<FieldValueView>>, ErrorView>(done[i]) by {
                    assert(t[i] == rows[i]);
                    assert(spec_row_result(headers, t[i], fields) == Ok::<
                        Map<Seq<char>, Option<FieldValueView>>,
                        ErrorView,
                    >(done[i]));
                }
                match spec_row_result(headers, rows[last], fields) {
                    Ok(rec) => {
                        assert(spec_process_rows(headers, rows, fields) == Ok::<
                            Seq<Map<Seq<char>, Option<FieldValueView>>>,
                            ErrorView,
                        >(done.push(rec)));
                        let v = done.push(rec);
                        assert forall|i: int| 0 <= i < rows.len() implies #[trigger] spec_row_result(
                            headers,
                            rows[i],
                            fields,
                        ) == Ok::<Map<Seq<char>, Option<FieldValueView>>, ErrorView>(v[i]) by {
                            if i < t.len() {
                                assert(v[i] == done[i]);
                            }
                        }
                    },
                    Err(e) => {
                        assert(spec_process_rows(headers, rows, fields) == Err::<
                            Seq<Map<Seq<char>, Option<FieldValueView>>>,
                            ErrorView,
                        >(e));
                        assert(forall|i: int|
                            0 <= i < last ==> (#[trigger] spec_row_result(headers, rows[i], fields)) is Ok);
                    },
                }
            },
            Err(e) => {
                assert(spec_process_rows(headers, rows, fields) == Err::<
                    Seq<Map<Seq<char>, Option<FieldValueView>>>,
                    ErrorView,
                >(e));
                let k = choose|k: int|
                    0 <= k < t.len() && #[trigger] spec_row_result(headers, t[k], fields) == Err::<
                        Map<Seq<char>, Option<FieldValueView>>,
                        ErrorView,
                    >(e) && forall|i: int|
                        0 <= i < k ==> (#[trigger] spec_row_result(headers, t[i], fields)) is Ok;
                assert(t[k] == rows[k]);
                assert forall|i: int| 0 <= i < k implies (#[trigger] spec_row_result(
                    headers,
                    rows[i],
                    fields,
                )) is Ok by {
                    assert(t[i] == rows[i]);
                    assert(spec_row_result(headers, t[i], fields) is Ok);
                }
                assert(spec_row_result(headers, rows[k], fields) == Err::<
                    Map<Seq<char>, Option<FieldValueView>>,
                    ErrorView,
                >(e));
            },
        }
    }
}

/// A sheet's records are its rows processed in order: the sheet is read exactly when its header
/// row is read and every row is read and fits the schema, one record per row in the rows' order;
/// otherwise the error is that of the header row or of the first row that fails.
pub proof fn law_sheet_records_are_rows_in_order(sheet_content: Seq<char>, schema: Schema)
    ensures
        ({
            let (head, rows) = csv_table(sheet_content);
            let fs = schema.fields.pairs();
            let r = spec_process_table(csv_table(sheet_content), fs);
            &&& head matches Err(m) ==> r == Err::<Seq<Map<Seq<char>, Option<FieldValueView>>>, ErrorView>(
                ErrorView::Csv(m),
            )
            &&& head matches Ok(h) ==> {
                &&& r is Ok <==> forall|i: int|
                    0 <= i < rows.len() ==> (#[trigger] spec_row_result(h, rows[i], fs)) is Ok
                &&& r matches Ok(v) ==> v.len() == rows.len() && forall|i: int|
                    0 <= i < rows.len() ==> #[trigger] spec_row_result(h, rows[i], fs) == Ok::<
                        Map<Seq<char>, Option<FieldValueView>>,
                        ErrorView,
                    >(v[i])
                &&& r matches Err(e) ==> exists|k: int|
                    0 <= k < rows.len() && #[trigger] spec_row_result(h, rows[k], fs) == Err::<
                        Map<Seq<char>, Option<FieldValueView>>,
                        ErrorView,
                    >(e) && forall|i: int|
                        0 <= i < k ==> (#[trigger] spec_row_result(h, rows[i], fs)) is Ok
            }
        }),
{
    let (head, rows) = csv_table(sheet_content);
    if let Ok(h) = head {
        lemma_process_rows_each(h, rows, schema.fields.pairs());
    }
}

/// The cells of a row under their column names.
pub fn row_record(headers: &Vec<String>, row: &Vec<String>) -> (r: StrMap<String>)
    ensures
        r.deep_view() == spec_row_record(cells_view(*headers), cells_view(*row)),
{
    let ghost h = cells_view(*headers);
    let ghost c = cells_view(*row);
    let n = if headers.len() <= row.len() {
        headers.len()
    } else {
        row.len()
    };
    let mut r: StrMap<String> = StrMap::new();
    let mut j: usize = 0;
    assert(Seq::new(0, |k: int| (h[k], c[k])) =~= Seq::<(Seq<char>, Seq<char>)>::empty());
    while j < n
        invariant
            h == cells_view(*headers),
            c == cells_view(*row),
            n <= headers@.len(),
            n <= row@.len(),
            n == (if headers@.len() <= row@.len() {
                headers@.len()
            } else {
                row@.len()
            }),
            j <= n,
            r.deep_view() == pairs_to_map(Seq::new(j as nat, |k: int| (h[k], c[k]))),
        decreases n - j,
    {
        let ghost before = Seq::new(j as nat, |k: int| (h[k], c[k]));
        assert(Seq::new((j + 1) as nat, |k: int| (h[k], c[k])) =~= before.push((h[j as int], c[j as int])));
        proof {
            crate::strmap::lemma_pairs_to_map_push(before, (h[j as int], c[j as int]));
        }
        r.insert(headers[j].clone(), row[j].clone());
        j = j + 1;
    }
    r
}

/// Processes every row of a table as a record of `schema`.
pub fn process_csv_table(table: &CsvTable, schema: &Schema) -> (r: Result<Vec<Record>, Error>)
    ensures
        match (r, spec_process_table(table.parts(), schema.fields.pairs())) {
            (Ok(recs), Ok(ms)) => recs@.map_values(|m: Record| m.deep_view()) == ms,
            (Err(e), Err(v)) => e.deep_view() == v,
            _ => false,
        },
{
    let headers = match &table.headers {
        Ok(h) => h,
        Err(m) => {
            return Err(Error::Csv(m.clone()));
        },
    };
    let ghost h = cells_view(*headers);
    let ghost rows = table.parts().1;
    let ghost fs = schema.fields.pairs();
    let n = table.rows.len();
    let mut records: Vec<Record> = Vec::new();
    let mut i: usize = 0;
    assert(rows.take(0) =~= Seq::<Result<Seq<Seq<char>>, Seq<char>>>::empty());
    assert(records@.map_values(|m: Record| m.deep_view()) =~= Seq::<Map<Seq<char>, Option<FieldValueView>>>::empty());
    while i < n
        invariant
            n == table.rows@.len(),
            n == rows.len(),
            rows == table.parts().1,
            h == cells_view(*headers),
            table.parts().0 == Ok::<Seq<Seq<char>>, Seq<char>>(h),
            fs == schema.fields.pairs(),
            i <= n,
            spec_process_rows(h, rows.take(i as int), fs) == Ok::<
                Seq<Map<Seq<char>, Option<FieldValueView>>>,
                ErrorView,
            >(records@.map_values(|m: Record| m.deep_view())),
        decreases n - i,
    {
        assert(rows.take(i + 1).drop_last() =~= rows.take(i as int));
        assert(rows.take(i + 1).last() == rows[i as int]);
        assert(rows[i as int] == row_view(table.rows[i as int]));
        match &table.rows[i] {
            Err(m) => {
                proof {
                    lemma_process_rows_err_extends(h, rows, fs, i as int, n as int);
                    assert(rows.take(n as int) =~= rows);
                }
                return Err(Error::Csv(m.clone()));
            },
            Ok(row) => {
                let raw = row_record(headers, row);
                match process_record(raw, schema) {
                    Ok(rec) => {
                        let ghost before = records@.map_values(|m: Record| m.deep_view());
                        records.push(rec);
                        assert(records@.map_values(|m: Record| m.deep_view()) =~= before.push(rec.deep_view()));
                    },
                    Err(e) => {
                        proof {
                            lemma_process_rows_err_extends(h, rows, fs, i as int, n as int);
                            assert(rows.take(n as int) =~= rows);
                        }
                        return Err(e);
                    },
                }
            },
        }
        i = i + 1;
    }
    assert(rows.take(n as int) =~= rows);
    Ok(records)
}

/// Reads a sheet's CSV text and processes every row as a record of `schema`.
pub fn process_sheet_content(sheet_content: &str, schema: &Schema) -> (r: Result<Vec<Record>, Error>)
    ensures
        match (r, spec_process_table(csv_table(sheet_content@), schema.fields.pairs())) {
            (Ok(recs), Ok(ms)) => recs@.map_values(|m: Record| m.deep_view()) == ms,
            (Err(e), Err(v)) => e.deep_view() == v,
            _ => false,
        },
{
    let table = read_csv_table(sheet_content);
    process_csv_table(&table, schema)
}

} // verus!
