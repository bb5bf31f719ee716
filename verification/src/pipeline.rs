//! Turning the rows of a sheet into records, and the state that tells which records changed.
use vstd::prelude::*;

use crate::dsl::{FieldView, Schema};
use crate::error::{Error, ErrorView};
use crate::strmap::{StrMap, distinct_keys, pairs_to_map};
use crate::text::decimal_text;
use crate::value::{FieldValue, FieldValueView, spec_parse_value};

verus! {

/// A processed row: output column name to value (`None` for an empty nullable cell).
pub type Record = StrMap<Option<FieldValue>>;

/// The state of a sheet: record identifier to the hash of the record's content.
pub type SheetState = StrMap<String>;

/// What processing a sheet gives: its records in row order and its new state.
#[derive(Debug)]
pub struct SheetResult {
    pub records: Vec<Record>,
    pub state: SheetState,
}

/// The name a field's value is stored under: its rename, or else its column name.
pub open spec fn output_key(name: Seq<char>, f: FieldView) -> Seq<char> {
    match f.rename {
        Some(r) => r,
        None => name,
    }
}

/// The value of one field in a row: the cell must exist; an empty cell is `None` when the field
/// is nullable and an error otherwise; any other cell is read as the field's type.
pub open spec fn spec_field_value(
    record: Map<Seq<char>, Seq<char>>,
    name: Seq<char>,
    f: FieldView,
) -> Result<Option<FieldValueView>, ErrorView> {
    if !record.dom().contains(name) {
        Err(ErrorView::MissingKey(name))
    } else if record[name].len() == 0 {
        if f.nullable {
            Ok(None)
        } else {
            Err(ErrorView::EmptyValue(name))
        }
    } else {
        match spec_parse_value(f.ty, record[name]) {
            Ok(v) => Ok(Some(v)),
            Err(e) => Err(e),
        }
    }
}

/// A row processed field by field in the schema's order; the first failing field gives the
/// error, and a later field stored under the same name replaces an earlier one.
pub open spec fn spec_process_record(
    record: Map<Seq<char>, Seq<char>>,
    fields: Seq<(Seq<char>, FieldView)>,
) -> Result<Map<Seq<char>, Option<FieldValueView>>, ErrorView>
    decreases fields.len(),
{
    if fields.len() == 0 {
        Ok(Map::empty())
    } else {
        match spec_process_record(record, fields.drop_last()) {
            Err(e) => Err(e),
            Ok(m) => match spec_field_value(record, fields.last().0, fields.last().1) {
                Err(e) => Err(e),
                Ok(v) => Ok(m.insert(output_key(fields.last().0, fields.last().1), v)),
            },
        }
    }
}

/// Once a prefix of the fields fails, every longer prefix fails the same way.
pub proof fn lemma_process_record_err_extends(
    record: Map<Seq<char>, Seq<char>>,
    fields: Seq<(Seq<char>, FieldView)>,
    i: int,
    n: int,
)
    requires
        0 <= i < n <= fields.len(),
        spec_process_record(record, fields.take(i + 1)) is Err,
    ensures
        spec_process_record(record, fields.take(n)) == spec_process_record(record, fields.take(i + 1)),
    decreases n - i,
{
    if n > i + 1 {
        lemma_process_record_err_extends(record, fields, i, n - 1);
        assert(fields.take(n).drop_last() =~= fields.take(n - 1));
    }
}

pub proof fn lemma_process_record_keys(
    record: Map<Seq<char>, Seq<char>>,
    fields: Seq<(Seq<char>, FieldView)>,
    k: Seq<char>,
)
    ensures
        spec_process_record(record, fields) matches Ok(m) ==> (m.dom().contains(k) <==> exists|i: int|
            0 <= i < fields.len() && #[trigger] output_key(fields[i].0, fields[i].1) == k),
    decreases fields.len(),
{
    if fields.len() > 0 {
        let front = fields.drop_last();
        lemma_process_record_keys(record, front, k);
        if let Ok(m) = spec_process_record(record, fields) {
            let last = fields.len() - 1;
            if m.dom().contains(k) && k != output_key(fields[last].0, fields[last].1) {
                let i = choose|i: int|
                    0 <= i < front.len() && #[trigger] output_key(front[i].0, front[i].1) == k;
                assert(fields[i] == front[i]);
            }
            if exists|i: int| 0 <= i < fields.len() && #[trigger] output_key(fields[i].0, fields[i].1) == k {
                let i = choose|i: int|
                    0 <= i < fields.len() && #[trigger] output_key(fields[i].0, fields[i].1) == k;
                if i < last {
                    assert(front[i] == fields[i]);
                }
            }
        }
    }
}

/// A processed record holds a value under the output name of each field of the schema (its
/// rename, or its column name) and under no other name.
pub proof fn law_record_keys_are_output_names(record: &StrMap<String>, schema: &Schema, k: Seq<char>)
    ensures
        spec_process_record(record.deep_view(), schema.fields.pairs()) matches Ok(m) ==> (
        m.dom().contains(k) <==> exists|i: int|
            0 <= i < schema.fields.pairs().len() && #[trigger] output_key(
                schema.fields.pairs()[i].0,
                schema.fields.pairs()[i].1,
            ) == k),
{
    lemma_process_record_keys(record.deep_view(), schema.fields.pairs(), k);
}

/// A row that processes against a prefix of the fields also processes against every shorter one.
pub proof fn lemma_process_record_prefix_ok(
    record: Map<Seq<char>, Seq<char>>,
    fields: Seq<(Seq<char>, FieldView)>,
    j: int,
)
    requires
        0 <= j <= fields.len(),
        spec_process_record(record, fields) is Ok,
    ensures
        spec_process_record(record, fields.take(j)) is Ok,
    decreases fields.len() - j,
{
    if j == fields.len() {
        assert(fields.take(j) =~= fields);
    } else {
        lemma_process_record_prefix_ok(record, fields, j + 1);
        assert(fields.take(j + 1).drop_last() =~= fields.take(j));
    }
}

/// An empty cell is never accepted for a field that is not nullable, whatever its type: a row
/// that processes has a non-empty cell for every such field, and the first such field found
/// empty, once the fields before it have processed, makes the row fail with `EmptyValue` of its
/// column.
pub proof fn law_required_cells_are_never_empty(
    record: Map<Seq<char>, Seq<char>>,
    fields: Seq<(Seq<char>, FieldView)>,
)
    ensures
        spec_process_record(record, fields) is Ok ==> forall|i: int|
            0 <= i < fields.len() && !(#[trigger] fields[i]).1.nullable && record.dom().contains(
                fields[i].0,
            ) ==> record[fields[i].0].len() > 0,
        forall|i: int|
            0 <= i < fields.len() && spec_process_record(record, fields.take(i)) is Ok && !(
            #[trigger] fields[i]).1.nullable && record.dom().contains(fields[i].0)
                && record[fields[i].0].len() == 0 ==> spec_process_record(record, fields) == Err::<
                Map<Seq<char>, Option<FieldValueView>>,
                ErrorView,
            >(ErrorView::EmptyValue(fields[i].0)),
{
    assert forall|i: int|
        0 <= i < fields.len() && spec_process_record(record, fields.take(i)) is Ok && !(
        #[trigger] fields[i]).1.nullable && record.dom().contains(fields[i].0)
            && record[fields[i].0].len() == 0 implies spec_process_record(record, fields) == Err::<
            Map<Seq<char>, Option<FieldValueView>>,
            ErrorView,
        >(ErrorView::EmptyValue(fields[i].0)) by {
        assert(fields.take(i + 1).drop_last() =~= fields.take(i));
        assert(fields.take(i + 1).last() == fields[i]);
        lemma_process_record_err_extends(record, fields, i, fields.len() as int);
        assert(fields.take(fields.len() as int) =~= fields);
    }
    if spec_process_record(record, fields) is Ok {
        assert forall|i: int|
            0 <= i < fields.len() && !(#[trigger] fields[i]).1.nullable && record.dom().contains(
                fields[i].0,
            ) implies record[fields[i].0].len() > 0 by {
            lemma_process_record_prefix_ok(record, fields, i);
        }
    }
}

/// In a processed row, the value stored under a field's output name, when no later field is
/// stored under it, comes from that field's cell: `None` for an empty cell, otherwise the cell
/// read as the field's type.
pub proof fn law_record_values_come_from_cells(
    record: Map<Seq<char>, Seq<char>>,
    fields: Seq<(Seq<char>, FieldView)>,
    i: int,
)
    requires
        0 <= i < fields.len(),
        forall|j: int|
            i < j < fields.len() ==> output_key(#[trigger] fields[j].0, fields[j].1) != output_key(
                fields[i].0,
                fields[i].1,
            ),
    ensures
        spec_process_record(record, fields) matches Ok(m) ==> {
            let name = fields[i].0;
            let f = fields[i].1;
            &&& record.dom().contains(name)
            &&& m.dom().contains(output_key(name, f))
            &&& record[name].len() == 0 ==> m[output_key(name, f)] is None
            &&& record[name].len() > 0 ==> spec_parse_value(f.ty, record[name]) == Ok::<
                FieldValueView,
                ErrorView,
            >(m[output_key(name, f)]->Some_0) && m[output_key(name, f)] is Some
        },
    decreases fields.len(),
{
    let last = fields.len() - 1;
    let front = fields.drop_last();
    if let Ok(m) = spec_process_record(record, fields) {
        if i < last {
            assert forall|j: int| i < j < front.len() implies output_key(
                #[trigger] front[j].0,
                front[j].1,
            ) != output_key(front[i].0, front[i].1) by {
                assert(front[j] == fields[j] && front[i] == fields[i]);
            }
            law_record_values_come_from_cells(record, front, i);
            assert(front[i] == fields[i]);
            assert(output_key(fields[last].0, fields[last].1) != output_key(fields[i].0, fields[i].1));
        }
    }
}

/// Reads a row (column name to cell text) as a record of `schema`.
pub fn process_record(record: StrMap<String>, schema: &Schema) -> (r: Result<Record, Error>)
    ensures
        match (r, spec_process_record(record.deep_view(), schema.fields.pairs())) {
            (Ok(out), Ok(m)) => out.deep_view() == m,
            (Err(e), Err(v)) => e.deep_view() == v,
            _ => false,
        },
{
    let ghost fs = schema.fields.pairs();
    let ghost rec = record.deep_view();
    let n = schema.fields.len();
    let mut output: Record = StrMap::new();
    let mut i: usize = 0;
    assert(fs.take(0) =~= Seq::<(Seq<char>, FieldView)>::empty());
    while i < n
        invariant
            n == fs.len(),
            fs == schema.fields.pairs(),
            rec == record.deep_view(),
            i <= n,
            spec_process_record(rec, fs.take(i as int)) == Ok::<
                Map<Seq<char>, Option<FieldValueView>>,
                ErrorView,
            >(output.deep_view()),
        decreases n - i,
    {
        let csv_name = schema.fields.key_at(i);
        let field = schema.fields.value_at(i);
        assert(fs.take(i + 1).drop_last() =~= fs.take(i as int));
        assert(fs.take(i + 1).last() == fs[i as int]);
        let value = match record.get(csv_name.as_str()) {
            None => {
                proof {
                    lemma_process_record_err_extends(rec, fs, i as int, n as int);
                    assert(fs.take(n as int) =~= fs);
                }
                return Err(Error::MissingKey(csv_name.clone()));
            },
            Some(raw_value) => {
                if raw_value.as_str().is_empty() {
                    if field.nullable {
                        None
                    } else {
                        proof {
                            lemma_process_record_err_extends(rec, fs, i as int, n as int);
                            assert(fs.take(n as int) =~= fs);
                        }
                        return Err(Error::EmptyValue(csv_name.clone()));
                    }
                } else {
                    match field.ty.parse(raw_value.as_str()) {
                        Ok(v) => Some(v),
                        Err(e) => {
                            proof {
                                lemma_process_record_err_extends(rec, fs, i as int, n as int);
                                assert(fs.take(n as int) =~= fs);
                            }
                            return Err(e);
                        },
                    }
                }
            },
        };
        let output_key = match &field.rename {
            Some(new_name) => new_name.clone(),
            None => csv_name.clone(),
        };
        output.insert(output_key, value);
        i = i + 1;
    }
    assert(fs.take(n as int) =~= fs);
    Ok(output)
}

/// How a record changed between two states of a sheet.
#[derive(Debug, PartialEq)]
pub enum RecordState {
    Added { hash: String },
    Updated { old_hash: String, new_hash: String },
    Deleted { hash: String },
}

/// A change with its hashes taken by view.
pub enum RecordStateView {
    Added { hash: Seq<char> },
    Updated { old_hash: Seq<char>, new_hash: Seq<char> },
    Deleted { hash: Seq<char> },
}

impl DeepView for RecordState {
    type V = RecordStateView;

    open spec fn deep_view(&self) -> RecordStateView {
        match self {
            RecordState::Added { hash } => RecordStateView::Added { hash: hash@ },
            RecordState::Updated { old_hash, new_hash } => RecordStateView::Updated {
                old_hash: old_hash@,
                new_hash: new_hash@,
            },
            RecordState::Deleted { hash } => RecordStateView::Deleted { hash: hash@ },
        }
    }
}

/// The records of `new` that `old` lacks or holds with another hash.
pub open spec fn spec_added_or_updated(
    old: Map<Seq<char>, Seq<char>>,
    new: Map<Seq<char>, Seq<char>>,
) -> Map<Seq<char>, RecordStateView> {
    Map::new(
        |k: Seq<char>| new.dom().contains(k) && (!old.dom().contains(k) || old[k] != new[k]),
        |k: Seq<char>|
            if old.dom().contains(k) {
                RecordStateView::Updated { old_hash: old[k], new_hash: new[k] }
            } else {
                RecordStateView::Added { hash: new[k] }
            },
    )
}

/// The records of `old` that `new` lacks.
pub open spec fn spec_deleted(
    old: Map<Seq<char>, Seq<char>>,
    new: Map<Seq<char>, Seq<char>>,
) -> Map<Seq<char>, RecordStateView> {
    Map::new(
        |k: Seq<char>| old.dom().contains(k) && !new.dom().contains(k),
        |k: Seq<char>| RecordStateView::Deleted { hash: old[k] },
    )
}

/// Every record whose hash differs between `old` and `new`, with how it changed.
pub open spec fn spec_record_states(
    old: Map<Seq<char>, Seq<char>>,
    new: Map<Seq<char>, Seq<char>>,
) -> Map<Seq<char>, RecordStateView> {
    spec_added_or_updated(old, new).union_prefer_right(spec_deleted(old, new))
}

/// Compares two states of a sheet: records only in `new_state` are added, records in both with
/// different hashes are updated, records only in `old_state` are deleted.
pub fn get_record_states(old_state: &SheetState, new_state: &SheetState) -> (r: StrMap<
    RecordState,
>)
    ensures
        r.deep_view() == spec_record_states(old_state.deep_view(), new_state.deep_view()),
{
    let ghost old = old_state.deep_view();
    let ghost new = new_state.deep_view();
    let ghost np = new_state.pairs();
    let ghost op = old_state.pairs();
    let mut states: StrMap<RecordState> = StrMap::new();
    let n = new_state.len();
    let mut i: usize = 0;
    assert(np.take(0) =~= Seq::<(Seq<char>, Seq<char>)>::empty());
    assert(spec_added_or_updated(old, pairs_to_map(np.take(0))) =~= Map::empty());
    while i < n
        invariant
            n == np.len(),
            np == new_state.pairs(),
            new == new_state.deep_view(),
            old == old_state.deep_view(),
            new == pairs_to_map(np),
            distinct_keys(np),
            i <= n,
            states.deep_view() == spec_added_or_updated(old, pairs_to_map(np.take(i as int))),
        decreases n - i,
    {
        let record_id = new_state.key_at(i);
        let new_hash = new_state.value_at(i);
        let ghost before = pairs_to_map(np.take(i as int));
        let ghost k = record_id@;
        assert(np.take(i + 1) =~= np.take(i as int).push(np[i as int]));
        proof {
            crate::strmap::lemma_pairs_to_map_push(np.take(i as int), np[i as int]);
            crate::strmap::lemma_pairs_to_map_dom(np.take(i as int), k);
            if before.dom().contains(k) {
                let j = choose|j: int| 0 <= j < np.take(i as int).len() && #[trigger] np.take(i as int)[j].0 == k;
                assert(np[j].0 == np[i as int].0);
            }
        }
        let ghost after = pairs_to_map(np.take(i + 1));
        assert(after == before.insert(k, new_hash@));
        match old_state.get(record_id.as_str()) {
            None => {
                states.insert(record_id.clone(), RecordState::Added { hash: new_hash.clone() });
                assert(states.deep_view() =~= spec_added_or_updated(old, after));
            },
            Some(old_hash) => {
                if *old_hash != *new_hash {
                    states.insert(
                        record_id.clone(),
                        RecordState::Updated { old_hash: old_hash.clone(), new_hash: new_hash.clone() },
                    );
                    assert(states.deep_view() =~= spec_added_or_updated(old, after));
                } else {
                    assert(states.deep_view() =~= spec_added_or_updated(old, after));
                }
            },
        }
        i = i + 1;
    }
    assert(np.take(n as int) =~= np);
    let m = old_state.len();
    let mut j: usize = 0;
    assert(op.take(0) =~= Seq::<(Seq<char>, Seq<char>)>::empty());
    assert(spec_deleted(pairs_to_map(op.take(0)), new) =~= Map::empty());
    assert(states.deep_view() =~= spec_added_or_updated(old, new).union_prefer_right(
        spec_deleted(pairs_to_map(op.take(0)), new),
    ));
    while j < m
        invariant
            m == op.len(),
            op == old_state.pairs(),
            new == new_state.deep_view(),
            old == old_state.deep_view(),
            old == pairs_to_map(op),
            distinct_keys(op),
            j <= m,
            states.deep_view() == spec_added_or_updated(old, new).union_prefer_right(
                spec_deleted(pairs_to_map(op.take(j as int)), new),
            ),
        decreases m - j,
    {
        let record_id = old_state.key_at(j);
        let old_hash = old_state.value_at(j);
        let ghost k = record_id@;
        let ghost before = pairs_to_map(op.take(j as int));
        assert(op.take(j + 1) =~= op.take(j as int).push(op[j as int]));
        proof {
            crate::strmap::lemma_pairs_to_map_push(op.take(j as int), op[j as int]);
        }
        let ghost after = pairs_to_map(op.take(j + 1));
        assert(after == before.insert(k, old_hash@));
        if !new_state.contains_key(record_id.as_str()) {
            states.insert(record_id.clone(), RecordState::Deleted { hash: old_hash.clone() });
            assert(states.deep_view() =~= spec_added_or_updated(old, new).union_prefer_right(
                spec_deleted(after, new),
            ));
        } else {
            assert(states.deep_view() =~= spec_added_or_updated(old, new).union_prefer_right(
                spec_deleted(after, new),
            ));
        }
        j = j + 1;
    }
    assert(op.take(m as int) =~= op);
    states
}

/// The changes between a state and itself are none.
pub proof fn law_no_changes_between_equal_states(state: &SheetState)
    ensures
        spec_record_states(state.deep_view(), state.deep_view()) == Map::<
            Seq<char>,
            RecordStateView,
        >::empty(),
{
    let s = state.deep_view();
    assert(spec_record_states(s, s) =~= Map::<Seq<char>, RecordStateView>::empty());
}

/// A change read the other way round: an addition becomes a deletion and the two hashes of an
/// update trade places.
pub open spec fn reversed(c: RecordStateView) -> RecordStateView {
    match c {
        RecordStateView::Added { hash } => RecordStateView::Deleted { hash },
        RecordStateView::Deleted { hash } => RecordStateView::Added { hash },
        RecordStateView::Updated { old_hash, new_hash } => RecordStateView::Updated {
            old_hash: new_hash,
            new_hash: old_hash,
        },
    }
}

/// Comparing the states in the other order reports the same records, each change reversed.
pub proof fn law_changes_reverse(old_state: &SheetState, new_state: &SheetState)
    ensures
        spec_record_states(new_state.deep_view(), old_state.deep_view()) == spec_record_states(
            old_state.deep_view(),
            new_state.deep_view(),
        ).map_values(|c: RecordStateView| reversed(c)),
{
    let old = old_state.deep_view();
    let new = new_state.deep_view();
    assert(spec_record_states(new, old) =~= spec_record_states(old, new).map_values(
        |c: RecordStateView| reversed(c),
    ));
}

/// `state` with each change applied: a deleted record is removed, an added or updated record
/// takes its new hash.
pub open spec fn apply_changes(
    state: Map<Seq<char>, Seq<char>>,
    changes: Map<Seq<char>, RecordStateView>,
) -> Map<Seq<char>, Seq<char>> {
    Map::new(
        |k: Seq<char>|
            if changes.dom().contains(k) {
                !(changes[k] is Deleted)
            } else {
                state.dom().contains(k)
            },
        |k: Seq<char>|
            if changes.dom().contains(k) {
                match changes[k] {
                    RecordStateView::Added { hash } => hash,
                    RecordStateView::Updated { old_hash, new_hash } => new_hash,
                    RecordStateView::Deleted { hash } => hash,
                }
            } else {
                state[k]
            },
    )
}

/// Applying the reported changes to the old state gives the new state.
pub proof fn law_changes_lead_to_new_state(old_state: &SheetState, new_state: &SheetState)
    ensures
        apply_changes(
            old_state.deep_view(),
            spec_record_states(old_state.deep_view(), new_state.deep_view()),
        ) == new_state.deep_view(),
{
    let old = old_state.deep_view();
    let new = new_state.deep_view();
    assert(apply_changes(old, spec_record_states(old, new)) =~= new);
}

/// A record is reported exactly when the two states disagree on it: present in one only, or
/// present in both with different hashes.
pub proof fn law_changes_are_the_differences(old_state: &SheetState, new_state: &SheetState, k: Seq<char>)
    ensures
        spec_record_states(old_state.deep_view(), new_state.deep_view()).dom().contains(k) <==> (
        old_state.deep_view().dom().contains(k) != new_state.deep_view().dom().contains(k) || (
        old_state.deep_view().dom().contains(k) && new_state.deep_view().dom().contains(k)
            && old_state.deep_view()[k] != new_state.deep_view()[k])),
{
}

/// The value a record holds in its identifier field.
pub open spec fn spec_record_identifier(
    record: Map<Seq<char>, Option<FieldValueView>>,
    schema_id: Seq<char>,
) -> Result<FieldValueView, ErrorView> {
    if !record.dom().contains(schema_id) {
        Err(ErrorView::IdentifierMissing)
    } else {
        match record[schema_id] {
            None => Err(ErrorView::IdentifierNoValue),
            Some(v) => Ok(v),
        }
    }
}

/// Index of the first record whose identifier is missing or empty, or the length when none is.
pub open spec fn first_unidentified(records: Seq<Map<Seq<char>, Option<FieldValueView>>>, schema_id: Seq<char>) -> int
    decreases records.len(),
{
    if records.len() == 0 {
        0
    } else if spec_record_identifier(records[0], schema_id) is Err {
        0
    } else {
        1 + first_unidentified(records.drop_first(), schema_id)
    }
}

pub proof fn lemma_first_unidentified(records: Seq<Map<Seq<char>, Option<FieldValueView>>>, schema_id: Seq<char>)
    ensures
        0 <= first_unidentified(records, schema_id) <= records.len(),
        first_unidentified(records, schema_id) < records.len() ==> spec_record_identifier(
            records[first_unidentified(records, schema_id)],
            schema_id,
        ) is Err,
        forall|j: int|
            0 <= j < first_unidentified(records, schema_id) ==> spec_record_identifier(
                #[trigger] records[j],
                schema_id,
            ) is Ok,
    decreases records.len(),
{
    if records.len() > 0 && spec_record_identifier(records[0], schema_id) is Ok {
        lemma_first_unidentified(records.drop_first(), schema_id);
        assert forall|j: int| 0 <= j < first_unidentified(records, schema_id) implies spec_record_identifier(
            #[trigger] records[j],
            schema_id,
        ) is Ok by {
            if j > 0 {
                assert(records[j] == records.drop_first()[j - 1]);
            }
        }
    }
}

/// `id` is the text that identifies a record whose identifier value is `v`: a string as it is,
/// an integer in decimal, a boolean as `true` or `false`, and a float as `float_display` renders
/// its literal.
pub open spec fn is_id_text<F: Fn(&str) -> String>(float_display: F, v: FieldValueView, id: Seq<char>) -> bool {
    match v {
        FieldValueView::String(s) => id == s,
        FieldValueView::Int(n) => id == decimal_text(n as nat),
        FieldValueView::Bool(b) => id == if b {
            "true"@
        } else {
            "false"@
        },
        FieldValueView::Float(t) => exists|a: &str, o: String|
            a@ == t && o@ == id && #[trigger] call_ensures(float_display, (a,), o),
    }
}

/// The state key of a record follows from its identifier alone: a string is its own key, a
/// boolean is `true` or `false`, and an integer's key is decimal text that reads back as that
/// integer, so different integers never share a key.
pub proof fn law_identifier_keys<F: Fn(&str) -> String>(float_display: F, v: FieldValueView, id: Seq<char>)
    ensures
        is_id_text(float_display, v, id) ==> (v matches FieldValueView::String(s) ==> id == s),
        is_id_text(float_display, v, id) ==> (v matches FieldValueView::Int(n)
            ==> crate::value::spec_parse_u32(id) == Ok::<u32, ErrorView>(n)),
        is_id_text(float_display, v, id) ==> (v matches FieldValueView::Bool(b) ==> (b ==> id
            == seq!['t', 'r', 'u', 'e']) && (!b ==> id == seq!['f', 'a', 'l', 's', 'e'])),
{
    reveal_strlit("true");
    reveal_strlit("false");
    if let FieldValueView::Int(n) = v {
        crate::value::law_int_text_reads_back(n);
    }
    if let FieldValueView::Bool(b) = v {
        assert("true"@ =~= seq!['t', 'r', 'u', 'e']);
        assert("false"@ =~= seq!['f', 'a', 'l', 's', 'e']);
    }
}

/// Records whose identifiers are different integers get different state keys.
pub proof fn law_integer_keys_differ<F: Fn(&str) -> String>(
    float_display: F,
    n: u32,
    m: u32,
    a: Seq<char>,
    b: Seq<char>,
)
    requires
        n != m,
        is_id_text(float_display, FieldValueView::Int(n), a),
        is_id_text(float_display, FieldValueView::Int(m), b),
    ensures
        a != b,
{
    law_identifier_keys(float_display, FieldValueView::Int(n), a);
    law_identifier_keys(float_display, FieldValueView::Int(m), b);
}

/// The state that maps `ids[i]` to `hashes[i]`, a later record replacing an earlier one with the
/// same identifier.
pub open spec fn spec_state_of(ids: Seq<Seq<char>>, hashes: Seq<Seq<char>>) -> Map<Seq<char>, Seq<char>> {
    pairs_to_map(Seq::new(ids.len(), |i: int| (ids[i], hashes[i])))
}

/// The state built from identifiers and hashes holds exactly the given identifiers, each with
/// the hash of the last record that carries it; no records give the empty state.
pub proof fn law_state_keeps_last_hash(ids: Seq<Seq<char>>, hashes: Seq<Seq<char>>, k: Seq<char>)
    requires
        ids.len() == hashes.len(),
    ensures
        spec_state_of(ids, hashes).dom().contains(k) <==> exists|i: int|
            0 <= i < ids.len() && #[trigger] ids[i] == k,
        spec_state_of(ids, hashes).dom().contains(k) ==> exists|i: int|
            0 <= i < ids.len() && #[trigger] ids[i] == k && spec_state_of(ids, hashes)[k]
                == hashes[i] && forall|j: int| i < j < ids.len() ==> ids[j] != k,
        ids.len() == 0 ==> spec_state_of(ids, hashes) == Map::<Seq<char>, Seq<char>>::empty(),
{
    let s = Seq::new(ids.len(), |i: int| (ids[i], hashes[i]));
    crate::strmap::lemma_pairs_to_map_last(s, k);
    let l = crate::strmap::last_index_of_key(s, k);
    if exists|i: int| 0 <= i < ids.len() && #[trigger] ids[i] == k {
        let i = choose|i: int| 0 <= i < ids.len() && #[trigger] ids[i] == k;
        assert(s[i].0 == k);
    }
    if l >= 0 {
        assert(ids[l] == k);
        assert forall|j: int| l < j < ids.len() implies ids[j] != k by {
            assert(s[j].0 == ids[j]);
        }
    }
    if ids.len() == 0 {
        assert(s =~= Seq::<(Seq<char>, Seq<char>)>::empty());
        assert(spec_state_of(ids, hashes) =~= Map::<Seq<char>, Seq<char>>::empty());
    }
}

/// The state of a sheet after processing: each record's identifier mapped to its hash, where
/// `hashes[i]` is the hash of `records[i]`. The identifier of a float is rendered by
/// `float_display`.
pub fn get_new_state<F: Fn(&str) -> String>(
    records: &[Record],
    hashes: &[String],
    schema_id: &str,
    float_display: F,
) -> (r: Result<SheetState, Error>)
    requires
        records.len() == hashes.len(),
        forall|a: &str| #[trigger] call_requires(float_display, (a,)),
    ensures
        ({
            let recs = records@.map_values(|m: Record| m.deep_view());
            let k = first_unidentified(recs, schema_id@);
            if k < recs.len() {
                r matches Err(e) && Err::<FieldValueView, ErrorView>(e.deep_view())
                    == spec_record_identifier(recs[k], schema_id@)
            } else {
                r matches Ok(state) && exists|ids: Seq<Seq<char>>|
                    ids.len() == recs.len() && (forall|i: int|
                        0 <= i < ids.len() ==> is_id_text(
                            float_display,
                            spec_record_identifier(recs[i], schema_id@)->Ok_0,
                            #[trigger] ids[i],
                        )) && state.deep_view() == spec_state_of(
                        ids,
                        hashes@.map_values(|h: String| h@),
                    )
            }
        }),
{
    let ghost recs = records@.map_values(|m: Record| m.deep_view());
    let ghost hs = hashes@.map_values(|h: String| h@);
    proof {
        lemma_first_unidentified(recs, schema_id@);
    }
    let mut output: SheetState = StrMap::new();
    let ghost mut ids: Seq<Seq<char>> = Seq::empty();
    let n = records.len();
    let mut i: usize = 0;
    assert(Seq::new(0, |j: int| (ids[j], hs[j])) =~= Seq::<(Seq<char>, Seq<char>)>::empty());
    while i < n
        invariant
            n == records@.len(),
            n == hashes@.len(),
            recs == records@.map_values(|m: Record| m.deep_view()),
            hs == hashes@.map_values(|h: String| h@),
            forall|a: &str| #[trigger] call_requires(float_display, (a,)),
            i <= n,
            i <= first_unidentified(recs, schema_id@),
            0 <= first_unidentified(recs, schema_id@) <= recs.len(),
            first_unidentified(recs, schema_id@) < recs.len() ==> spec_record_identifier(
                recs[first_unidentified(recs, schema_id@)],
                schema_id@,
            ) is Err,
            forall|j: int|
                0 <= j < first_unidentified(recs, schema_id@) ==> spec_record_identifier(
                    #[trigger] recs[j],
                    schema_id@,
                ) is Ok,
            ids.len() == i,
            forall|j: int|
                0 <= j < i ==> is_id_text(
                    float_display,
                    spec_record_identifier(recs[j], schema_id@)->Ok_0,
                    #[trigger] ids[j],
                ),
            output.deep_view() == spec_state_of(ids, hs),
        decreases n - i,
    {
        let record = &records[i];
        assert(recs[i as int] == record.deep_view());
        let value = match record.get(schema_id) {
            None => {
                return Err(Error::IdentifierMissing);
            },
            Some(slot) => match slot {
                None => {
                    return Err(Error::IdentifierNoValue);
                },
                Some(v) => v,
            },
        };
        assert(spec_record_identifier(recs[i as int], schema_id@) == Ok::<FieldValueView, ErrorView>(value.deep_view()));
        let record_id = match value {
            FieldValue::String(s) => s.clone(),
            FieldValue::Int(n) => crate::text::decimal_string(*n as u64),
            FieldValue::Float(t) => {
                let a = t.as_str();
                let o = float_display(a);
                assert(call_ensures(float_display, (a,), o));
                o
            },
            FieldValue::Bool(b) => if *b {
                "true".to_owned()
            } else {
                "false".to_owned()
            },
        };
        let ghost old_ids = ids;
        proof {
            ids = ids.push(record_id@);
            assert forall|j: int| 0 <= j < i + 1 implies is_id_text(
                float_display,
                spec_record_identifier(recs[j], schema_id@)->Ok_0,
                #[trigger] ids[j],
            ) by {
                if j < i {
                    assert(ids[j] == old_ids[j]);
                }
            }
        }
        let ghost before = Seq::new(i as nat, |j: int| (old_ids[j], hs[j]));
        assert(Seq::new((i + 1) as nat, |j: int| (ids[j], hs[j])) =~= before.push((record_id@, hs[i as int])));
        proof {
            crate::strmap::lemma_pairs_to_map_push(before, (record_id@, hs[i as int]));
        }
        output.insert(record_id, hashes[i].clone());
        i = i + 1;
    }
    Ok(output)
}

/// Whether a character is a lowercase hexadecimal digit.
pub open spec fn is_lower_hex(c: char) -> bool {
    ('0' <= c && c <= '9') || ('a' <= c && c <= 'f')
}

/// What `blake3::hash` gives for `bytes`, written out by `Hash::to_hex`.
pub uninterp spec fn blake3_hex(bytes: Seq<u8>) -> Seq<char>;

/// Hashes `bytes` with `blake3::hash` and writes the 32-byte hash with `Hash::to_hex`. The
/// contract names the result `blake3_hex` of the bytes and states what `to_hex` shows: two
/// lowercase hexadecimal digits per byte of the hash, 64 in all.
#[verifier::external_body]
fn blake3_hex_digest(bytes: &[u8]) -> (h: String)
    ensures
        h@ == blake3_hex(bytes@),
        h@.len() == 64,
        forall|i: int| 0 <= i < h@.len() ==> is_lower_hex(#[trigger] h@[i]),
{
    blake3::hash(bytes).to_hex().to_string()
}

/// The state hash of a record, from the JSON text of the record: its BLAKE3 hash in lowercase
/// hexadecimal.
pub fn get_record_state_hash(serialized: &[u8]) -> (h: String)
    ensures
        h@ == blake3_hex(serialized@),
        h@.len() == 64,
        forall|i: int| 0 <= i < h@.len() ==> is_lower_hex(#[trigger] h@[i]),
{
    blake3_hex_digest(serialized)
}

/// The entries of a state file: each schema name with its state's entries.
pub type StateEntries = Vec<(String, Vec<(String, String)>)>;

/// A state file's entries, or the parser's message, taken by view.
pub open spec fn state_entries_view(r: Result<StateEntries, String>) -> Result<
    Seq<(Seq<char>, Seq<(Seq<char>, Seq<char>)>)>,
    Seq<char>,
> {
    match r {
        Ok(es) => Ok(
            es@.map_values(
                |e: (String, Vec<(String, String)>)|
                    (e.0@, e.1@.map_values(|p: (String, String)| (p.0@, p.1@))),
            ),
        ),
        Err(m) => Err(m@),
    }
}

/// What `serde_json` reads from the bytes of a state file as a map from schema name to a map
/// from record identifier to hash: the entries in key order, or the parser's message.
pub uninterp spec fn state_file_entries(bytes: Seq<u8>) -> Result<
    Seq<(Seq<char>, Seq<(Seq<char>, Seq<char>)>)>,
    Seq<char>,
>;

/// Reads `bytes` with `serde_json::from_slice` into a `BTreeMap` of `BTreeMap`s of strings and
/// lists their entries, or gives the error's `Display` text. The contract claims only that the
/// result is a function of the bytes, named `state_file_entries`.
#[verifier::external_body]
fn read_state_file(bytes: &[u8]) -> (r: Result<StateEntries, String>)
    ensures
        state_entries_view(r) == state_file_entries(bytes@),
{
    match serde_json::from_slice::<
        std::collections::BTreeMap<String, std::collections::BTreeMap<String, String>>,
    >(bytes) {
        Ok(m) => Ok(m.into_iter().map(|(k, v)| (k, v.into_iter().collect())).collect()),
        Err(e) => Err(e.to_string()),
    }
}

/// The state of one schema in a state file's entries: the entries of the last entry named
/// `schema_name`, a later identifier replacing an earlier one; empty when no entry is named so.
pub open spec fn spec_schema_state(
    entries: Seq<(Seq<char>, Seq<(Seq<char>, Seq<char>)>)>,
    schema_name: Seq<char>,
) -> Map<Seq<char>, Seq<char>> {
    let m = pairs_to_map(entries);
    if m.dom().contains(schema_name) {
        pairs_to_map(m[schema_name])
    } else {
        Map::empty()
    }
}

/// The state of `schema_name` from what the state file was read as: the parser's message
/// becomes the error, otherwise the schema's state, empty when the file does not name it.
pub fn state_from_entries(entries: Result<StateEntries, String>, schema_name: &str) -> (r: Result<
    SheetState,
    Error,
>)
    ensures
        match state_entries_view(entries) {
            Err(m) => r matches Err(e) && e.deep_view() == ErrorView::StateFile(m),
            Ok(es) => r matches Ok(s) && s.deep_view() == spec_schema_state(es, schema_name@),
        },
{
    let ghost ev = state_entries_view(entries);
    let es = match entries {
        Ok(es) => es,
        Err(m) => {
            return Err(Error::StateFile(m));
        },
    };
    let ghost outer = ev->Ok_0;
    proof {
        crate::strmap::lemma_pairs_to_map_last(outer, schema_name@);
    }
    let n = es.len();
    let mut found: Option<usize> = None;
    let mut i: usize = 0;
    while i < n
        invariant
            n == es@.len(),
            outer == ev->Ok_0,
            ev == state_entries_view(Ok::<StateEntries, String>(es)),
            i <= n,
            match found {
                Some(j) => j < i && crate::strmap::last_index_of_key(outer.take(i as int), schema_name@) == j,
                None => crate::strmap::last_index_of_key(outer.take(i as int), schema_name@) == -1,
            },
        decreases n - i,
    {
        assert(outer.take(i + 1).drop_last() =~= outer.take(i as int));
        assert(outer[i as int].0 == es[i as int].0@);
        if crate::text::str_eq(es[i].0.as_str(), schema_name) {
            found = Some(i);
        }
        i = i + 1;
    }
    assert(outer.take(n as int) =~= outer);
    let mut state: SheetState = StrMap::new();
    match found {
        None => {},
        Some(j) => {
            let inner = &es[j].1;
            let ghost pairs = outer[j as int].1;
            assert(pairs == inner@.map_values(|p: (String, String)| (p.0@, p.1@)));
            let m = inner.len();
            let mut k: usize = 0;
            assert(pairs.take(0) =~= Seq::<(Seq<char>, Seq<char>)>::empty());
            while k < m
                invariant
                    m == inner@.len(),
                    pairs == inner@.map_values(|p: (String, String)| (p.0@, p.1@)),
                    k <= m,
                    state.deep_view() == pairs_to_map(pairs.take(k as int)),
                decreases m - k,
            {
                assert(pairs.take(k + 1) =~= pairs.take(k as int).push(pairs[k as int]));
                proof {
                    crate::strmap::lemma_pairs_to_map_push(pairs.take(k as int), pairs[k as int]);
                }
                state.insert(inner[k].0.clone(), inner[k].1.clone());
                k = k + 1;
            }
            assert(pairs.take(m as int) =~= pairs);
        },
    }
    Ok(state)
}

/// The state of `schema_name` recorded in a state file: with no file (`None`) the state is
/// empty; a file that is not JSON of the expected shape gives the parser's message; otherwise
/// the schema's state, empty when the file does not name the schema.
pub fn get_current_state(state_file: Option<&[u8]>, schema_name: &str) -> (r: Result<
    SheetState,
    Error,
>)
    ensures
        match state_file {
            None => r matches Ok(s) && s.deep_view() == Map::<Seq<char>, Seq<char>>::empty(),
            Some(bytes) => match state_file_entries(bytes@) {
                Err(m) => r matches Err(e) && e.deep_view() == ErrorView::StateFile(m),
                Ok(es) => r matches Ok(s) && s.deep_view() == spec_schema_state(es, schema_name@),
            },
        },
{
    match state_file {
        None => Ok(StrMap::new()),
        Some(bytes) => state_from_entries(read_state_file(bytes), schema_name),
    }
}

} // verus!
