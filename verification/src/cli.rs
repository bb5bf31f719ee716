//! The decisions of the command line: which sheets to process with which schema, how states of
//! several sheets combine, how an overwrite question is answered, and the starting configuration.
use vstd::prelude::*;

use crate::config::{Config, Sheet, SheetView};
use crate::dsl::{
    FieldMeta, FieldMetaMedia, FieldType, FieldView, RawSchema, Schema, parse_schema, spec_parse_field,
    spec_parse_schema,
};
use crate::error::{Error, ErrorView};
use crate::pipeline::{Record, SheetResult, SheetState};
use crate::strmap::{StrMap, distinct_keys, pairs_to_map};
use crate::text::{lemma_not_prefix_at, lemma_prefix_of_concat, lemma_suffix_of_concat};
use crate::value::{FieldValueView, eq_ignore_ascii_case, same_but_ascii_case};

verus! {

/// The commands of the command line.
#[derive(Debug, Clone, Copy, PartialEq, Eq, Structural)]
pub enum Commands {
    /// Fetch and process spreadsheet data from the web according to the configuration.
    Run,
    /// Create an initial configuration file.
    Init,
}

/// The parsed command line.
#[derive(Debug)]
pub struct Cli {
    pub command: Commands,
}

/// A sheet to fetch, with the name of its schema and the parsed schema.
#[derive(Debug)]
pub struct SheetJob {
    pub schema_name: String,
    pub sheet_id: String,
    pub schema: Schema,
}

/// The schema a sheet follows: the configuration must define it, and its definitions must parse.
pub open spec fn spec_sheet_schema(schemas: StrMap<RawSchema>, sheet: SheetView) -> Result<
    (Seq<(Seq<char>, FieldView)>, Seq<char>),
    ErrorView,
> {
    match schemas.lookup(sheet.schema) {
        None => Err(ErrorView::MissingSchema(sheet.schema)),
        Some(raw) => spec_parse_schema(raw.pairs()),
    }
}

/// Index of the first sheet whose schema is missing or does not parse, or the length.
pub open spec fn first_unplannable(schemas: StrMap<RawSchema>, sheets: Seq<(Seq<char>, SheetView)>) -> int
    decreases sheets.len(),
{
    if sheets.len() == 0 {
        0
    } else if spec_sheet_schema(schemas, sheets[0].1) is Err {
        0
    } else {
        1 + first_unplannable(schemas, sheets.drop_first())
    }
}

pub proof fn lemma_first_unplannable(schemas: StrMap<RawSchema>, sheets: Seq<(Seq<char>, SheetView)>)
    ensures
        0 <= first_unplannable(schemas, sheets) <= sheets.len(),
        first_unplannable(schemas, sheets) < sheets.len() ==> spec_sheet_schema(
            schemas,
            sheets[first_unplannable(schemas, sheets)].1,
        ) is Err,
        forall|j: int|
            0 <= j < first_unplannable(schemas, sheets) ==> spec_sheet_schema(
                schemas,
                (#[trigger] sheets[j]).1,
            ) is Ok,
    decreases sheets.len(),
{
    if sheets.len() > 0 && spec_sheet_schema(schemas, sheets[0].1) is Ok {
        lemma_first_unplannable(schemas, sheets.drop_first());
        assert forall|j: int| 0 <= j < first_unplannable(schemas, sheets) implies spec_sheet_schema(
            schemas,
            (#[trigger] sheets[j]).1,
        ) is Ok by {
            if j > 0 {
                assert(sheets[j] == sheets.drop_first()[j - 1]);
            }
        }
    }
}

/// One job per sheet of the configuration, in order, each with its parsed schema; the first sheet
/// whose schema is missing or does not parse gives the error.
pub fn plan_sheets(config: &Config) -> (r: Result<Vec<SheetJob>, Error>)
    ensures
        ({
            let sheets = config.sheets.pairs();
            let k = first_unplannable(config.schemas, sheets);
            if k < sheets.len() {
                r matches Err(e) && Err::<(Seq<(Seq<char>, FieldView)>, Seq<char>), ErrorView>(
                    e.deep_view(),
                ) == spec_sheet_schema(config.schemas, sheets[k].1)
            } else {
                r matches Ok(jobs) && jobs.len() == sheets.len() && forall|j: int|
                    0 <= j < sheets.len() ==> {
                        &&& (#[trigger] jobs[j]).sheet_id@ == sheets[j].0
                        &&& jobs[j].schema_name@ == sheets[j].1.schema
                        &&& spec_sheet_schema(config.schemas, sheets[j].1) == Ok::<
                            (Seq<(Seq<char>, FieldView)>, Seq<char>),
                            ErrorView,
                        >((jobs[j].schema.fields.pairs(), jobs[j].schema.identifier@))
                    }
            }
        }),
{
    let ghost sheets = config.sheets.pairs();
    proof {
        lemma_first_unplannable(config.schemas, sheets);
    }
    let n = config.sheets.len();
    let mut jobs: Vec<SheetJob> = Vec::new();
    let mut i: usize = 0;
    while i < n
        invariant
            n == sheets.len(),
            sheets == config.sheets.pairs(),
            i <= n,
            i <= first_unplannable(config.schemas, sheets),
            0 <= first_unplannable(config.schemas, sheets) <= sheets.len(),
            first_unplannable(config.schemas, sheets) < sheets.len() ==> spec_sheet_schema(
                config.schemas,
                sheets[first_unplannable(config.schemas, sheets)].1,
            ) is Err,
            forall|j: int|
                0 <= j < first_unplannable(config.schemas, sheets) ==> spec_sheet_schema(
                    config.schemas,
                    (#[trigger] sheets[j]).1,
                ) is Ok,
            jobs.len() == i,
            forall|j: int|
                0 <= j < i ==> {
                    &&& (#[trigger] jobs[j]).sheet_id@ == sheets[j].0
                    &&& jobs[j].schema_name@ == sheets[j].1.schema
                    &&& spec_sheet_schema(config.schemas, sheets[j].1) == Ok::<
                        (Seq<(Seq<char>, FieldView)>, Seq<char>),
                        ErrorView,
                    >((jobs[j].schema.fields.pairs(), jobs[j].schema.identifier@))
                },
        decreases n - i,
    {
        let sheet_id = config.sheets.key_at(i);
        let sheet: &Sheet = config.sheets.value_at(i);
        assert(sheets[i as int].1 == sheet.deep_view());
        let raw_schema = match config.schemas.get(sheet.schema.as_str()) {
            Some(raw) => raw,
            None => {
                return Err(Error::MissingSchema(sheet.schema.clone()));
            },
        };
        let schema = match parse_schema(raw_schema) {
            Ok(s) => s,
            Err(e) => {
                return Err(e);
            },
        };
        let ghost old_jobs = jobs@;
        jobs.push(SheetJob { schema_name: sheet.schema.clone(), sheet_id: sheet_id.clone(), schema });
        assert forall|j: int| 0 <= j < i + 1 implies {
            &&& (#[trigger] jobs[j]).sheet_id@ == sheets[j].0
            &&& jobs[j].schema_name@ == sheets[j].1.schema
            &&& spec_sheet_schema(config.schemas, sheets[j].1) == Ok::<
                (Seq<(Seq<char>, FieldView)>, Seq<char>),
                ErrorView,
            >((jobs[j].schema.fields.pairs(), jobs[j].schema.identifier@))
        } by {
            if j < i {
                assert(jobs[j] == old_jobs[j]);
            }
        }
        i = i + 1;
    }
    Ok(jobs)
}

/// Adds the records of `from` to `into`; a record of `from` replaces one of `into` with the same
/// identifier.
pub fn merge_state(into: &mut SheetState, from: &SheetState)
    ensures
        final(into).deep_view() == old(into).deep_view().union_prefer_right(from.deep_view()),
{
    let ghost start = into.deep_view();
    let ghost fp = from.pairs();
    let n = from.len();
    let mut i: usize = 0;
    assert(fp.take(0) =~= Seq::<(Seq<char>, Seq<char>)>::empty());
    assert(start.union_prefer_right(pairs_to_map(fp.take(0))) =~= start);
    while i < n
        invariant
            n == fp.len(),
            fp == from.pairs(),
            i <= n,
            into.deep_view() == start.union_prefer_right(pairs_to_map(fp.take(i as int))),
        decreases n - i,
    {
        let id = from.key_at(i);
        let hash = from.value_at(i);
        assert(fp.take(i + 1) =~= fp.take(i as int).push(fp[i as int]));
        proof {
            crate::strmap::lemma_pairs_to_map_push(fp.take(i as int), fp[i as int]);
        }
        into.insert(id.clone(), hash.clone());
        assert(into.deep_view() =~= start.union_prefer_right(pairs_to_map(fp.take(i + 1))));
        i = i + 1;
    }
    assert(fp.take(n as int) =~= fp);
}

/// What a run gathers for one schema: the records of its sheets and their merged state.
#[derive(Debug)]
pub struct SchemaData {
    pub records: Vec<Record>,
    pub state: SheetState,
}

/// A schema's gathered data, taken by view.
pub struct SchemaDataView {
    pub records: Seq<Map<Seq<char>, Option<FieldValueView>>>,
    pub state: Map<Seq<char>, Seq<char>>,
}

impl DeepView for SchemaData {
    type V = SchemaDataView;

    open spec fn deep_view(&self) -> SchemaDataView {
        SchemaDataView { records: self.records.deep_view(), state: self.state.deep_view() }
    }
}

/// The results of a run's sheets, each with the name of its schema, taken by view.
pub open spec fn sheet_results_view(results: Seq<(String, SheetResult)>) -> Seq<
    (Seq<char>, SchemaDataView),
> {
    results.map_values(
        |r: (String, SheetResult)|
            (r.0@, SchemaDataView { records: r.1.records.deep_view(), state: r.1.state.deep_view() }),
    )
}

/// The data of each schema after the sheets in order: a schema's records are those of its sheets
/// one after another, and its state is the union of its sheets' states, a later sheet's hash
/// replacing an earlier one for the same identifier.
pub open spec fn spec_group_by_schema(rs: Seq<(Seq<char>, SchemaDataView)>) -> Map<
    Seq<char>,
    SchemaDataView,
>
    decreases rs.len(),
{
    if rs.len() == 0 {
        Map::empty()
    } else {
        let g = spec_group_by_schema(rs.drop_last());
        let (name, d) = rs.last();
        if g.dom().contains(name) {
            g.insert(
                name,
                SchemaDataView {
                    records: g[name].records + d.records,
                    state: g[name].state.union_prefer_right(d.state),
                },
            )
        } else {
            g.insert(name, d)
        }
    }
}

/// A schema is gathered exactly when some sheet follows it.
pub proof fn lemma_group_by_schema_dom(rs: Seq<(Seq<char>, SchemaDataView)>, name: Seq<char>)
    ensures
        spec_group_by_schema(rs).dom().contains(name) <==> exists|i: int|
            0 <= i < rs.len() && (#[trigger] rs[i]).0 == name,
    decreases rs.len(),
{
    if rs.len() > 0 {
        let t = rs.drop_last();
        lemma_group_by_schema_dom(t, name);
        if exists|i: int| 0 <= i < t.len() && (#[trigger] t[i]).0 == name {
            let i = choose|i: int| 0 <= i < t.len() && (#[trigger] t[i]).0 == name;
            assert(rs[i] == t[i]);
        }
        if exists|i: int| 0 <= i < rs.len() && (#[trigger] rs[i]).0 == name {
            let i = choose|i: int| 0 <= i < rs.len() && (#[trigger] rs[i]).0 == name;
            if i < t.len() {
                assert(t[i] == rs[i]);
            }
        }
    }
}

/// The state gathered for a schema is the union of the states of the sheets that follow it: an
/// identifier is in it exactly when one of those sheets has it, with the hash of the last such
/// sheet.
pub proof fn law_group_state_is_union(rs: Seq<(Seq<char>, SchemaDataView)>, name: Seq<char>, k: Seq<char>)
    requires
        spec_group_by_schema(rs).dom().contains(name),
    ensures
        ({
            let st = spec_group_by_schema(rs)[name].state;
            &&& st.dom().contains(k) <==> exists|i: int|
                0 <= i < rs.len() && (#[trigger] rs[i]).0 == name && rs[i].1.state.dom().contains(k)
            &&& st.dom().contains(k) ==> exists|i: int|
                0 <= i < rs.len() && (#[trigger] rs[i]).0 == name && rs[i].1.state.dom().contains(k)
                    && st[k] == rs[i].1.state[k] && forall|j: int|
                    i < j < rs.len() && (#[trigger] rs[j]).0 == name ==> !rs[j].1.state.dom().contains(k)
        }),
    decreases rs.len(),
{
    let t = rs.drop_last();
    let last = rs.len() - 1;
    let (n, d) = rs.last();
    let gt = spec_group_by_schema(t);
    let st = spec_group_by_schema(rs)[name].state;
    assert(rs[last] == rs.last());
    assert forall|i: int| 0 <= i < t.len() implies #[trigger] t[i] == rs[i] by {}
    lemma_group_by_schema_dom(t, name);
    if n != name || gt.dom().contains(name) {
        if gt.dom().contains(name) {
            law_group_state_is_union(t, name, k);
        }
    }
    if n != name {
        assert(st == gt[name].state);
        if exists|i: int| 0 <= i < rs.len() && (#[trigger] rs[i]).0 == name && rs[i].1.state.dom().contains(k) {
            let i = choose|i: int| 0 <= i < rs.len() && (#[trigger] rs[i]).0 == name && rs[i].1.state.dom().contains(k);
            assert(t[i] == rs[i]);
        }
        if st.dom().contains(k) {
            let i = choose|i: int|
                0 <= i < t.len() && (#[trigger] t[i]).0 == name && t[i].1.state.dom().contains(k)
                    && gt[name].state[k] == t[i].1.state[k] && forall|j: int|
                    i < j < t.len() && (#[trigger] t[j]).0 == name ==> !t[j].1.state.dom().contains(k);
            assert(rs[i] == t[i]);
            assert forall|j: int| i < j < rs.len() && (#[trigger] rs[j]).0 == name implies !rs[j].1.state.dom().contains(k) by {
                assert(t[j] == rs[j]);
            }
        }
    } else if gt.dom().contains(name) {
        assert(st == gt[name].state.union_prefer_right(d.state));
        if d.state.dom().contains(k) {
            assert(rs[last].0 == name);
        } else {
            if exists|i: int| 0 <= i < rs.len() && (#[trigger] rs[i]).0 == name && rs[i].1.state.dom().contains(k) {
                let i = choose|i: int| 0 <= i < rs.len() && (#[trigger] rs[i]).0 == name && rs[i].1.state.dom().contains(k);
                assert(i != last);
                assert(t[i] == rs[i]);
            }
            if st.dom().contains(k) {
                let i = choose|i: int|
                    0 <= i < t.len() && (#[trigger] t[i]).0 == name && t[i].1.state.dom().contains(k)
                        && gt[name].state[k] == t[i].1.state[k] && forall|j: int|
                        i < j < t.len() && (#[trigger] t[j]).0 == name ==> !t[j].1.state.dom().contains(k);
                assert(rs[i] == t[i]);
                assert forall|j: int| i < j < rs.len() && (#[trigger] rs[j]).0 == name implies !rs[j].1.state.dom().contains(k) by {
                    if j < last {
                        assert(t[j] == rs[j]);
                    }
                }
            }
        }
    } else {
        assert(st == d.state);
        if exists|i: int| 0 <= i < rs.len() && (#[trigger] rs[i]).0 == name && rs[i].1.state.dom().contains(k) {
            let i = choose|i: int| 0 <= i < rs.len() && (#[trigger] rs[i]).0 == name && rs[i].1.state.dom().contains(k);
            if i < last {
                assert(t[i] == rs[i]);
            }
        }
        if st.dom().contains(k) {
            assert(rs[last].0 == name);
        }
    }
}

/// Index of `name` among `names`, if it is there.
fn position_of(names: &Vec<String>, name: &str) -> (r: Option<usize>)
    ensures
        r matches Some(j) ==> j < names@.len() && names@[j as int]@ == name@,
        r is None ==> forall|j: int| 0 <= j < names@.len() ==> (#[trigger] names@[j])@ != name@,
{
    let mut j: usize = 0;
    while j < names.len()
        invariant
            j <= names@.len(),
            forall|k: int| 0 <= k < j ==> (#[trigger] names@[k])@ != name@,
        decreases names@.len() - j,
    {
        if crate::text::str_eq(names[j].as_str(), name) {
            return Some(j);
        }
        j = j + 1;
    }
    None
}

/// Gathers the results of a run's sheets by schema: the records of each schema's sheets in sheet
/// order, and the union of their states, a later sheet winning for an identifier.
pub fn group_by_schema(results: Vec<(String, SheetResult)>) -> (r: StrMap<SchemaData>)
    ensures
        r.deep_view() == spec_group_by_schema(sheet_results_view(results@)),
        forall|name: Seq<char>|
            #[trigger] r.deep_view().dom().contains(name) <==> exists|i: int|
                0 <= i < results@.len() && (#[trigger] results@[i]).0@ == name,
{
    let ghost rs = sheet_results_view(results@);
    let n = results.len();
    let mut rest = results;
    let mut names: Vec<String> = Vec::new();
    let mut buckets: Vec<SchemaData> = Vec::new();
    let mut i: usize = 0;
    assert(rs.take(0) =~= Seq::<(Seq<char>, SchemaDataView)>::empty());
    while i < n
        invariant
            n == results@.len(),
            rs == sheet_results_view(results@),
            i <= n,
            rest@ == results@.skip(i as int),
            names@.len() == buckets@.len(),
            forall|a: int, b: int|
                0 <= a < b < names@.len() ==> (#[trigger] names@[a])@ != (#[trigger] names@[b])@,
            forall|name: Seq<char>|
                #[trigger] spec_group_by_schema(rs.take(i as int)).dom().contains(name) <==> exists|j: int|
                    0 <= j < names@.len() && (#[trigger] names@[j])@ == name,
            forall|j: int|
                0 <= j < names@.len() ==> spec_group_by_schema(rs.take(i as int))[(#[trigger] names@[j])@]
                    == buckets@[j].deep_view(),
        decreases n - i,
    {
        assert(rest@[0] == results@[i as int]);
        let (name, sheet) = rest.remove(0);
        assert(rest@ =~= results@.skip(i + 1));
        let ghost g = spec_group_by_schema(rs.take(i as int));
        let ghost d = rs[i as int];
        assert(rs.take(i + 1).drop_last() =~= rs.take(i as int));
        assert(rs.take(i + 1).last() == d);
        assert(d.0 == name@);
        let ghost g2 = spec_group_by_schema(rs.take(i + 1));
        let SheetResult { records, state } = sheet;
        let mut records = records;
        assert(d.1.records == records.deep_view());
        match position_of(&names, name.as_str()) {
            Some(j) => {
                let ghost old_buckets = buckets@;
                let mut b = buckets.remove(j);
                let ghost old_b = b.deep_view();
                assert(g.dom().contains(name@));
                merge_state(&mut b.state, &state);
                let ghost old_recs = b.records@;
                b.records.append(&mut records);
                assert(b.records.deep_view() =~= old_b.records + d.1.records);
                buckets.insert(j, b);
                assert(buckets@ =~= old_buckets.update(j as int, b));
                assert forall|k: int| 0 <= k < names@.len() implies g2[(#[trigger] names@[k])@]
                    == buckets@[k].deep_view() by {
                    if k != j {
                        assert(names@[k]@ != name@);
                    }
                }
                assert forall|nm: Seq<char>|
                    #[trigger] g2.dom().contains(nm) <==> exists|k: int|
                        0 <= k < names@.len() && (#[trigger] names@[k])@ == nm by {
                    if nm == name@ {
                        assert(names@[j as int]@ == nm);
                    }
                }
            },
            None => {
                assert(!g.dom().contains(name@));
                let ghost old_names = names@;
                let ghost old_buckets = buckets@;
                names.push(name);
                buckets.push(SchemaData { records, state });
                assert forall|k: int| 0 <= k < names@.len() implies g2[(#[trigger] names@[k])@]
                    == buckets@[k].deep_view() by {
                    if k < old_names.len() {
                        assert(names@[k] == old_names[k]);
                        assert(buckets@[k] == old_buckets[k]);
                    }
                }
                assert forall|nm: Seq<char>|
                    #[trigger] g2.dom().contains(nm) <==> exists|k: int|
                        0 <= k < names@.len() && (#[trigger] names@[k])@ == nm by {
                    if nm != name@ && g2.dom().contains(nm) {
                        let k = choose|k: int| 0 <= k < old_names.len() && (#[trigger] old_names[k])@ == nm;
                        assert(names@[k] == old_names[k]);
                    }
                    if nm == name@ {
                        assert(names@[old_names.len() as int]@ == nm);
                    }
                    if exists|k: int| 0 <= k < names@.len() && (#[trigger] names@[k])@ == nm {
                        let k = choose|k: int| 0 <= k < names@.len() && (#[trigger] names@[k])@ == nm;
                        if k < old_names.len() {
                            assert(names@[k] == old_names[k]);
                        }
                    }
                }
                assert forall|a: int, b: int|
                    0 <= a < b < names@.len() implies (#[trigger] names@[a])@ != (#[trigger] names@[b])@ by {
                    if b < old_names.len() {
                        assert(names@[a] == old_names[a] && names@[b] == old_names[b]);
                    } else {
                        assert(names@[a] == old_names[a]);
                    }
                }
            },
        }
        i = i + 1;
    }
    assert(rs.take(n as int) =~= rs);
    let ghost g = spec_group_by_schema(rs);
    let ghost all_names = names@;
    let ghost all_buckets = buckets@;
    let m = names.len();
    let mut out: StrMap<SchemaData> = StrMap::new();
    let mut k: usize = 0;
    let mut rest_names = names;
    while k < m
        invariant
            m == all_names.len(),
            m == all_buckets.len(),
            k <= m,
            rest_names@ == all_names.skip(k as int),
            buckets@ == all_buckets.skip(k as int),
            forall|a: int, b: int|
                0 <= a < b < all_names.len() ==> (#[trigger] all_names[a])@ != (#[trigger] all_names[b])@,
            forall|nm: Seq<char>|
                #[trigger] out.deep_view().dom().contains(nm) <==> exists|j: int|
                    0 <= j < k && (#[trigger] all_names[j])@ == nm,
            forall|j: int|
                0 <= j < k ==> out.deep_view()[(#[trigger] all_names[j])@] == all_buckets[j].deep_view(),
        decreases m - k,
    {
        assert(rest_names@[0] == all_names[k as int]);
        assert(buckets@[0] == all_buckets[k as int]);
        let name = rest_names.remove(0);
        let b = buckets.remove(0);
        assert(rest_names@ =~= all_names.skip(k + 1));
        assert(buckets@ =~= all_buckets.skip(k + 1));
        let ghost before = out.deep_view();
        out.insert(name, b);
        assert forall|j: int| 0 <= j < k + 1 implies out.deep_view()[(#[trigger] all_names[j])@]
            == all_buckets[j].deep_view() by {
            if j < k {
                assert(all_names[j]@ != all_names[k as int]@);
            }
        }
        assert forall|nm: Seq<char>|
            #[trigger] out.deep_view().dom().contains(nm) <==> exists|j: int|
                0 <= j < k + 1 && (#[trigger] all_names[j])@ == nm by {
            if nm == all_names[k as int]@ {
                assert(all_names[k as int]@ == nm);
            }
        }
        k = k + 1;
    }
    assert(out.deep_view() =~= g) by {
        assert forall|nm: Seq<char>| #[trigger] out.deep_view().dom().contains(nm) == g.dom().contains(nm) by {}
        assert forall|nm: Seq<char>| #[trigger] out.deep_view().dom().contains(nm) implies out.deep_view()[nm]
            == g[nm] by {
            let j = choose|j: int| 0 <= j < m && (#[trigger] all_names[j])@ == nm;
        }
    }
    proof {
        assert forall|nm: Seq<char>|
            #[trigger] out.deep_view().dom().contains(nm) <==> exists|i: int|
                0 <= i < results@.len() && (#[trigger] results@[i]).0@ == nm by {
            lemma_group_by_schema_dom(rs, nm);
            if exists|i: int| 0 <= i < results@.len() && (#[trigger] results@[i]).0@ == nm {
                let i = choose|i: int| 0 <= i < results@.len() && (#[trigger] results@[i]).0@ == nm;
                assert(rs[i].0 == nm);
            }
            if exists|i: int| 0 <= i < rs.len() && (#[trigger] rs[i]).0 == nm {
                let i = choose|i: int| 0 <= i < rs.len() && (#[trigger] rs[i]).0 == nm;
                assert(results@[i].0@ == nm);
            }
        }
    }
    out
}

/// The characters `char::is_whitespace` accepts: those with Unicode's White_Space property.
pub open spec fn is_white_space(c: char) -> bool {
    ||| '\t' <= c <= '\r'
    ||| c == ' '
    ||| c == '\u{85}'
    ||| c == '\u{a0}'
    ||| c == '\u{1680}'
    ||| '\u{2000}' <= c <= '\u{200a}'
    ||| c == '\u{2028}'
    ||| c == '\u{2029}'
    ||| c == '\u{202f}'
    ||| c == '\u{205f}'
    ||| c == '\u{3000}'
}

/// `s` without its leading white space.
pub open spec fn trim_start(s: Seq<char>) -> Seq<char>
    decreases s.len(),
{
    if s.len() > 0 && is_white_space(s[0]) {
        trim_start(s.drop_first())
    } else {
        s
    }
}

/// `s` without its trailing white space.
pub open spec fn trim_end(s: Seq<char>) -> Seq<char>
    decreases s.len(),
{
    if s.len() > 0 && is_white_space(s.last()) {
        trim_end(s.drop_last())
    } else {
        s
    }
}

/// `s` without leading and trailing white space, as `str::trim` gives it.
pub open spec fn trim(s: Seq<char>) -> Seq<char> {
    trim_end(trim_start(s))
}

fn is_white_space_char(c: char) -> (r: bool)
    ensures
        r == is_white_space(c),
{
    ('\t' <= c && c <= '\r') || c == ' ' || c == '\u{85}' || c == '\u{a0}' || c == '\u{1680}' || (
    '\u{2000}' <= c && c <= '\u{200a}') || c == '\u{2028}' || c == '\u{2029}' || c == '\u{202f}'
        || c == '\u{205f}' || c == '\u{3000}'
}

/// `s` without leading and trailing white space.
pub fn trim_white_space(s: &str) -> (r: &str)
    ensures
        r@ == trim(s@),
{
    let n = s.unicode_len();
    let mut start: usize = 0;
    assert(s@.skip(0) =~= s@);
    while start < n && is_white_space_char(s.get_char(start))
        invariant
            n == s@.len(),
            start <= n,
            trim_start(s@) == trim_start(s@.skip(start as int)),
        decreases n - start,
    {
        assert(s@.skip(start as int).drop_first() =~= s@.skip(start + 1));
        start = start + 1;
    }
    assert(trim_start(s@) == s@.skip(start as int)) by {
        if start < n {
            assert(s@.skip(start as int)[0] == s@[start as int]);
        } else {
            assert(s@.skip(start as int).len() == 0);
        }
    }
    let mut end: usize = n;
    let ghost t = s@.skip(start as int);
    assert(t.take((end - start) as int) =~= t);
    while end > start && is_white_space_char(s.get_char(end - 1))
        invariant
            n == s@.len(),
            start <= end <= n,
            t == s@.skip(start as int),
            trim_end(t) == trim_end(t.take((end - start) as int)),
        decreases end,
    {
        assert(t.take((end - start) as int).drop_last() =~= t.take((end - 1 - start) as int));
        assert(t.take((end - start) as int).last() == s@[end - 1]);
        end = end - 1;
    }
    let r = s.substring_char(start, end);
    assert(r@ =~= t.take((end - start) as int));
    assert(trim_end(t.take((end - start) as int)) == t.take((end - start) as int)) by {
        if end > start {
            assert(t.take((end - start) as int).last() == s@[end - 1]);
        }
    }
    r
}

/// What an answer to the overwrite question decides, its ASCII letters taken in either case:
/// `y` or `yes` overwrites, `n`, `no` or nothing keeps the file, anything else asks again
/// (`None`).
pub open spec fn spec_overwrite_answer(answer: Seq<char>) -> Option<bool> {
    let t = trim(answer);
    if eq_ignore_ascii_case(t, "y"@) || eq_ignore_ascii_case(t, "yes"@) {
        Some(true)
    } else if eq_ignore_ascii_case(t, "n"@) || eq_ignore_ascii_case(t, "no"@) || t.len() == 0 {
        Some(false)
    } else {
        None
    }
}

proof fn lemma_same_case_white_space(a: Seq<char>, b: Seq<char>, i: int)
    requires
        same_but_ascii_case(a, b),
        0 <= i < a.len(),
    ensures
        is_white_space(a[i]) == is_white_space(b[i]),
        crate::value::ascii_lower_code(a[i]) == crate::value::ascii_lower_code(b[i]),
{
    assert(a[i] == b[i] || ('A' <= a[i] <= 'Z' && b[i] as u32 == a[i] as u32 + 32) || ('A' <= b[i]
        <= 'Z' && a[i] as u32 == b[i] as u32 + 32));
}

proof fn lemma_same_case_trim_start(a: Seq<char>, b: Seq<char>)
    requires
        same_but_ascii_case(a, b),
    ensures
        same_but_ascii_case(trim_start(a), trim_start(b)),
    decreases a.len(),
{
    if a.len() > 0 {
        lemma_same_case_white_space(a, b, 0);
        if is_white_space(a[0]) {
            let (a1, b1) = (a.drop_first(), b.drop_first());
            assert forall|i: int| 0 <= i < a1.len() implies #[trigger] a1[i] == b1[i] || ('A' <= a1[i]
                <= 'Z' && b1[i] as u32 == a1[i] as u32 + 32) || ('A' <= b1[i] <= 'Z' && a1[i] as u32
                == b1[i] as u32 + 32) by {
                assert(a1[i] == a[i + 1] && b1[i] == b[i + 1]);
                assert(a[i + 1] == b[i + 1] || ('A' <= a[i + 1] <= 'Z' && b[i + 1] as u32 == a[i + 1]
                    as u32 + 32) || ('A' <= b[i + 1] <= 'Z' && a[i + 1] as u32 == b[i + 1] as u32 + 32));
            }
            lemma_same_case_trim_start(a1, b1);
        }
    }
}

proof fn lemma_same_case_trim_end(a: Seq<char>, b: Seq<char>)
    requires
        same_but_ascii_case(a, b),
    ensures
        same_but_ascii_case(trim_end(a), trim_end(b)),
    decreases a.len(),
{
    if a.len() > 0 {
        lemma_same_case_white_space(a, b, a.len() - 1);
        if is_white_space(a.last()) {
            let (a1, b1) = (a.drop_last(), b.drop_last());
            assert forall|i: int| 0 <= i < a1.len() implies #[trigger] a1[i] == b1[i] || ('A' <= a1[i]
                <= 'Z' && b1[i] as u32 == a1[i] as u32 + 32) || ('A' <= b1[i] <= 'Z' && a1[i] as u32
                == b1[i] as u32 + 32) by {
                assert(a1[i] == a[i] && b1[i] == b[i]);
                assert(a[i] == b[i] || ('A' <= a[i] <= 'Z' && b[i] as u32 == a[i] as u32 + 32) || (
                'A' <= b[i] <= 'Z' && a[i] as u32 == b[i] as u32 + 32));
            }
            lemma_same_case_trim_end(a1, b1);
        }
    }
}

/// The answer to the overwrite question does not depend on the case of its ASCII letters: an
/// answer and the same answer in other case (`N` and `n`, `Yes` and `yes`) decide alike.
pub proof fn law_overwrite_answer_ignores_case(a: Seq<char>, b: Seq<char>)
    requires
        same_but_ascii_case(a, b),
    ensures
        spec_overwrite_answer(a) == spec_overwrite_answer(b),
{
    lemma_same_case_trim_start(a, b);
    lemma_same_case_trim_end(trim_start(a), trim_start(b));
    let (ta, tb) = (trim(a), trim(b));
    assert forall|i: int| 0 <= i < ta.len() implies crate::value::ascii_lower_code(#[trigger] ta[i])
        == crate::value::ascii_lower_code(tb[i]) by {
        lemma_same_case_white_space(ta, tb, i);
    }
    assert forall|l: Seq<char>| #[trigger] eq_ignore_ascii_case(ta, l) == eq_ignore_ascii_case(tb, l) by {
        if eq_ignore_ascii_case(ta, l) {
            assert forall|i: int| 0 <= i < tb.len() implies crate::value::ascii_lower_code(tb[i])
                == l[i] as u32 by {
                assert(crate::value::ascii_lower_code(ta[i]) == crate::value::ascii_lower_code(tb[i]));
            }
        }
        if eq_ignore_ascii_case(tb, l) {
            assert forall|i: int| 0 <= i < ta.len() implies crate::value::ascii_lower_code(ta[i])
                == l[i] as u32 by {
                assert(crate::value::ascii_lower_code(ta[i]) == crate::value::ascii_lower_code(tb[i]));
            }
        }
    }
}

proof fn lemma_trim_start_shape(s: Seq<char>)
    ensures
        ({
            let i = s.len() - trim_start(s).len();
            &&& 0 <= i <= s.len()
            &&& trim_start(s) == s.skip(i)
            &&& forall|k: int| 0 <= k < i ==> is_white_space(#[trigger] s[k])
            &&& i < s.len() ==> !is_white_space(s[i])
        }),
    decreases s.len(),
{
    if s.len() > 0 && is_white_space(s[0]) {
        let t = s.drop_first();
        lemma_trim_start_shape(t);
        assert forall|k: int| 0 <= k < s.len() - trim_start(s).len() implies is_white_space(
            #[trigger] s[k],
        ) by {
            if k > 0 {
                assert(s[k] == t[k - 1]);
            }
        }
        assert(t.skip(t.len() - trim_start(t).len()) =~= s.skip(s.len() - trim_start(s).len()));
    } else {
        assert(s.skip(0) =~= s);
    }
}

proof fn lemma_trim_end_shape(s: Seq<char>)
    ensures
        ({
            let j = trim_end(s).len() as int;
            &&& 0 <= j <= s.len()
            &&& trim_end(s) == s.take(j)
            &&& forall|k: int| j <= k < s.len() ==> is_white_space(#[trigger] s[k])
            &&& j > 0 ==> !is_white_space(s[j - 1])
        }),
    decreases s.len(),
{
    if s.len() > 0 && is_white_space(s.last()) {
        let t = s.drop_last();
        lemma_trim_end_shape(t);
        assert forall|k: int| trim_end(s).len() <= k < s.len() implies is_white_space(#[trigger] s[k]) by {
            if k < s.len() - 1 {
                assert(s[k] == t[k]);
            }
        }
        assert(t.take(trim_end(t).len() as int) =~= s.take(trim_end(s).len() as int));
    } else {
        assert(s.take(s.len() as int) =~= s);
    }
}

/// `trim` takes away exactly the white space at both ends: what it gives is a piece of the
/// text, everything before and after that piece is white space, and the piece neither starts
/// nor ends with white space.
pub proof fn law_trim_removes_outer_white_space(s: Seq<char>)
    ensures
        exists|i: int, j: int|
            0 <= i <= j <= s.len() && #[trigger] s.subrange(i, j) == trim(s) && (forall|k: int|
                0 <= k < i ==> is_white_space(#[trigger] s[k])) && (forall|k: int|
                j <= k < s.len() ==> is_white_space(#[trigger] s[k])) && (i < j ==> !is_white_space(
                s[i]) && !is_white_space(s[j - 1])),
{
    lemma_trim_start_shape(s);
    let i = s.len() - trim_start(s).len();
    let t = trim_start(s);
    lemma_trim_end_shape(t);
    let j = i + trim_end(t).len();
    assert(s.subrange(i, j) =~= trim(s));
    assert forall|k: int| j <= k < s.len() implies is_white_space(#[trigger] s[k]) by {
        assert(s[k] == t[k - i]);
    }
    if i < j {
        assert(s[i] == t[0]);
        assert(s[j - 1] == t[j - 1 - i]);
    }
}

/// What an answer to the overwrite question decides, from its text without the white space at
/// its ends: `y` or `yes` in any case of letters overwrites, `n`, `no` or nothing keeps the file,
/// and anything else asks again.
pub proof fn law_overwrite_answer_meaning(answer: Seq<char>)
    ensures
        spec_overwrite_answer(answer) == Some(true) <==> same_but_ascii_case(trim(answer), seq!['y'])
            || same_but_ascii_case(trim(answer), seq!['y', 'e', 's']),
        spec_overwrite_answer(answer) == Some(false) <==> !(same_but_ascii_case(trim(answer), seq!['y'])
            || same_but_ascii_case(trim(answer), seq!['y', 'e', 's'])) && (same_but_ascii_case(
            trim(answer),
            seq!['n'],
        ) || same_but_ascii_case(trim(answer), seq!['n', 'o']) || trim(answer).len() == 0),
{
    reveal_strlit("y");
    reveal_strlit("yes");
    reveal_strlit("n");
    reveal_strlit("no");
    assert("y"@ =~= seq!['y']);
    assert("yes"@ =~= seq!['y', 'e', 's']);
    assert("n"@ =~= seq!['n']);
    assert("no"@ =~= seq!['n', 'o']);
    let t = trim(answer);
    crate::value::lemma_lower_same_case(t, seq!['y']);
    crate::value::lemma_lower_same_case(t, seq!['y', 'e', 's']);
    crate::value::lemma_lower_same_case(t, seq!['n']);
    crate::value::lemma_lower_same_case(t, seq!['n', 'o']);
}

/// Reads an answer to the question whether to overwrite an existing configuration file.
pub fn overwrite_answer(answer: &str) -> (r: Option<bool>)
    ensures
        r == spec_overwrite_answer(answer@),
{
    let t = trim_white_space(answer);
    if crate::value::str_eq_ignore_ascii_case(t, "y") || crate::value::str_eq_ignore_ascii_case(t, "yes") {
        Some(true)
    } else if crate::value::str_eq_ignore_ascii_case(t, "n") || crate::value::str_eq_ignore_ascii_case(t, "no")
        || t.is_empty() {
        Some(false)
    } else {
        None
    }
}

/// The definitions of the example `product` schema.
pub open spec fn spec_initial_product_schema() -> Map<Seq<char>, Seq<char>> {
    Map::empty().insert("id"@, "string @identifier"@).insert("name"@, "string"@).insert(
        "price"@,
        "float"@,
    ).insert("base qty"@, "string -> base_qty"@).insert("description"@, "string?"@).insert(
        "img1"@,
        "string? @media(image)"@,
    )
}

/// What each definition of the example `product` schema parses to.
pub proof fn lemma_initial_definitions_parse()
    ensures
        spec_parse_field("string @identifier"@, true) == Ok::<FieldView, ErrorView>(
            FieldView { ty: FieldType::String, nullable: false, rename: None, meta: Some(FieldMeta::Identifier) },
        ),
        spec_parse_field("string"@, true) == Ok::<FieldView, ErrorView>(
            FieldView { ty: FieldType::String, nullable: false, rename: None, meta: None },
        ),
        spec_parse_field("float"@, true) == Ok::<FieldView, ErrorView>(
            FieldView { ty: FieldType::Float, nullable: false, rename: None, meta: None },
        ),
        spec_parse_field("string -> base_qty"@, true) == Ok::<FieldView, ErrorView>(
            FieldView { ty: FieldType::String, nullable: false, rename: Some("base_qty"@), meta: None },
        ),
        spec_parse_field("string?"@, true) == Ok::<FieldView, ErrorView>(
            FieldView { ty: FieldType::String, nullable: true, rename: None, meta: None },
        ),
        spec_parse_field("string? @media(image)"@, true) == Ok::<FieldView, ErrorView>(
            FieldView {
                ty: FieldType::String,
                nullable: true,
                rename: None,
                meta: Some(FieldMeta::Media(FieldMetaMedia::Image)),
            },
        ),
{
    reveal_strlit("string @identifier");
    reveal_strlit("string");
    reveal_strlit("float");
    reveal_strlit("string -> base_qty");
    reveal_strlit("string?");
    reveal_strlit("string? @media(image)");
    reveal_strlit("int");
    reveal_strlit("?");
    reveal_strlit(" -> ");
    reveal_strlit(" ");
    reveal_strlit("@identifier");
    reveal_strlit("@media(");
    reveal_strlit(")");
    reveal_strlit("image");
    reveal_strlit("base_qty");
    reveal_strlit(" @identifier");
    reveal_strlit(" -> base_qty");
    reveal_strlit("? @media(image)");
    reveal_strlit(" @media(image)");
    reveal_strlit("@media(image)");
    reveal_strlit("image)");
    let e = Seq::<char>::empty();
    // string @identifier
    assert("string @identifier"@ =~= "string"@ + " @identifier"@);
    lemma_prefix_of_concat("string"@, " @identifier"@);
    lemma_not_prefix_at(" @identifier"@, "?"@, 0);
    lemma_not_prefix_at(" @identifier"@, " -> "@, 1);
    assert(" @identifier"@ =~= " "@ + "@identifier"@);
    lemma_prefix_of_concat(" "@, "@identifier"@);
    // string
    assert("string"@ =~= "string"@ + e);
    lemma_prefix_of_concat("string"@, e);
    lemma_not_prefix_at(e, "?"@, 0);
    lemma_not_prefix_at(e, " -> "@, 0);
    // float
    lemma_not_prefix_at("float"@, "string"@, 0);
    lemma_not_prefix_at("float"@, "int"@, 0);
    assert("float"@ =~= "float"@ + e);
    lemma_prefix_of_concat("float"@, e);
    // string -> base_qty
    assert("string -> base_qty"@ =~= "string"@ + " -> base_qty"@);
    lemma_prefix_of_concat("string"@, " -> base_qty"@);
    lemma_not_prefix_at(" -> base_qty"@, "?"@, 0);
    assert(" -> base_qty"@ =~= " -> "@ + "base_qty"@);
    lemma_prefix_of_concat(" -> "@, "base_qty"@);
    crate::text::lemma_first_index_of("base_qty"@, ' ');
    assert(crate::text::first_index_of("base_qty"@, ' ') == 8);
    assert("base_qty"@.take(8) =~= "base_qty"@);
    assert("base_qty"@.skip(8) =~= e);
    // string?
    assert("string?"@ =~= "string"@ + "?"@);
    lemma_prefix_of_concat("string"@, "?"@);
    assert("?"@ =~= "?"@ + e);
    lemma_prefix_of_concat("?"@, e);
    // string? @media(image)
    assert("string? @media(image)"@ =~= "string"@ + "? @media(image)"@);
    lemma_prefix_of_concat("string"@, "? @media(image)"@);
    assert("? @media(image)"@ =~= "?"@ + " @media(image)"@);
    lemma_prefix_of_concat("?"@, " @media(image)"@);
    lemma_not_prefix_at(" @media(image)"@, " -> "@, 1);
    assert(" @media(image)"@ =~= " "@ + "@media(image)"@);
    lemma_prefix_of_concat(" "@, "@media(image)"@);
    assert("@media(image)"@ != "@identifier"@);
    assert("@media(image)"@ =~= "@media("@ + "image)"@);
    lemma_prefix_of_concat("@media("@, "image)"@);
    assert("image)"@ =~= "image"@ + ")"@);
    lemma_suffix_of_concat("image"@, ")"@);
}

/// The fields the example `product` schema parses to, by column name.
pub open spec fn spec_initial_product_fields() -> Map<Seq<char>, FieldView> {
    Map::empty().insert(
        "id"@,
        FieldView { ty: FieldType::String, nullable: false, rename: None, meta: Some(FieldMeta::Identifier) },
    ).insert(
        "name"@,
        FieldView { ty: FieldType::String, nullable: false, rename: None, meta: None },
    ).insert(
        "price"@,
        FieldView { ty: FieldType::Float, nullable: false, rename: None, meta: None },
    ).insert(
        "base qty"@,
        FieldView { ty: FieldType::String, nullable: false, rename: Some("base_qty"@), meta: None },
    ).insert(
        "description"@,
        FieldView { ty: FieldType::String, nullable: true, rename: None, meta: None },
    ).insert(
        "img1"@,
        FieldView {
            ty: FieldType::String,
            nullable: true,
            rename: None,
            meta: Some(FieldMeta::Media(FieldMetaMedia::Image)),
        },
    )
}

/// The example `product` schema that `init` writes parses, in whatever order its definitions
/// are stored: to six fields, those of `spec_initial_product_fields`, with `id` the identifier.
pub proof fn law_initial_product_schema_parses(raw: &RawSchema)
    requires
        distinct_keys(raw.pairs()),
        raw.deep_view() == spec_initial_product_schema(),
    ensures
        spec_parse_schema(raw.pairs()) matches Ok((fs, id)) && fs.len() == 6 && id == "id"@
            && pairs_to_map(fs) == spec_initial_product_fields(),
{
    reveal_strlit("id");
    reveal_strlit("name");
    reveal_strlit("price");
    reveal_strlit("base qty");
    reveal_strlit("description");
    reveal_strlit("img1");
    lemma_initial_definitions_parse();
    let p = raw.pairs();
    let m = raw.deep_view();
    crate::dsl::law_schema_parses_field_by_field(raw);
    crate::dsl::lemma_parse_fields_each(p);
    crate::strmap::lemma_pairs_to_map_len(p);
    broadcast use vstd::set::group_set_axioms;
    let s0 = Set::<Seq<char>>::empty();
    let s1 = s0.insert("id"@);
    let s2 = s1.insert("name"@);
    let s3 = s2.insert("price"@);
    let s4 = s3.insert("base qty"@);
    let s5 = s4.insert("description"@);
    let s6 = s5.insert("img1"@);
    assert(s0.finite() && s0.len() == 0);
    assert("name"@[0] != "img1"@[0]);
    assert("id"@.len() == 2 && "name"@.len() == 4 && "price"@.len() == 5);
    assert("base qty"@.len() == 8 && "description"@.len() == 11 && "img1"@.len() == 4);
    assert(!s0.contains("id"@));
    assert(s1.finite() && s1.len() == 1);
    assert(!s1.contains("name"@));
    assert(s2.finite() && s2.len() == 2);
    assert(!s2.contains("price"@));
    assert(s3.finite() && s3.len() == 3);
    assert(!s3.contains("base qty"@));
    assert(s4.finite() && s4.len() == 4);
    assert(!s4.contains("description"@));
    assert(s5.finite() && s5.len() == 5);
    assert(!s5.contains("img1"@));
    assert(s6.finite() && s6.len() == 6);
    assert(m.dom() =~= s6);
    assert(p.len() == 6);
    assert forall|i: int| 0 <= i < p.len() implies spec_parse_field(#[trigger] p[i].1, true) is Ok by {
        crate::strmap::lemma_pairs_to_map_index(p, i);
    }
    let fs = crate::dsl::spec_parse_fields(p)->Ok_0;
    crate::dsl::lemma_first_identifier(fs);
    crate::strmap::lemma_pairs_to_map_dom(p, "id"@);
    let j = choose|j: int| 0 <= j < p.len() && #[trigger] p[j].0 == "id"@;
    crate::strmap::lemma_pairs_to_map_index(p, j);
    assert(fs[j].1.meta == Some(FieldMeta::Identifier));
    let k = crate::dsl::first_identifier(fs);
    crate::strmap::lemma_pairs_to_map_index(p, k);
    assert(fs[k].0 == "id"@);
    assert(pairs_to_map(fs) =~= spec_initial_product_fields());
}

fn insert_definition(schema: &mut RawSchema, name: &str, dsl: &str)
    ensures
        final(schema).deep_view() == old(schema).deep_view().insert(name@, dsl@),
{
    schema.insert(name.to_owned(), dsl.to_owned());
}

/// The configuration that `init` writes: an example `product` schema and two sheets that
/// follow it.
pub fn initial_config() -> (c: Config)
    ensures
        c.root_path@ == "url/to/your/csv/file"@,
        c.schemas.deep_view() == Map::<Seq<char>, Map<Seq<char>, Seq<char>>>::empty().insert(
            "product"@,
            spec_initial_product_schema(),
        ),
        c.sheets.deep_view() == Map::<Seq<char>, SheetView>::empty().insert(
            "1234"@,
            SheetView { name: "Products"@, schema: "product"@ },
        ).insert("4321"@, SheetView { name: "Categories"@, schema: "product"@ }),
{
    let mut product: RawSchema = StrMap::new();
    insert_definition(&mut product, "id", "string @identifier");
    insert_definition(&mut product, "name", "string");
    insert_definition(&mut product, "price", "float");
    insert_definition(&mut product, "base qty", "string -> base_qty");
    insert_definition(&mut product, "description", "string?");
    insert_definition(&mut product, "img1", "string? @media(image)");
    let mut schemas: StrMap<RawSchema> = StrMap::new();
    schemas.insert("product".to_owned(), product);
    let mut sheets: StrMap<Sheet> = StrMap::new();
    sheets.insert(
        "1234".to_owned(),
        Sheet { name: "Products".to_owned(), schema: "product".to_owned() },
    );
    sheets.insert(
        "4321".to_owned(),
        Sheet { name: "Categories".to_owned(), schema: "product".to_owned() },
    );
    Config { root_path: "url/to/your/csv/file".to_owned(), schemas, sheets }
}

} // verus!
