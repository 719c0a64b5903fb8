//! Flattening of an artifact tree into rows, and projection of the rows onto
//! a list of columns.
//!
//! At each level of the tree the siblings fall into two groups. An artifact
//! with children, and the start artifact, is compound: its children are
//! flattened, and its own value, if it has one, is added to each of the rows
//! that come out. All the other siblings together make one row.

use std::sync::Arc;
use vstd::prelude::*;
use crate::artifact::{Artifact, ArtifactView, artifacts_view, start_tag};
use crate::row::FlatRow;
use crate::text::{same, share};

verus! {

/// A row, as contracts see it.
pub type RowView = Map<Seq<char>, Seq<char>>;

/// The views of a list of rows.
pub open spec fn rows_view(v: Seq<FlatRow>) -> Seq<RowView> {
    v.map_values(|r: FlatRow| r@)
}

/// Whether an artifact is flattened by itself: it has children, or it is the
/// start artifact.
pub open spec fn is_compound(a: ArtifactView) -> bool {
    a.children.len() > 0 || a.tag == start_tag()
}

/// `rows`, each with the value of `a` under the tag of `a`, if `a` has a value.
pub open spec fn with_context(a: ArtifactView, rows: Seq<RowView>) -> Seq<RowView> {
    match a.data {
        Some(d) => rows.map_values(|r: RowView| r.insert(a.tag, d)),
        None => rows,
    }
}

/// The rows of the compound artifacts among the first `n` of `siblings`, in
/// their order.
pub open spec fn compound_rows(siblings: Seq<ArtifactView>, n: nat) -> Seq<RowView>
    decreases siblings, n,
{
    if n == 0 || n > siblings.len() {
        Seq::empty()
    } else {
        let a = siblings[n - 1];
        let before = compound_rows(siblings, (n - 1) as nat);
        if is_compound(a) {
            before + with_context(a, flatten(a.children))
        } else {
            before
        }
    }
}

/// The one row of the artifacts among the first `n` of `siblings` that are
/// not compound. One without a value adds nothing; of two with the same tag
/// the later one counts.
pub open spec fn leaf_row(siblings: Seq<ArtifactView>, n: nat) -> RowView
    decreases n,
{
    if n == 0 || n > siblings.len() {
        Map::empty()
    } else {
        let a = siblings[n - 1];
        let before = leaf_row(siblings, (n - 1) as nat);
        match a.data {
            Some(d) if !is_compound(a) => before.insert(a.tag, d),
            _ => before,
        }
    }
}

/// Whether one of the first `n` of `siblings` is not compound.
pub open spec fn has_leaf(siblings: Seq<ArtifactView>, n: nat) -> bool {
    exists|i: int| 0 <= i < n && i < siblings.len() && !is_compound(#[trigger] siblings[i])
}

/// The rows that a list of sibling artifacts flattens to: the rows of the
/// compound ones, then the one row of the others, if there are any.
pub open spec fn flatten(siblings: Seq<ArtifactView>) -> Seq<RowView>
    decreases siblings, siblings.len() + 1,
{
    let compound = compound_rows(siblings, siblings.len());
    if has_leaf(siblings, siblings.len()) {
        compound.push(leaf_row(siblings, siblings.len()))
    } else {
        compound
    }
}

/// Whether `tag` is the tag of the start artifact.
fn is_start(tag: &String) -> (r: bool)
    ensures
        r == (tag@ == start_tag()),
{
    same(tag.as_str(), "source_url")
}

/// Adds the entry `tag`, `data` to each of `rows`.
fn add_context(rows: &mut Vec<FlatRow>, tag: &String, data: &Arc<String>)
    ensures
        final(rows)@.len() == old(rows)@.len(),
        forall|i: int|
            0 <= i < old(rows)@.len() ==> (#[trigger] final(rows)@[i])@ == old(rows)@[i]@.insert(
                tag@,
                data@,
            ),
{
    let mut j: usize = 0;
    while j < rows.len()
        invariant
            j <= rows@.len(),
            rows@.len() == old(rows)@.len(),
            forall|i: int|
                0 <= i < j ==> (#[trigger] rows@[i])@ == old(rows)@[i]@.insert(tag@, data@),
            forall|i: int| j <= i < rows@.len() ==> #[trigger] rows@[i] == old(rows)@[i],
        decreases rows@.len() - j,
    {
        rows[j].insert(tag.clone(), share(data));
        j += 1;
    }
}

/// Flattens a list of sibling artifacts into rows.
fn flatten_rows(artifacts: &Vec<Artifact>) -> (rows: Vec<FlatRow>)
    ensures
        rows_view(rows@) == flatten(artifacts_view(artifacts@)),
    decreases artifacts,
{
    let ghost siblings = artifacts_view(artifacts@);
    let mut result: Vec<FlatRow> = Vec::new();
    let mut leaves = FlatRow::new();
    let mut any_leaf = false;
    let mut i: usize = 0;
    assert(rows_view(result@) =~= compound_rows(siblings, 0));
    while i < artifacts.len()
        invariant
            i <= artifacts.len(),
            siblings == artifacts_view(artifacts@),
            rows_view(result@) == compound_rows(siblings, i as nat),
            leaves@ == leaf_row(siblings, i as nat),
            any_leaf == has_leaf(siblings, i as nat),
        decreases artifacts.len() - i,
    {
        let artifact = &artifacts[i];
        let ghost a = siblings[i as int];
        assert(a == artifact@);
        proof {
            artifact.lemma_children_view();
        }
        if artifact.children.len() == 0 && !is_start(&artifact.tag) {
            assert(!is_compound(a));
            any_leaf = true;
            match &artifact.data {
                Some(data) => {
                    leaves.insert(artifact.tag.clone(), share(data));
                },
                None => {},
            }
        } else {
            assert(is_compound(a));
            let mut below = flatten_rows(&artifact.children);
            match &artifact.data {
                Some(data) => {
                    add_context(&mut below, &artifact.tag, data);
                },
                None => {},
            }
            assert(rows_view(below@) =~= with_context(a, flatten(a.children)));
            let ghost before = rows_view(result@);
            let ghost added = rows_view(below@);
            result.append(&mut below);
            assert(rows_view(result@) =~= before + added);
            assert(has_leaf(siblings, (i + 1) as nat) == has_leaf(siblings, i as nat));
        }
        i += 1;
    }
    if any_leaf {
        let ghost before = rows_view(result@);
        result.push(leaves);
        assert(rows_view(result@) =~= before.push(leaves@));
    }
    result
}

/// Flattens a list of sibling artifacts into rows.
pub fn format_map_list(artifacts: Vec<Artifact>) -> (rows: Vec<FlatRow>)
    ensures
        rows_view(rows@) == flatten(artifacts_view(artifacts@)),
{
    flatten_rows(&artifacts)
}

/// Why rows could not be projected onto a list of columns.
#[derive(Debug)]
pub enum FormatError {
    /// `row` has no entry for `column`.
    MissingField { column: String, row: FlatRow },
}

pub enum FormatErrorView {
    MissingField { column: Seq<char>, row: RowView },
}

impl View for FormatError {
    type V = FormatErrorView;

    open spec fn view(&self) -> FormatErrorView {
        match self {
            FormatError::MissingField { column, row } => FormatErrorView::MissingField {
                column: column@,
                row: row@,
            },
        }
    }
}

/// The views of a list of column names.
pub open spec fn columns_view(v: Seq<&'static str>) -> Seq<Seq<char>> {
    v.map_values(|c: &'static str| c@)
}

/// The views of the values of one projected row.
pub open spec fn values_view(v: Seq<Arc<String>>) -> Seq<Seq<char>> {
    v.map_values(|x: Arc<String>| x@)
}

/// The views of a list of projected rows.
pub open spec fn table_view(v: Seq<Vec<Arc<String>>>) -> Seq<Seq<Seq<char>>> {
    v.map_values(|r: Vec<Arc<String>>| values_view(r@))
}

/// The first of `columns` for which `row` has no entry, if there is one.
pub open spec fn missing_column(row: RowView, columns: Seq<Seq<char>>) -> Option<Seq<char>>
    decreases columns.len(),
{
    if columns.len() == 0 {
        None
    } else if !row.contains_key(columns[0]) {
        Some(columns[0])
    } else {
        missing_column(row, columns.drop_first())
    }
}

/// The values of `row` for `columns`, in the order of `columns`.
pub open spec fn project_row(row: RowView, columns: Seq<Seq<char>>) -> Seq<Seq<char>> {
    columns.map_values(|c: Seq<char>| row[c])
}

/// `done` followed by what `rest` holds, where `rest` holds projected rows.
pub open spec fn after(
    done: Seq<Seq<Seq<char>>>,
    rest: Result<Seq<Seq<Seq<char>>>, FormatErrorView>,
) -> Result<Seq<Seq<Seq<char>>>, FormatErrorView> {
    match rest {
        Ok(table) => Ok(done + table),
        Err(e) => Err(e),
    }
}

/// Each of `rows` projected onto `columns`, or the first row that lacks one
/// of them, with the first column that it lacks.
pub open spec fn project(rows: Seq<RowView>, columns: Seq<Seq<char>>) -> Result<
    Seq<Seq<Seq<char>>>,
    FormatErrorView,
>
    decreases rows.len(),
{
    if rows.len() == 0 {
        Ok(Seq::empty())
    } else {
        match missing_column(rows[0], columns) {
            Some(column) => Err(FormatErrorView::MissingField { column, row: rows[0] }),
            None => after(seq![project_row(rows[0], columns)], project(rows.drop_first(), columns)),
        }
    }
}

/// What a projection returned, as contracts see it.
pub open spec fn projection_view(r: Result<Vec<Vec<Arc<String>>>, FormatError>) -> Result<
    Seq<Seq<Seq<char>>>,
    FormatErrorView,
> {
    match r {
        Ok(table) => Ok(table_view(table@)),
        Err(e) => Err(e@),
    }
}

/// The values of one row for `column`, or the first column that it lacks.
fn project_one(row: &FlatRow, column: &Vec<&'static str>) -> (r: Result<Vec<Arc<String>>, String>)
    ensures
        match r {
            Ok(values) => missing_column(row@, columns_view(column@)) is None && values_view(
                values@,
            ) == project_row(row@, columns_view(column@)),
            Err(name) => missing_column(row@, columns_view(column@)) == Some(name@),
        },
{
    let ghost columns = columns_view(column@);
    let mut values: Vec<Arc<String>> = Vec::new();
    let mut j: usize = 0;
    assert(columns.skip(0) =~= columns);
    while j < column.len()
        invariant
            j <= column@.len(),
            columns == columns_view(column@),
            values@.len() == j,
            missing_column(row@, columns) == missing_column(row@, columns.skip(j as int)),
            forall|k: int| 0 <= k < j ==> (#[trigger] values@[k])@ == row@[columns[k]],
        decreases column@.len() - j,
    {
        let ghost rest = columns.skip(j as int);
        assert(rest[0] == column@[j as int]@);
        assert(rest.drop_first() =~= columns.skip(j + 1));
        match row.get(column[j]) {
            Some(value) => {
                values.push(share(value));
            },
            None => {
                return Err(column[j].to_owned());
            },
        }
        j += 1;
    }
    assert(values_view(values@) =~= project_row(row@, columns));
    Ok(values)
}

/// Projects each row onto the columns, in the order of the columns. The whole
/// projection fails on the first row that lacks a column.
pub fn project_rows(rows: &Vec<FlatRow>, column: &Vec<&'static str>) -> (r: Result<
    Vec<Vec<Arc<String>>>,
    FormatError,
>)
    ensures
        projection_view(r) == project(rows_view(rows@), columns_view(column@)),
{
    let ghost all = rows_view(rows@);
    let ghost columns = columns_view(column@);
    let mut table: Vec<Vec<Arc<String>>> = Vec::new();
    let mut i: usize = 0;
    proof {
        assert(all.skip(0) =~= all);
        let whole = project(all, columns);
        if whole is Ok {
            assert(Seq::<Seq<Seq<char>>>::empty() + whole->Ok_0 =~= whole->Ok_0);
        }
        assert(table_view(table@) =~= Seq::empty());
    }
    while i < rows.len()
        invariant
            i <= rows@.len(),
            all == rows_view(rows@),
            columns == columns_view(column@),
            project(all, columns) == after(table_view(table@), project(all.skip(i as int), columns)),
        decreases rows@.len() - i,
    {
        let ghost rest = all.skip(i as int);
        let ghost done = table_view(table@);
        assert(rest[0] == rows@[i as int]@);
        assert(rest.drop_first() =~= all.skip(i + 1));
        match project_one(&rows[i], column) {
            Ok(values) => {
                table.push(values);
                proof {
                    let line = project_row(rest[0], columns);
                    assert(table_view(table@) =~= done.push(line));
                    let tail = project(rest.drop_first(), columns);
                    if tail is Ok {
                        assert(done + (seq![line] + tail->Ok_0) =~= done.push(line) + tail->Ok_0);
                    }
                }
            },
            Err(name) => {
                return Err(FormatError::MissingField { column: name, row: rows[i].duplicate() });
            },
        }
        i += 1;
    }
    proof {
        assert(all.skip(all.len() as int) =~= Seq::empty());
        assert(table_view(table@) + Seq::<Seq<Seq<char>>>::empty() =~= table_view(table@));
    }
    Ok(table)
}

/// Flattens the artifacts and projects the rows onto the columns.
pub fn format(artifacts: Vec<Artifact>, column: Vec<&'static str>) -> (r: Result<
    Vec<Vec<Arc<String>>>,
    FormatError,
>)
    ensures
        projection_view(r) == project(
            flatten(artifacts_view(artifacts@)),
            columns_view(column@),
        ),
{
    let contents = format_map_list(artifacts);
    project_rows(&contents, &column)
}

/// A row that lacks a requested column makes the projection fail.
pub proof fn lemma_project_missing(
    rows: Seq<RowView>,
    columns: Seq<Seq<char>>,
    i: int,
    j: int,
)
    requires
        0 <= i < rows.len(),
        0 <= j < columns.len(),
        !rows[i].contains_key(columns[j]),
    ensures
        project(rows, columns) is Err,
    decreases rows.len(),
{
    if i == 0 {
        lemma_missing_column(rows[0], columns, j);
    } else if missing_column(rows[0], columns) is None {
        assert(rows.drop_first()[i - 1] == rows[i]);
        lemma_project_missing(rows.drop_first(), columns, i - 1, j);
    }
}

/// A row that lacks one of the columns has a first column that it lacks.
proof fn lemma_missing_column(row: RowView, columns: Seq<Seq<char>>, j: int)
    requires
        0 <= j < columns.len(),
        !row.contains_key(columns[j]),
    ensures
        missing_column(row, columns) is Some,
    decreases columns.len(),
{
    if j > 0 && row.contains_key(columns[0]) {
        assert(columns.drop_first()[j - 1] == columns[j]);
        lemma_missing_column(row, columns.drop_first(), j - 1);
    }
}

/// A row that has all of the columns lacks none.
proof fn lemma_no_missing_column(row: RowView, columns: Seq<Seq<char>>)
    requires
        forall|j: int| 0 <= j < columns.len() ==> row.contains_key(#[trigger] columns[j]),
    ensures
        missing_column(row, columns) is None,
    decreases columns.len(),
{
    if columns.len() > 0 {
        assert(row.contains_key(columns[0]));
        assert forall|j: int| 0 <= j < columns.drop_first().len() implies row.contains_key(
            #[trigger] columns.drop_first()[j],
        ) by {
            assert(columns.drop_first()[j] == columns[j + 1]);
        }
        lemma_no_missing_column(row, columns.drop_first());
    }
}

/// Where every row has every requested column, the projection succeeds with
/// one line for each row, in the order of the rows, and each line holds the
/// row's values in the order of the columns.
pub proof fn lemma_project_complete(rows: Seq<RowView>, columns: Seq<Seq<char>>)
    requires
        forall|i: int, j: int|
            0 <= i < rows.len() && 0 <= j < columns.len() ==> (#[trigger] rows[i]).contains_key(
                #[trigger] columns[j],
            ),
    ensures
        project(rows, columns) matches Ok(table) && table.len() == rows.len() && forall|
            i: int,
            j: int,
        |
            0 <= i < rows.len() && 0 <= j < columns.len() ==> (#[trigger] table[i]).len()
                == columns.len() && table[i][j] == rows[i][#[trigger] columns[j]],
    decreases rows.len(),
{
    if rows.len() > 0 {
        lemma_no_missing_column(rows[0], columns);
        let rest = rows.drop_first();
        assert forall|i: int, j: int|
            0 <= i < rest.len() && 0 <= j < columns.len() implies (#[trigger] rest[i]).contains_key(
            #[trigger] columns[j],
        ) by {
            assert(rest[i] == rows[i + 1]);
        }
        lemma_project_complete(rest, columns);
        let tail = project(rest, columns)->Ok_0;
        let table = project(rows, columns)->Ok_0;
        assert(table =~= seq![project_row(rows[0], columns)] + tail);
        assert forall|i: int, j: int|
            0 <= i < rows.len() && 0 <= j < columns.len() implies (#[trigger] table[i]).len()
            == columns.len() && table[i][j] == rows[i][#[trigger] columns[j]] by {
            if i > 0 {
                assert(table[i] == tail[i - 1]);
                assert(rest[i - 1] == rows[i]);
            }
        }
    }
}

/// Flattening depends on nothing but what the artifacts hold: lists of
/// artifacts with the same contents flatten to the same rows.
pub proof fn lemma_flatten_deterministic(a: Seq<Artifact>, b: Seq<Artifact>)
    requires
        artifacts_view(a) == artifacts_view(b),
    ensures
        flatten(artifacts_view(a)) == flatten(artifacts_view(b)),
{
}

} // verus!
