//! What tables and their views hold and show.

use vstd::prelude::*;

use crate::assoc::{bind, has_key, keys_differ, law_bind_keys, law_bind_lookup, lookup, slot};
use crate::float::{double_below, double_within};
use crate::graph::model::refs_view;
use crate::json::{compact, json_same, text_of, Json, JsonValue};
use crate::llm::unit::TextUnitM;
use crate::seqs::{
    first_index, keep, law_keep_filters, lemma_first_index, lemma_first_index_is, lemma_keep_contains,
};
use crate::table::fill::{fill_answered, fill_question};
use crate::table::model::{
    cell_in, cell_texts, is_cell, is_filled, is_other_cell, is_other_column, is_other_row, is_row,
    law_set_then_read, row_at, row_of, row_unit, table_error_text, value_at, with_cell, without_cell,
    without_column, Cell, CellM, Column, ColumnId, ColumnM, ColumnType, Row, RowId, RowM, Table,
    TableError, TableErrorM, TableM, TableStore,
};
use crate::table::view::{
    as_double, compares, group_list, groups_of, page, passes, passes_all, shown, shown_from,
    value_below, Filter, FilterM, FilterOp, TableView,
};
use crate::text::{before, joined, trim};
use crate::text_law::{law_ends, law_holds};

verus! {

// ---- Cells -----------------------------------------------------------------

/// The value in a column of a row is that of its first cell for the column.
pub proof fn law_cell(a: Seq<CellM>, column: Seq<char>, value: Json, b: Seq<CellM>, id: Seq<char>)
    requires
        forall|i: int| 0 <= i < a.len() ==> (#[trigger] a[i]).column != column,
    ensures
        cell_in(RowM { id, cells: a + seq![CellM { column, value }] + b }, column) == Some(value),
        cell_in(RowM { id, cells: a }, column) is None,
{
    let cells = a + seq![CellM { column, value }] + b;
    assert forall|i: int| 0 <= i < a.len() implies !is_cell(column)(#[trigger] cells[i]) by {
        assert(cells[i] == a[i]);
    }
    lemma_first_index_is(cells, is_cell(column), a.len() as int);
    lemma_first_index(a, is_cell(column));
}

/// Setting a cell of a row leaves its identity and its other cells at their
/// places; a new cell comes behind all.
pub proof fn law_cell_set(r: RowM, column: Seq<char>, value: Json)
    ensures
        ({
            let w = with_cell(r, column, value);
            &&& w.id == r.id
            &&& cell_in(r, column) is None ==> w.cells == r.cells.push(CellM { column, value })
            &&& cell_in(r, column) is Some ==> w.cells.len() == r.cells.len()
            &&& forall|i: int|
                0 <= i < r.cells.len() && r.cells[i].column != column ==> #[trigger] w.cells[i]
                    == r.cells[i]
            &&& forall|i: int|
                0 <= i < r.cells.len() ==> (#[trigger] w.cells[i]).column == r.cells[i].column
        }),
{
    lemma_first_index(r.cells, is_cell(column));
}

/// A table without a column: the other columns keep their order, every row its
/// other cells, and the values in the other columns stay as they are.
pub proof fn law_column_removed(t: TableM, column: Seq<char>, row: Seq<char>, other: Seq<char>)
    requires
        other != column,
    ensures
        ({
            let u = without_column(t, column);
            &&& u.id == t.id && u.name == t.name
            &&& u.columns == t.columns.filter(|c: ColumnM| c.id != column)
            &&& u.rows.len() == t.rows.len()
            &&& forall|i: int|
                0 <= i < t.rows.len() ==> (#[trigger] u.rows[i]).id == t.rows[i].id && u.rows[i].cells
                    == t.rows[i].cells.filter(|c: CellM| c.column != column)
            &&& value_at(u, row, other) == value_at(t, row, other)
        }),
{
    let u = without_column(t, column);
    law_keep_filters(t.columns, is_other_column(column));
    assert(is_other_column(column) =~= (|c: ColumnM| c.id != column));
    let f = |c: CellM| c.column != column;
    assert(is_other_cell(column) =~= f);
    assert forall|i: int| 0 <= i < t.rows.len() implies (#[trigger] u.rows[i]).id == t.rows[i].id
        && u.rows[i].cells == t.rows[i].cells.filter(f) by {
        law_keep_filters(t.rows[i].cells, is_other_cell(column));
    }
    lemma_first_index(t.rows, is_row(row));
    lemma_first_index(u.rows, is_row(row));
    match row_at(t, row) {
        Some(i) => {
            assert forall|j: int| 0 <= j < i implies !is_row(row)(#[trigger] u.rows[j]) by {
                assert(!is_row(row)(t.rows[j]));
            }
            lemma_first_index_is(u.rows, is_row(row), i);
            lemma_cell_kept(t.rows[i], column, other);
        },
        None => {
            if let Some(i) = row_at(u, row) {
                assert(!is_row(row)(t.rows[i]));
            }
        },
    }
}

proof fn lemma_cell_kept(r: RowM, column: Seq<char>, other: Seq<char>)
    requires
        other != column,
    ensures
        cell_in(without_cell(r, column), other) == cell_in(r, other),
    decreases r.cells.len(),
{
    if r.cells.len() > 0 {
        let front = RowM { cells: r.cells.drop_last(), ..r };
        let last = r.cells.last();
        let left = keep(front.cells, is_other_cell(column));
        lemma_cell_kept(front, column, other);
        lemma_first_index(left, is_cell(other));
        lemma_first_index(front.cells, is_cell(other));
        if is_other_cell(column)(last) {
            assert(left.push(last).drop_last() =~= left);
            lemma_first_index(left.push(last), is_cell(other));
        }
    }
}

/// Deleting a row leaves the others in their order.
pub proof fn law_rows_left(rows: Seq<RowM>, id: Seq<char>)
    ensures
        keep(rows, is_other_row(id)) == rows.filter(|r: RowM| r.id != id),
{
    law_keep_filters(rows, is_other_row(id));
    assert(is_other_row(id) =~= (|r: RowM| r.id != id));
}

/// A row as a unit of retrieval: its identity, its values in the order of its
/// cells with a bar between two, and the path of table and row.
pub proof fn law_row_unit(t: TableM, r: RowM)
    ensures
        row_unit(t, r).id == r.id,
        row_unit(t, r).path == seq![t.id, r.id],
        row_unit(t, r).text == joined(r.cells.map_values(|c: CellM| compact(c.value)), " | "@),
{
    assert(cell_texts(r.cells) =~= r.cells.map_values(|c: CellM| compact(c.value)));
}

// ---- Filters ---------------------------------------------------------------

/// A row passes a filter only if it has a value in the column, and a row passes
/// several exactly if it passes each.
pub proof fn law_passes(r: RowM, f: FilterM, fs: Seq<FilterM>)
    ensures
        passes(r, f) ==> cell_in(r, f.column) is Some,
        cell_in(r, f.column) matches Some(v) ==> (passes(r, f) <==> compares(v, f.op, f.value)),
        passes_all(fs.push(f))(r) <==> passes_all(fs)(r) && passes(r, f),
        passes_all(seq![])(r),
{
    let more = fs.push(f);
    if passes_all(more)(r) {
        assert forall|k: int| 0 <= k < fs.len() implies passes(r, #[trigger] fs[k]) by {
            assert(passes(r, more[k]));
        }
        assert(passes(r, more[fs.len() as int]));
    }
    if passes_all(fs)(r) && passes(r, f) {
        assert forall|k: int| 0 <= k < more.len() implies passes(r, #[trigger] more[k]) by {
            if k < fs.len() {
                assert(passes(r, fs[k]));
            }
        }
    }
}

/// Equal and unequal are opposites; texts are compared by what they hold and begin
/// with; numbers by their order, where greater turns round less, and each of the
/// two that allow equality is the opposite of the other strict one for numbers.
pub proof fn law_compares(v: Json, w: Json, s: Seq<char>, t: Seq<char>)
    ensures
        compares(v, FilterOp::Eq, w) <==> json_same(v, w),
        compares(v, FilterOp::Neq, w) <==> !compares(v, FilterOp::Eq, w),
        compares(Json::Str(s), FilterOp::Contains, Json::Str(t)) <==> exists|
            a: Seq<char>,
            b: Seq<char>,
        |
            s == #[trigger] (a + t + b),
        compares(Json::Str(s), FilterOp::StartsWith, Json::Str(t)) <==> t.is_prefix_of(s),
        !(v is Str) ==> !compares(v, FilterOp::Contains, w) && !compares(v, FilterOp::StartsWith, w),
        compares(v, FilterOp::Gt, w) <==> compares(w, FilterOp::Lt, v),
        compares(v, FilterOp::Gte, w) <==> compares(w, FilterOp::Lte, v),
        !(v is Number) || !(w is Number) ==> !compares(v, FilterOp::Lt, w) && !compares(
            v,
            FilterOp::Lte,
            w,
        ) && !compares(v, FilterOp::Gt, w) && !compares(v, FilterOp::Gte, w),
        as_double(v) matches Some(a) ==> (as_double(w) matches Some(b) ==> (compares(
            v,
            FilterOp::Lt,
            w,
        ) <==> double_below(a, b)) && (compares(v, FilterOp::Lte, w) <==> double_within(a, b))),
{
    law_holds(s, t);
    law_ends(s, t);
}

// ---- Views -----------------------------------------------------------------

/// The rows of a view are the rows of the table that pass all its filters, each
/// once; without a sort in the order of the table.
pub proof fn law_view_rows<'a>(v: TableView<'a>, r: Seq<&'a Row>)
    requires
        shown(v, r),
    ensures
        ({
            let all = v.table.deep_view().rows.filter(passes_all(v.filters.deep_view()));
            &&& r.len() == all.len()
            &&& v.sort is None ==> refs_view(r) == all
            &&& exists|places: Seq<int>| #[trigger]
                crate::sort::arranged(all, refs_view(r), places)
        }),
{
    let kept = choose|kept: Seq<&'a Row>| #[trigger] shown_from(v, kept, r);
    let p = passes_all(v.filters.deep_view());
    law_keep_filters(v.table.deep_view().rows, p);
    let all = v.table.deep_view().rows.filter(p);
    match v.sort {
        None => {
            let places = Seq::new(all.len(), |i: int| i);
            assert(crate::sort::arranged(all, refs_view(r), places));
        },
        Some(s) => {
            let rank = crate::table::view::RowRank {
                table: v.table,
                column: &s.column,
                ascending: s.ascending,
            };
            let places = choose|perm: Seq<int>| #[trigger]
                crate::sort::arranged(kept, r, perm) && (crate::sort::consistent(rank, kept)
                    ==> crate::sort::in_order(rank, r, perm));
            assert forall|i: int| #![trigger places[i]]
                0 <= i < places.len() implies 0 <= places[i] < all.len() && refs_view(r)[i]
                == all[places[i]] by {
                assert(refs_view(kept)[places[i]] == kept[places[i]].deep_view());
            }
            assert(crate::sort::arranged(all, refs_view(r), places));
        },
    }
}

/// The order that values are sorted by: texts by the order of texts, numbers by
/// that of numbers, and anything else stands nowhere.
pub proof fn law_value_below(s: Seq<char>, t: Seq<char>, x: Json, y: Json)
    ensures
        value_below(Some(Json::Str(s)), Some(Json::Str(t))) <==> before(s, t),
        as_double(x) matches Some(a) ==> (as_double(y) matches Some(b) ==> (value_below(
            Some(x),
            Some(y),
        ) <==> double_below(a, b))),
        !value_below(None, Some(x)),
        !value_below(Some(x), None),
        x is Str && y is Number ==> !value_below(Some(x), Some(y)) && !value_below(Some(y), Some(x)),
{
}

/// A page of a list is what stands from its beginning on, as much as is asked for
/// or there is.
pub proof fn law_page<T>(s: Seq<T>, offset: usize, limit: usize, i: int)
    ensures
        page(s, offset, limit).len() == if offset >= s.len() {
            0
        } else if offset + limit <= s.len() {
            limit as int
        } else {
            s.len() - offset
        },
        0 <= i < page(s, offset, limit).len() ==> page(s, offset, limit)[i] == s[offset + i],
{
}

/// Whether a row has a value whose text is the given one.
pub open spec fn in_group(t: TableM, column: Seq<char>, key: Seq<char>) -> spec_fn(RowM) -> bool {
    |r: RowM| value_at(t, r.id, column) matches Some(v) && compact(v) == key
}

/// Groups: there is one for every text of a value in the column and for no other,
/// and it counts the rows with that value.
pub proof fn law_groups(t: TableM, rows: Seq<RowM>, column: Seq<char>, key: Seq<char>)
    requires
        rows.len() <= usize::MAX,
    ensures
        keys_differ(groups_of(t, rows, column)),
        match lookup(groups_of(t, rows, column), key) {
            Some((v, n)) => n == rows.filter(in_group(t, column, key)).len() && n > 0 && compact(v)
                == key,
            None => rows.filter(in_group(t, column, key)).len() == 0,
        },
    decreases rows.len(),
{
    reveal(Seq::filter);
    let p = in_group(t, column, key);
    if rows.len() > 0 {
        let front = rows.drop_last();
        let gs = groups_of(t, front, column);
        law_groups(t, front, column, key);
        match value_at(t, rows.last().id, column) {
            None => {},
            Some(v) => {
                let k = compact(v);
                law_groups(t, front, column, k);
                front.lemma_filter_len(in_group(t, column, k));
                match lookup(gs, k) {
                    Some((w, n)) => {
                        law_bind_lookup(gs, k, (w, (n + 1) as usize), key);
                        law_bind_keys(gs, k, (w, (n + 1) as usize));
                    },
                    None => {
                        law_bind_lookup(gs, k, (v, 1), key);
                        law_bind_keys(gs, k, (v, 1));
                    },
                }
            },
        }
    }
}

/// The groups come out as they were collected, each with its value and its count.
pub proof fn law_group_list(gs: Seq<(Seq<char>, (Json, usize))>)
    ensures
        group_list(gs) == gs.map_values(|e: (Seq<char>, (Json, usize))| e.1),
{
    assert(group_list(gs) =~= gs.map_values(|e: (Seq<char>, (Json, usize))| e.1));
}

// ---- Filling ---------------------------------------------------------------

/// What a model answers for a cell is what is read in it, but for the white space
/// around; every other value stays, and an empty answer changes nothing.
pub proof fn law_filled(
    t: TableM,
    row: Seq<char>,
    col: ColumnM,
    answer: Seq<char>,
    other_row: Seq<char>,
    other_col: Seq<char>,
)
    ensures
        answer.len() == 0 ==> fill_answered(t, row, col, answer) == t,
        answer.len() > 0 && row_of(t, row) is Some ==> value_at(
            fill_answered(t, row, col, answer),
            row,
            col.id,
        ) == Some(Json::Str(trim(answer))),
        other_row != row || other_col != col.id ==> value_at(
            fill_answered(t, row, col, answer),
            other_row,
            other_col,
        ) == value_at(t, other_row, other_col),
        fill_answered(t, row, col, answer).columns == t.columns,
        fill_answered(t, row, col, answer).rows.len() == t.rows.len(),
{
    let u = fill_answered(t, row, col, answer);
    lemma_first_index(t.rows, is_row(row));
    lemma_first_index(t.rows, is_row(other_row));
    if answer.len() > 0 {
        if let Some(i) = row_at(t, row) {
            law_set_then_read(t.rows[i], col.id, Json::Str(trim(answer)), other_col);
            lemma_row_same(t, u, row);
            lemma_row_same(t, u, other_row);
        }
    }
}

proof fn lemma_row_same(t: TableM, u: TableM, id: Seq<char>)
    requires
        u.rows.len() == t.rows.len(),
        forall|i: int| 0 <= i < t.rows.len() ==> (#[trigger] u.rows[i]).id == t.rows[i].id,
    ensures
        row_at(u, id) == row_at(t, id),
{
    lemma_first_index(t.rows, is_row(id));
    lemma_first_index(u.rows, is_row(id));
    match row_at(t, id) {
        Some(i) => {
            assert forall|j: int| 0 <= j < i implies !is_row(id)(#[trigger] u.rows[j]) by {
                assert(!is_row(id)(t.rows[j]));
            }
            lemma_first_index_is(u.rows, is_row(id), i);
        },
        None => {
            if let Some(i) = row_at(u, id) {
                assert(!is_row(id)(t.rows[i]));
            }
        },
    }
}

/// A model is asked about a row with the row as a unit and the name of the column
/// in brackets; about a row that is not there it is not asked. It fills the columns
/// that are meant for it, in their order.
pub proof fn law_fill_question(t: TableM, row: Seq<char>, col: ColumnM)
    ensures
        fill_question(t, row, col) is Ok <==> row_of(t, row) is Some,
        fill_question(t, row, col) matches Ok(q) ==> q.0 == row_unit(t, row_of(t, row)->0) && q.1
            == seq!['['] + col.name + seq![']', ':', ' '],
        fill_question(t, row, col) matches Err(e) ==> e is NotFound,
        keep(t.columns, is_filled()) == t.columns.filter(|c: ColumnM| c.ty == ColumnType::LlmFill),
{
    reveal_strlit("[");
    reveal_strlit("]: ");
    assert("["@ =~= seq!['[']);
    assert("]: "@ =~= seq![']', ':', ' ']);
    law_keep_filters(t.columns, is_filled());
    assert(is_filled() =~= (|c: ColumnM| c.ty == ColumnType::LlmFill));
}

/// The message of an error ends with what it is about, and errors of different
/// kinds about the same thing read differently.
pub proof fn law_error_text(s: Seq<char>)
    ensures
        table_error_text(TableErrorM::NotFound(s)) == "not found: "@ + s,
        table_error_text(TableErrorM::DuplicateColumn(s)) == "duplicate column: "@ + s,
        table_error_text(TableErrorM::DuplicateRow(s)) == "duplicate row: "@ + s,
        table_error_text(TableErrorM::InvalidValue(s)) == "invalid value: "@ + s,
{
}

// ---- Calls -----------------------------------------------------------------

/// Adding a column is refused exactly if there is one with its name, and leaves
/// the table as it is; else the column comes behind the others, and nothing else
/// changes.
pub proof fn law_add_column(t: &mut Table, col: Column, r: Result<(), TableError>)
    requires
        call_ensures(Table::add_column, (t, col), r),
    ensures
        r is Err <==> exists|i: int|
            0 <= i < old(t).columns@.len() && (#[trigger] old(t).deep_view().columns[i]).name
                == col.name@,
        r is Err ==> *final(t) == *old(t),
        r matches Err(e) ==> e.deep_view() == TableErrorM::DuplicateColumn(col.name@),
        r is Ok ==> final(t).deep_view() == (TableM {
            columns: old(t).deep_view().columns.push(col.deep_view()),
            ..old(t).deep_view()
        }),
{
    let cs = old(t).deep_view().columns;
    lemma_first_index(cs, crate::table::model::is_named(col.name@));
    if let Some(i) = first_index(cs, crate::table::model::is_named(col.name@)) {
        assert(cs[i].name == col.name@);
    }
}

/// Removing a column tells whether there was one.
pub proof fn law_remove_column(t: &mut Table, id: &ColumnId, r: bool)
    requires
        call_ensures(Table::remove_column, (t, id), r),
    ensures
        r <==> exists|i: int|
            0 <= i < old(t).columns@.len() && (#[trigger] old(t).deep_view().columns[i]).id
                == id.deep_view(),
        final(t).deep_view().columns == old(t).deep_view().columns.filter(
            |c: ColumnM| c.id != id.deep_view(),
        ),
        final(t).rows@.len() == old(t).rows@.len(),
{
    let cs = old(t).deep_view().columns;
    lemma_first_index(cs, crate::table::model::is_column(id.deep_view()));
    if let Some(i) = first_index(cs, crate::table::model::is_column(id.deep_view())) {
        assert(cs[i].id == id.deep_view());
    }
    law_keep_filters(cs, is_other_column(id.deep_view()));
    assert(is_other_column(id.deep_view()) =~= (|c: ColumnM| c.id != id.deep_view()));
    assert(final(t).deep_view().rows.len() == old(t).deep_view().rows.len());
}

/// Inserting a row is refused exactly if there is one with its identity; else it
/// comes behind the others, and is the one that is found under it.
pub proof fn law_insert_row(t: &mut Table, row: Row, r: Result<(), TableError>)
    requires
        call_ensures(Table::insert_row, (t, row), r),
    ensures
        r is Err <==> row_of(old(t).deep_view(), row.deep_view().id) is Some,
        r is Err ==> *final(t) == *old(t),
        r matches Err(e) ==> e.deep_view() == TableErrorM::DuplicateRow(row.deep_view().id),
        r is Ok ==> final(t).deep_view() == (TableM {
            rows: old(t).deep_view().rows.push(row.deep_view()),
            ..old(t).deep_view()
        }),
        r is Ok ==> row_of(final(t).deep_view(), row.deep_view().id) == Some(row.deep_view()),
{
    let id = row.deep_view().id;
    let rows = old(t).deep_view().rows;
    lemma_first_index(rows, is_row(id));
    if r is Ok {
        let more = rows.push(row.deep_view());
        assert forall|j: int| 0 <= j < rows.len() implies !is_row(id)(#[trigger] more[j]) by {
            assert(!is_row(id)(rows[j]));
        }
        lemma_first_index_is(more, is_row(id), rows.len() as int);
    }
}

/// Updating a row is refused exactly if it is not there; else its cells are the
/// given ones, its identity stays, and so does every other row.
pub proof fn law_update_row(t: &mut Table, id: &RowId, cells: Vec<Cell>, r: Result<(), TableError>)
    requires
        call_ensures(Table::update_row, (t, id, cells), r),
    ensures
        r is Err <==> row_of(old(t).deep_view(), id.deep_view()) is None,
        r is Err ==> *final(t) == *old(t),
        r is Ok ==> row_of(final(t).deep_view(), id.deep_view()) == Some(
            RowM { id: id.deep_view(), cells: cells.deep_view() },
        ),
        r is Ok ==> forall|other: Seq<char>|
            other != id.deep_view() ==> #[trigger] row_of(final(t).deep_view(), other) == row_of(
                old(t).deep_view(),
                other,
            ),
        final(t).deep_view().columns == old(t).deep_view().columns,
{
    let a = old(t).deep_view();
    let b = final(t).deep_view();
    lemma_first_index(a.rows, is_row(id.deep_view()));
    if r is Ok {
        lemma_row_same(a, b, id.deep_view());
        assert forall|other: Seq<char>| other != id.deep_view() implies #[trigger] row_of(b, other)
            == row_of(a, other) by {
            lemma_row_same(a, b, other);
            lemma_first_index(a.rows, is_row(other));
        }
    }
}

/// Setting a cell is refused exactly if the row is not there; else the value is
/// read there, and every other value stays.
pub proof fn law_set_cell(
    t: &mut Table,
    row: &RowId,
    col: &ColumnId,
    value: JsonValue,
    r: Result<(), TableError>,
    other_row: Seq<char>,
    other_col: Seq<char>,
)
    requires
        call_ensures(Table::set_cell, (t, row, col, value), r),
    ensures
        r is Err <==> row_of(old(t).deep_view(), row.deep_view()) is None,
        r is Err ==> *final(t) == *old(t),
        r is Ok ==> value_at(final(t).deep_view(), row.deep_view(), col.deep_view()) == Some(
            value.deep_view(),
        ),
        other_row != row.deep_view() || other_col != col.deep_view() ==> value_at(
            final(t).deep_view(),
            other_row,
            other_col,
        ) == value_at(old(t).deep_view(), other_row, other_col),
{
    let a = old(t).deep_view();
    let b = final(t).deep_view();
    lemma_first_index(a.rows, is_row(row.deep_view()));
    lemma_first_index(a.rows, is_row(other_row));
    if let Some(i) = row_at(a, row.deep_view()) {
        law_set_then_read(a.rows[i], col.deep_view(), value.deep_view(), other_col);
        lemma_row_same(a, b, row.deep_view());
        lemma_row_same(a, b, other_row);
    }
}

/// Deleting a row tells whether there was one, and leaves the others in order.
pub proof fn law_delete_row(t: &mut Table, id: &RowId, r: bool)
    requires
        call_ensures(Table::delete_row, (t, id), r),
    ensures
        final(t).deep_view().rows == old(t).deep_view().rows.filter(
            |x: RowM| x.id != id.deep_view(),
        ),
        r <==> final(t).deep_view().rows.len() < old(t).deep_view().rows.len(),
        row_of(final(t).deep_view(), id.deep_view()) is None,
{
    let rows = old(t).deep_view().rows;
    law_rows_left(rows, id.deep_view());
    let left = keep(rows, is_other_row(id.deep_view()));
    lemma_keep_contains(rows, is_other_row(id.deep_view()));
    lemma_first_index(left, is_row(id.deep_view()));
    if let Some(i) = first_index(left, is_row(id.deep_view())) {
        assert(left.contains(left[i]));
    }
}

/// A table is stored under its identity, unless there is one already; what is
/// deleted is not found.
pub proof fn law_store_calls(
    s: &mut TableStore,
    table: Table,
    r: Result<(), TableError>,
    other: Seq<char>,
)
    requires
        call_ensures(TableStore::create, (s, table), r),
    ensures
        r is Err <==> lookup(old(s).deep_view().tables, table.id@) is Some,
        r is Err ==> *final(s) == *old(s),
        r is Ok ==> lookup(final(s).deep_view().tables, table.id@) == Some(table.deep_view()),
        other != table.id@ ==> lookup(final(s).deep_view().tables, other) == lookup(
            old(s).deep_view().tables,
            other,
        ),
{
    law_bind_lookup(old(s).deep_view().tables, table.id@, table.deep_view(), other);
}

/// A view is narrowed by one more filter, and keeps all else.
pub proof fn law_view_filtered<'a>(v: TableView<'a>, f: Filter, r: TableView<'a>)
    requires
        call_ensures(TableView::filter, (v, f), r),
    ensures
        r.table == v.table,
        r.sort == v.sort,
        r.hidden_columns == v.hidden_columns,
        v.filters@.is_prefix_of(r.filters@),
        r.filters@.len() == v.filters@.len() + 1,
        r.filters@.last() == f,
{
}

/// A view that is sorted by a name is sorted by the column of that name, in the
/// direction that is asked for; by a name that no column has it is not.
pub proof fn law_view_sorted_by<'a>(v: TableView<'a>, name: &str, up: bool, r: TableView<'a>, i: int)
    requires
        call_ensures(TableView::sort_by, (v, name, up), r),
        0 <= i < v.table.columns@.len(),
        v.table.deep_view().columns[i].name == name@,
        forall|j: int| 0 <= j < i ==> (#[trigger] v.table.deep_view().columns[j]).name != name@,
    ensures
        r.table == v.table,
        r.filters == v.filters,
        r.sort matches Some(s) && s.column.deep_view() == v.table.deep_view().columns[i].id
            && s.ascending == up,
{
    lemma_first_index_is(
        v.table.deep_view().columns,
        crate::table::model::is_named(name@),
        i,
    );
}

/// Hiding a column hides it, and shows or hides no other; what the view filters
/// and sorts by stays.
pub proof fn law_view_hides<'a>(v: TableView<'a>, id: ColumnId, r: TableView<'a>, other: Seq<char>)
    requires
        call_ensures(TableView::hide_column, (v, id), r),
    ensures
        r.table == v.table,
        r.filters == v.filters,
        r.sort == v.sort,
        r.hidden_columns.deep_view().contains(id.deep_view()),
        other != id.deep_view() ==> (r.hidden_columns.deep_view().contains(other)
            <==> v.hidden_columns.deep_view().contains(other)),
{
}

} // verus!
