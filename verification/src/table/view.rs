//! Views of a table: rows that pass filters, sorted, in pages and groups.

use vstd::prelude::*;

use crate::assoc::{bind, get, lookup, put};
use crate::float::{double_at_most, double_below, double_less, double_nan, double_within};
use crate::graph::model::refs_view;
use crate::json::{compact, json_same, num_double, number_bits, text_of, Json, JsonValue};
use crate::seqs::{first_index, keep, lemma_keep_step};
use crate::sort::{arranged, consistent, in_order, sorted_from, stable_sort, Ranking};
use crate::table::model::{cell_in, is_named, value_at, ColumnId, Row, RowM, Table, TableM};
use crate::text::{
    before, begins, contains_str, holds, lemma_before_order, starts_str, str_before,
};

verus! {

broadcast use vstd::std_specs::vec::group_vec_axioms;

/// How a filter compares.
#[derive(Clone, Copy, Debug, PartialEq, Eq, Structural)]
pub enum FilterOp {
    Eq,
    Neq,
    Gt,
    Lt,
    Gte,
    Lte,
    Contains,
    StartsWith,
}

impl DeepView for FilterOp {
    type V = FilterOp;

    open spec fn deep_view(&self) -> FilterOp {
        *self
    }
}

/// A condition on the value of a column.
#[derive(Debug, PartialEq)]
pub struct Filter {
    pub column: ColumnId,
    pub op: FilterOp,
    pub value: JsonValue,
}

/// What a `Filter` holds.
#[verifier::ext_equal]
pub struct FilterM {
    pub column: Seq<char>,
    pub op: FilterOp,
    pub value: Json,
}

impl DeepView for Filter {
    type V = FilterM;

    open spec fn deep_view(&self) -> FilterM {
        FilterM {
            column: self.column.deep_view(),
            op: self.op,
            value: self.value.deep_view(),
        }
    }
}

impl Clone for Filter {
    fn clone(&self) -> (r: Self)
        ensures
            r.deep_view() == self.deep_view(),
    {
        Filter {
            column: self.column.clone(),
            op: self.op,
            value: self.value.clone(),
        }
    }
}

/// By which column a view sorts.
#[derive(Debug, PartialEq)]
pub struct SortConfig {
    pub column: ColumnId,
    pub ascending: bool,
}

/// What a `SortConfig` holds.
#[verifier::ext_equal]
pub struct SortConfigM {
    pub column: Seq<char>,
    pub ascending: bool,
}

impl DeepView for SortConfig {
    type V = SortConfigM;

    open spec fn deep_view(&self) -> SortConfigM {
        SortConfigM {
            column: self.column.deep_view(),
            ascending: self.ascending,
        }
    }
}

impl Clone for SortConfig {
    fn clone(&self) -> (r: Self)
        ensures
            r.deep_view() == self.deep_view(),
    {
        SortConfig {
            column: self.column.clone(),
            ascending: self.ascending,
        }
    }
}

/// A number as a double.
pub open spec fn as_double(j: Json) -> Option<u64> {
    match j {
        Json::Number(n) => Some(num_double(n)),
        _ => None,
    }
}

/// The text of a string value, else the empty text.
pub open spec fn text_or_empty(j: Json) -> Seq<char> {
    match text_of(Some(j)) {
        Some(s) => s,
        None => ""@,
    }
}

/// Whether a value compares to another as a filter asks.
pub open spec fn compares(v: Json, op: FilterOp, w: Json) -> bool {
    match op {
        FilterOp::Eq => json_same(v, w),
        FilterOp::Neq => !json_same(v, w),
        FilterOp::Contains => match text_of(Some(v)) {
            Some(s) => holds(s, text_or_empty(w)),
            None => false,
        },
        FilterOp::StartsWith => match text_of(Some(v)) {
            Some(s) => begins(s, text_or_empty(w)),
            None => false,
        },
        FilterOp::Gt => match (as_double(v), as_double(w)) {
            (Some(a), Some(b)) => double_below(b, a),
            _ => false,
        },
        FilterOp::Lt => match (as_double(v), as_double(w)) {
            (Some(a), Some(b)) => double_below(a, b),
            _ => false,
        },
        FilterOp::Gte => match (as_double(v), as_double(w)) {
            (Some(a), Some(b)) => double_within(b, a),
            _ => false,
        },
        FilterOp::Lte => match (as_double(v), as_double(w)) {
            (Some(a), Some(b)) => double_within(a, b),
            _ => false,
        },
    }
}

/// Whether a row passes a filter; a row without the column does not.
pub open spec fn passes(r: RowM, f: FilterM) -> bool {
    match cell_in(r, f.column) {
        Some(v) => compares(v, f.op, f.value),
        None => false,
    }
}

/// Whether a row passes all filters.
pub open spec fn passes_all(fs: Seq<FilterM>) -> spec_fn(RowM) -> bool {
    |r: RowM| forall|k: int| 0 <= k < fs.len() ==> passes(r, #[trigger] fs[k])
}

/// One value goes before another: texts in the order of texts, numbers by
/// size, and no other two.
pub open spec fn value_below(a: Option<Json>, b: Option<Json>) -> bool {
    match (text_of(a), text_of(b)) {
        (Some(s), Some(t)) => before(s, t),
        _ => match (a, b) {
            (Some(x), Some(y)) => match (as_double(x), as_double(y)) {
                (Some(m), Some(n)) => double_below(m, n),
                _ => false,
            },
            _ => false,
        },
    }
}

fn value_bits(v: &JsonValue) -> (r: Option<u64>)
    ensures
        r == as_double(v.deep_view()),
{
    match v {
        JsonValue::Number(n) => Some(number_bits(n)),
        _ => None,
    }
}

fn value_less(a: Option<&JsonValue>, b: Option<&JsonValue>) -> (r: bool)
    ensures
        ({
            let x: Option<Json> = match a {
                Some(v) => Some(v.deep_view()),
                None => None,
            };
            let y: Option<Json> = match b {
                Some(v) => Some(v.deep_view()),
                None => None,
            };
            r == value_below(x, y)
        }),
{
    match (a, b) {
        (Some(x), Some(y)) => match (x.as_str(), y.as_str()) {
            (Some(s), Some(t)) => str_before(s, t),
            _ => match (value_bits(x), value_bits(y)) {
                (Some(m), Some(n)) => double_less(m, n),
                _ => false,
            },
        },
        _ => false,
    }
}

/// Ranks rows of a table by their values in a column.
pub struct RowRank<'a, 'b> {
    pub table: &'a Table,
    pub column: &'b ColumnId,
    pub ascending: bool,
}

impl<'a, 'b> Ranking<&'a Row> for RowRank<'a, 'b> {
    open spec fn before(&self, a: &'a Row, b: &'a Row) -> bool {
        let t = self.table.deep_view();
        let c = self.column.deep_view();
        let x = value_at(t, a.deep_view().id, c);
        let y = value_at(t, b.deep_view().id, c);
        if self.ascending {
            value_below(x, y)
        } else {
            value_below(y, x)
        }
    }

    fn goes_before(&self, a: &&'a Row, b: &&'a Row) -> (r: bool) {
        let x = self.table.cell_value(&a.id, self.column);
        let y = self.table.cell_value(&b.id, self.column);
        if self.ascending {
            value_less(x, y)
        } else {
            value_less(y, x)
        }
    }
}

/// What of a table is shown, and in which order.
pub struct TableView<'a> {
    pub table: &'a Table,
    pub filters: Vec<Filter>,
    pub sort: Option<SortConfig>,
    pub hidden_columns: Vec<ColumnId>,
}

/// The rows of a view: those that pass all filters, sorted where the view
/// sorts.
pub open spec fn shown<'a>(v: TableView<'a>, r: Seq<&'a Row>) -> bool {
    exists|kept: Seq<&'a Row>| #[trigger] shown_from(v, kept, r)
}

pub open spec fn shown_from<'a>(v: TableView<'a>, kept: Seq<&'a Row>, r: Seq<&'a Row>) -> bool {
    &&& refs_view(kept) == keep(v.table.deep_view().rows, passes_all(v.filters.deep_view()))
    &&& match v.sort {
        None => r == kept,
        Some(s) => sorted_from(
            (RowRank { table: v.table, column: &s.column, ascending: s.ascending }),
            kept,
            r,
        ),
    }
}

/// The values of rows in a column, grouped by their notation: a group has the
/// first value with the notation, and counts the rows with it.
pub open spec fn groups_of(t: TableM, rows: Seq<RowM>, column: Seq<char>) -> Seq<
    (Seq<char>, (Json, usize)),
>
    decreases rows.len(),
{
    if rows.len() == 0 {
        seq![]
    } else {
        let gs = groups_of(t, rows.drop_last(), column);
        match value_at(t, rows.last().id, column) {
            None => gs,
            Some(v) => match lookup(gs, compact(v)) {
                Some((w, n)) => bind(gs, compact(v), (w, (n + 1) as usize)),
                None => bind(gs, compact(v), (v, 1)),
            },
        }
    }
}

/// The groups without their keys.
pub open spec fn group_list(gs: Seq<(Seq<char>, (Json, usize))>) -> Seq<(Json, usize)> {
    Seq::new(gs.len(), |i: int| gs[i].1)
}

/// No group counts more rows than there are.
proof fn lemma_group_bound(t: TableM, rows: Seq<RowM>, column: Seq<char>, k: Seq<char>)
    ensures
        lookup(groups_of(t, rows, column), k) matches Some(g) ==> g.1 <= rows.len(),
    decreases rows.len(),
{
    if rows.len() > 0 {
        let d = rows.drop_last();
        let gs = groups_of(t, d, column);
        lemma_group_bound(t, d, column, k);
        match value_at(t, rows.last().id, column) {
            None => {},
            Some(v) => {
                match lookup(gs, compact(v)) {
                    Some((w, n)) => {
                        crate::assoc::law_bind_lookup(gs, compact(v), (w, (n + 1) as usize), k);
                        lemma_group_bound(t, d, column, compact(v));
                    },
                    None => {
                        crate::assoc::law_bind_lookup(gs, compact(v), (v, 1usize), k);
                    },
                }
            },
        }
    } else {
        crate::assoc::lemma_slot(groups_of(t, rows, column), k);
    }
}

impl<'a> TableView<'a> {
    /// A view of all rows.
    pub fn new(table: &'a Table) -> (r: TableView<'a>)
        ensures
            r.table == table,
            r.filters@.len() == 0,
            r.sort is None,
            r.hidden_columns@.len() == 0,
    {
        TableView { table, filters: Vec::new(), sort: None, hidden_columns: Vec::new() }
    }

    /// The view with one more filter.
    pub fn filter(self, filter: Filter) -> (r: TableView<'a>)
        ensures
            r.table == self.table,
            r.filters@ == self.filters@.push(filter),
            r.sort == self.sort,
            r.hidden_columns == self.hidden_columns,
    {
        let mut v = self;
        v.filters.push(filter);
        v
    }

    /// The view sorted by the column with a name; a name that no column has
    /// changes nothing.
    pub fn sort_by(self, column: &str, ascending: bool) -> (r: TableView<'a>)
        ensures
            r.table == self.table,
            r.filters == self.filters,
            r.hidden_columns == self.hidden_columns,
            match first_index(self.table.deep_view().columns, is_named(column@)) {
                Some(i) => r.sort.deep_view() == Some(
                    SortConfigM { column: self.table.deep_view().columns[i].id, ascending },
                ),
                None => r.sort == self.sort,
            },
    {
        let mut v = self;
        if let Some(i) = v.table.find_named(column) {
            v.sort = Some(SortConfig { column: v.table.columns[i].id.clone(), ascending });
        }
        v
    }

    /// The view with a column hidden.
    pub fn hide_column(self, col_id: ColumnId) -> (r: TableView<'a>)
        ensures
            r.table == self.table,
            r.filters == self.filters,
            r.sort == self.sort,
            forall|x: Seq<char>|
                #[trigger] r.hidden_columns.deep_view().contains(x)
                    <==> self.hidden_columns.deep_view().contains(x) || x == col_id.deep_view(),
    {
        let mut v = self;
        let ghost before_push = v.hidden_columns.deep_view();
        let ghost id = col_id.deep_view();
        v.hidden_columns.push(col_id);
        proof {
            let now = v.hidden_columns.deep_view();
            assert(now =~= before_push.push(id));
            assert forall|x: Seq<char>| #[trigger] now.contains(x) <==> before_push.contains(x)
                || x == id by {
                assert(now[before_push.len() as int] == id);
                if before_push.contains(x) {
                    let k = choose|k: int| 0 <= k < before_push.len() && before_push[k] == x;
                    assert(now[k] == x);
                }
                if now.contains(x) {
                    let k = choose|k: int| 0 <= k < now.len() && now[k] == x;
                    if k < before_push.len() {
                        assert(before_push[k] == x);
                    }
                }
            }
        }
        v
    }

    /// Whether a row passes a filter.
    pub fn match_filter(row: &Row, filter: &Filter) -> (r: bool)
        ensures
            r == passes(row.deep_view(), filter.deep_view()),
    {
        match row.value(&filter.column) {
            None => false,
            Some(v) => match filter.op {
                FilterOp::Eq => v.same(&filter.value),
                FilterOp::Neq => !v.same(&filter.value),
                FilterOp::Contains => {
                    let w = match filter.value.as_str() {
                        Some(s) => s,
                        None => "",
                    };
                    match v.as_str() {
                        Some(s) => contains_str(s, w),
                        None => false,
                    }
                },
                FilterOp::StartsWith => {
                    let w = match filter.value.as_str() {
                        Some(s) => s,
                        None => "",
                    };
                    match v.as_str() {
                        Some(s) => starts_str(s, w),
                        None => false,
                    }
                },
                FilterOp::Gt => match (value_bits(v), value_bits(&filter.value)) {
                    (Some(a), Some(b)) => double_less(b, a),
                    _ => false,
                },
                FilterOp::Lt => match (value_bits(v), value_bits(&filter.value)) {
                    (Some(a), Some(b)) => double_less(a, b),
                    _ => false,
                },
                FilterOp::Gte => match (value_bits(v), value_bits(&filter.value)) {
                    (Some(a), Some(b)) => double_at_most(b, a),
                    _ => false,
                },
                FilterOp::Lte => match (value_bits(v), value_bits(&filter.value)) {
                    (Some(a), Some(b)) => double_at_most(a, b),
                    _ => false,
                },
            },
        }
    }

    /// The rows of the view.
    pub fn rows(&self) -> (r: Vec<&'a Row>)
        ensures
            shown(*self, r@),
    {
        let ghost all = self.table.deep_view().rows;
        let ghost fs = self.filters.deep_view();
        let ghost p = passes_all(fs);
        let mut kept: Vec<&'a Row> = Vec::new();
        let mut i: usize = 0;
        assert(refs_view(kept@) =~= keep(all.take(0), p));
        while i < self.table.rows.len()
            invariant
                i <= self.table.rows.len(),
                all == self.table.deep_view().rows,
                fs == self.filters.deep_view(),
                p == passes_all(fs),
                refs_view(kept@) == keep(all.take(i as int), p),
            decreases self.table.rows.len() - i,
        {
            proof {
                lemma_keep_step(all, p, i as int);
            }
            let ghost done = kept@;
            let row: &'a Row = &self.table.rows[i];
            assert(all[i as int] == row.deep_view());
            let mut ok = true;
            let mut k: usize = 0;
            while k < self.filters.len()
                invariant
                    k <= self.filters.len(),
                    fs == self.filters.deep_view(),
                    ok == forall|j: int| 0 <= j < k ==> passes(row.deep_view(), #[trigger] fs[j]),
                decreases self.filters.len() - k,
            {
                assert(fs[k as int] == self.filters@[k as int].deep_view());
                if !TableView::match_filter(row, &self.filters[k]) {
                    ok = false;
                }
                k = k + 1;
            }
            if ok {
                kept.push(row);
                assert(refs_view(kept@) =~= refs_view(done).push(all[i as int]));
            }
            i = i + 1;
        }
        assert(all.take(i as int) =~= all);
        match &self.sort {
            None => {
                assert(shown_from(*self, kept@, kept@));
                kept
            },
            Some(s) => {
                let ghost src = kept@;
                let rank = RowRank { table: self.table, column: &s.column, ascending: s.ascending };
                let out = stable_sort(&rank, kept);
                assert(shown_from(*self, src, out@));
                out
            },
        }
    }

    /// At most `limit` rows of the view, from place `offset` on.
    pub fn paginate(&self, offset: usize, limit: usize) -> (r: Vec<&'a Row>)
        ensures
            exists|all: Seq<&'a Row>| #[trigger] shown(*self, all) && r@ == page(all, offset, limit),
    {
        let all = self.rows();
        let mut r: Vec<&'a Row> = Vec::new();
        let mut i: usize = offset;
        while i < all.len() && r.len() < limit
            invariant
                offset <= i,
                r@.len() == i - offset,
                r@.len() <= limit,
                offset <= all@.len() ==> i <= all@.len() && r@ == all@.subrange(
                    offset as int,
                    i as int,
                ),
                offset > all@.len() ==> i == offset,
            decreases all.len() - i,
        {
            r.push(all[i]);
            assert(all@.subrange(offset as int, i + 1) =~= all@.subrange(
                offset as int,
                i as int,
            ).push(all@[i as int]));
            i = i + 1;
        }
        assert(r@ =~= page(all@, offset, limit));
        r
    }

    /// How many rows the view has.
    pub fn count(&self) -> (r: usize)
        ensures
            r == keep(
                self.table.deep_view().rows,
                passes_all(self.filters.deep_view()),
            ).len(),
    {
        let all = self.rows();
        proof {
            let kept = choose|kept: Seq<&'a Row>| #[trigger] shown_from(*self, kept, all@);
            assert(refs_view(kept).len() == kept.len());
        }
        all.len()
    }

    /// The values of the rows in a column, each with the number of rows that
    /// have it.
    pub fn group_counts(&self, col_id: &ColumnId) -> (r: Vec<(JsonValue, usize)>)
        ensures
            exists|all: Seq<&'a Row>| #[trigger]
                shown(*self, all) && r.deep_view() == group_list(
                    groups_of(self.table.deep_view(), refs_view(all), col_id.deep_view()),
                ),
    {
        let rows = self.rows();
        let ghost t = self.table.deep_view();
        let ghost all = refs_view(rows@);
        let ghost c = col_id.deep_view();
        let mut groups: Vec<(String, (JsonValue, usize))> = Vec::new();
        let mut i: usize = 0;
        assert(groups.deep_view() =~= groups_of(t, all.take(0), c));
        while i < rows.len()
            invariant
                i <= rows.len(),
                t == self.table.deep_view(),
                all == refs_view(rows@),
                c == col_id.deep_view(),
                groups.deep_view() == groups_of(t, all.take(i as int), c),
            decreases rows.len() - i,
        {
            assert(all.take(i + 1).drop_last() =~= all.take(i as int));
            assert(all.take(i + 1).last() == rows@[i as int].deep_view());
            if let Some(v) = self.table.cell_value(&rows[i].id, col_id) {
                let key = v.to_text();
                proof {
                    lemma_group_bound(t, all.take(i as int), c, key@);
                }
                let (w, n) = match get(&groups, key.as_str()) {
                    Some(g) => {
                        assert(g.deep_view() == (g.0.deep_view(), g.1));
                        (g.0.clone(), g.1 + 1)
                    },
                    None => (v.clone(), 1),
                };
                put(&mut groups, key.as_str(), (w, n));
            }
            i = i + 1;
        }
        assert(all.take(i as int) =~= all);
        let ghost gs = groups.deep_view();
        let mut r: Vec<(JsonValue, usize)> = Vec::new();
        let mut k: usize = 0;
        while k < groups.len()
            invariant
                k <= groups.len(),
                gs == groups.deep_view(),
                r@.len() == k,
                forall|j: int| 0 <= j < k ==> (#[trigger] r@[j]).deep_view() == gs[j].1,
            decreases groups.len() - k,
        {
            assert(gs[k as int].1 == groups@[k as int].1.deep_view());
            r.push((groups[k].1.0.clone(), groups[k].1.1));
            k = k + 1;
        }
        assert(r.deep_view() =~= group_list(gs));
        r
    }
}

/// At most `limit` items from place `offset` on.
pub open spec fn page<T>(s: Seq<T>, offset: usize, limit: usize) -> Seq<T> {
    if offset >= s.len() {
        seq![]
    } else if offset + limit >= s.len() {
        s.skip(offset as int)
    } else {
        s.subrange(offset as int, offset + limit)
    }
}

/// Two pages that follow each other make one longer page.
pub proof fn law_pages_join<T>(s: Seq<T>, offset: usize, a: usize, b: usize)
    requires
        offset + a <= usize::MAX,
        a + b <= usize::MAX,
    ensures
        page(s, offset, a) + page(s, (offset + a) as usize, b) == page(s, offset, (a + b) as usize),
{
    assert(page(s, offset, a) + page(s, (offset + a) as usize, b) =~= page(
        s,
        offset,
        (a + b) as usize,
    ));
}

/// Every row has a text in the column.
pub open spec fn all_texts(t: TableM, rows: Seq<RowM>, column: Seq<char>) -> bool {
    forall|i: int|
        0 <= i < rows.len() ==> text_of(value_at(t, (#[trigger] rows[i]).id, column)) is Some
}

/// Every row has a defined number in the column.
pub open spec fn all_numbers(t: TableM, rows: Seq<RowM>, column: Seq<char>) -> bool {
    forall|i: int|
        0 <= i < rows.len() ==> (value_at(t, (#[trigger] rows[i]).id, column) matches Some(v)
            && as_double(v) matches Some(d) && !double_nan(d))
}

/// Rows rank consistently by a column in which they all have texts, or all have
/// defined numbers.
pub proof fn law_rows_consistent<'a, 'b>(rank: RowRank<'a, 'b>, rows: Seq<&'a Row>)
    requires
        ({
            let t = rank.table.deep_view();
            let c = rank.column.deep_view();
            all_texts(t, refs_view(rows), c) || all_numbers(t, refs_view(rows), c)
        }),
    ensures
        consistent(rank, rows),
{
    let t = rank.table.deep_view();
    let c = rank.column.deep_view();
    let models = refs_view(rows);
    let text = |r: &'a Row| text_of(value_at(t, r.deep_view().id, c))->0;
    assert forall|i: int, j: int|
        #![trigger rows[i], rows[j]]
        0 <= i < rows.len() && 0 <= j < rows.len() && rank.before(
            rows[i],
            rows[j],
        ) implies !rank.before(rows[j], rows[i]) by {
        assert(models[i].id == rows[i].deep_view().id && models[j].id == rows[j].deep_view().id);
        lemma_before_order(text(rows[i]), text(rows[j]), seq![]);
        lemma_before_order(text(rows[j]), text(rows[i]), seq![]);
    }
    assert forall|i: int, j: int, k: int|
        #![trigger rows[i], rows[j], rows[k]]
        0 <= i < rows.len() && 0 <= j < rows.len() && 0 <= k < rows.len() && !rank.before(
            rows[i],
            rows[j],
        ) && !rank.before(rows[j], rows[k]) implies !rank.before(rows[i], rows[k]) by {
        assert(models[i].id == rows[i].deep_view().id);
        assert(models[j].id == rows[j].deep_view().id);
        assert(models[k].id == rows[k].deep_view().id);
        lemma_before_order(text(rows[i]), text(rows[j]), text(rows[k]));
        lemma_before_order(text(rows[k]), text(rows[j]), text(rows[i]));
    }
}

/// A view that sorts by a column in which its rows all have texts, or all have
/// defined numbers, shows them in the order of their values.
pub proof fn law_view_sorted<'a>(v: TableView<'a>, s: SortConfig, r: Seq<&'a Row>, i: int, j: int)
    requires
        shown(v, r),
        v.sort == Some(s),
        ({
            let t = v.table.deep_view();
            let rows = keep(t.rows, passes_all(v.filters.deep_view()));
            let c = s.column.deep_view();
            all_texts(t, rows, c) || all_numbers(t, rows, c)
        }),
        0 <= i < j < r.len(),
    ensures
        ({
            let t = v.table.deep_view();
            let x = value_at(t, r[i].deep_view().id, s.column.deep_view());
            let y = value_at(t, r[j].deep_view().id, s.column.deep_view());
            if s.ascending {
                !value_below(y, x)
            } else {
                !value_below(x, y)
            }
        }),
{
    let kept = choose|kept: Seq<&'a Row>| #[trigger] shown_from(v, kept, r);
    let rank = RowRank { table: v.table, column: &s.column, ascending: s.ascending };
    law_rows_consistent(rank, kept);
    let perm = choose|perm: Seq<int>| #[trigger]
        arranged(kept, r, perm) && (consistent(rank, kept) ==> in_order(rank, r, perm));
    assert(in_order(rank, r, perm));
    assert(!rank.before(r[j], r[i]));
}

} // verus!
