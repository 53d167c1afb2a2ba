//! The table: columns, rows and cells.

use vstd::prelude::*;

use crate::assoc::{bind, find_slot, get, lookup, put, remove, slot, unbind};
use crate::graph::model::refs_view;
use crate::ids::{fresh_v4, uuid_text};
use crate::json::{compact, Json, JsonValue};
use crate::llm::unit::{TextUnit, TextUnitM};
use crate::seqs::{first_index, keep, lemma_first_index, lemma_first_index_is, lemma_keep_step};
use crate::text::{cat, join, joined};

verus! {

broadcast use vstd::std_specs::vec::group_vec_axioms;

/// The identity of a column.
#[derive(Debug, PartialEq, Eq, Hash)]
pub struct ColumnId(pub String);

impl DeepView for ColumnId {
    type V = Seq<char>;

    open spec fn deep_view(&self) -> Seq<char> {
        self.0@
    }
}

impl Clone for ColumnId {
    fn clone(&self) -> (r: Self)
        ensures
            r == *self,
    {
        ColumnId(self.0.clone())
    }
}

impl ColumnId {
    /// The identity of the column with a name.
    pub fn new(name: &str) -> (r: ColumnId)
        ensures
            r.deep_view() == "col-"@ + name@,
    {
        ColumnId(cat("col-", name))
    }

    pub fn same(&self, other: &ColumnId) -> (r: bool)
        ensures
            r == (self.deep_view() == other.deep_view()),
    {
        self.0 == other.0
    }
}

/// The identity of a row.
#[derive(Debug, PartialEq, Eq, Hash)]
pub struct RowId(pub String);

impl DeepView for RowId {
    type V = Seq<char>;

    open spec fn deep_view(&self) -> Seq<char> {
        self.0@
    }
}

impl Clone for RowId {
    fn clone(&self) -> (r: Self)
        ensures
            r == *self,
    {
        RowId(self.0.clone())
    }
}

impl RowId {
    pub fn new() -> (r: RowId)
        ensures
            uuid_text(r.deep_view(), '4'),
    {
        RowId(fresh_v4())
    }

    /// The identity with the given text.
    pub fn of(s: &str) -> (r: RowId)
        ensures
            r.deep_view() == s@,
    {
        RowId(s.to_owned())
    }

    pub fn same(&self, other: &RowId) -> (r: bool)
        ensures
            r == (self.deep_view() == other.deep_view()),
    {
        self.0 == other.0
    }
}

/// What a column holds.
#[derive(Clone, Copy, Debug, PartialEq, Eq, Structural)]
pub enum ColumnType {
    Text,
    Number,
    Checkbox,
    Url,
    Date,
    Select,
    MultiSelect,
    Relation,
    Rollup,
    Formula,
    LlmFill,
    CreatedAt,
    UpdatedAt,
    CreatedBy,
}

impl DeepView for ColumnType {
    type V = ColumnType;

    open spec fn deep_view(&self) -> ColumnType {
        *self
    }
}

/// A column.
#[derive(Debug, PartialEq)]
pub struct Column {
    pub id: ColumnId,
    pub name: String,
    pub ty: ColumnType,
}

/// What a `Column` holds.
#[verifier::ext_equal]
pub struct ColumnM {
    pub id: Seq<char>,
    pub name: Seq<char>,
    pub ty: ColumnType,
}

impl DeepView for Column {
    type V = ColumnM;

    open spec fn deep_view(&self) -> ColumnM {
        ColumnM {
            id: self.id.deep_view(),
            name: self.name.deep_view(),
            ty: self.ty,
        }
    }
}

impl Clone for Column {
    fn clone(&self) -> (r: Self)
        ensures
            r.deep_view() == self.deep_view(),
    {
        Column {
            id: self.id.clone(),
            name: self.name.clone(),
            ty: self.ty,
        }
    }
}

impl Column {
    pub fn new(name: &str, ty: ColumnType) -> (r: Column)
        ensures
            r.deep_view() == (ColumnM { id: "col-"@ + name@, name: name@, ty }),
    {
        Column { id: ColumnId::new(name), name: name.to_owned(), ty }
    }
}

/// A value in a column.
#[derive(Debug, PartialEq)]
pub struct Cell {
    pub column: ColumnId,
    pub value: JsonValue,
}

/// What a `Cell` holds.
#[verifier::ext_equal]
pub struct CellM {
    pub column: Seq<char>,
    pub value: Json,
}

impl DeepView for Cell {
    type V = CellM;

    open spec fn deep_view(&self) -> CellM {
        CellM {
            column: self.column.deep_view(),
            value: self.value.deep_view(),
        }
    }
}

impl Clone for Cell {
    fn clone(&self) -> (r: Self)
        ensures
            r.deep_view() == self.deep_view(),
    {
        Cell {
            column: self.column.clone(),
            value: self.value.clone(),
        }
    }
}

/// A row.
#[derive(Debug, PartialEq)]
pub struct Row {
    pub id: RowId,
    pub cells: Vec<Cell>,
}

/// What a `Row` holds.
#[verifier::ext_equal]
pub struct RowM {
    pub id: Seq<char>,
    pub cells: Seq<CellM>,
}

impl DeepView for Row {
    type V = RowM;

    open spec fn deep_view(&self) -> RowM {
        RowM {
            id: self.id.deep_view(),
            cells: self.cells.deep_view(),
        }
    }
}

impl Clone for Row {
    fn clone(&self) -> (r: Self)
        ensures
            r.deep_view() == self.deep_view(),
    {
        Row {
            id: self.id.clone(),
            cells: self.cells.clone(),
        }
    }
}

/// A table.
#[derive(Debug, PartialEq)]
pub struct Table {
    pub id: String,
    pub name: String,
    pub columns: Vec<Column>,
    pub rows: Vec<Row>,
}

/// What a `Table` holds.
#[verifier::ext_equal]
pub struct TableM {
    pub id: Seq<char>,
    pub name: Seq<char>,
    pub columns: Seq<ColumnM>,
    pub rows: Seq<RowM>,
}

impl DeepView for Table {
    type V = TableM;

    open spec fn deep_view(&self) -> TableM {
        TableM {
            id: self.id.deep_view(),
            name: self.name.deep_view(),
            columns: self.columns.deep_view(),
            rows: self.rows.deep_view(),
        }
    }
}

impl Clone for Table {
    fn clone(&self) -> (r: Self)
        ensures
            r.deep_view() == self.deep_view(),
    {
        Table {
            id: self.id.clone(),
            name: self.name.clone(),
            columns: self.columns.clone(),
            rows: self.rows.clone(),
        }
    }
}

/// Why an operation on a table was refused.
#[derive(Debug, PartialEq)]
pub enum TableError {
    NotFound(String),
    DuplicateColumn(String),
    DuplicateRow(String),
    InvalidValue(String),
}

/// What a `TableError` holds.
#[verifier::ext_equal]
pub enum TableErrorM {
    NotFound(Seq<char>),
    DuplicateColumn(Seq<char>),
    DuplicateRow(Seq<char>),
    InvalidValue(Seq<char>),
}

impl DeepView for TableError {
    type V = TableErrorM;

    open spec fn deep_view(&self) -> TableErrorM {
        match self {
            TableError::NotFound(x) => TableErrorM::NotFound(x.deep_view()),
            TableError::DuplicateColumn(x) => TableErrorM::DuplicateColumn(x.deep_view()),
            TableError::DuplicateRow(x) => TableErrorM::DuplicateRow(x.deep_view()),
            TableError::InvalidValue(x) => TableErrorM::InvalidValue(x.deep_view()),
        }
    }
}

impl Clone for TableError {
    fn clone(&self) -> (r: Self)
        ensures
            r.deep_view() == self.deep_view(),
    {
        match self {
            TableError::NotFound(x) => TableError::NotFound(x.clone()),
            TableError::DuplicateColumn(x) => TableError::DuplicateColumn(x.clone()),
            TableError::DuplicateRow(x) => TableError::DuplicateRow(x.clone()),
            TableError::InvalidValue(x) => TableError::InvalidValue(x.clone()),
        }
    }
}

/// The words of an error.
pub open spec fn table_error_text(e: TableErrorM) -> Seq<char> {
    match e {
        TableErrorM::NotFound(s) => "not found: "@ + s,
        TableErrorM::DuplicateColumn(s) => "duplicate column: "@ + s,
        TableErrorM::DuplicateRow(s) => "duplicate row: "@ + s,
        TableErrorM::InvalidValue(s) => "invalid value: "@ + s,
    }
}

impl TableError {
    /// The words of the error.
    pub fn message(&self) -> (r: String)
        ensures
            r@ == table_error_text(self.deep_view()),
    {
        match self {
            TableError::NotFound(s) => cat("not found: ", s.as_str()),
            TableError::DuplicateColumn(s) => cat("duplicate column: ", s.as_str()),
            TableError::DuplicateRow(s) => cat("duplicate row: ", s.as_str()),
            TableError::InvalidValue(s) => cat("invalid value: ", s.as_str()),
        }
    }
}

/// What a result of a table operation holds.
pub open spec fn table_outcome(r: Result<(), TableError>) -> Result<(), TableErrorM> {
    match r {
        Ok(_) => Ok(()),
        Err(e) => Err(e.deep_view()),
    }
}

// ---- Selecting -------------------------------------------------------------

pub open spec fn is_row(id: Seq<char>) -> spec_fn(RowM) -> bool {
    |r: RowM| r.id == id
}

pub open spec fn is_other_row(id: Seq<char>) -> spec_fn(RowM) -> bool {
    |r: RowM| r.id != id
}

pub open spec fn is_cell(column: Seq<char>) -> spec_fn(CellM) -> bool {
    |c: CellM| c.column == column
}

pub open spec fn is_other_cell(column: Seq<char>) -> spec_fn(CellM) -> bool {
    |c: CellM| c.column != column
}

pub open spec fn is_column(id: Seq<char>) -> spec_fn(ColumnM) -> bool {
    |c: ColumnM| c.id == id
}

pub open spec fn is_other_column(id: Seq<char>) -> spec_fn(ColumnM) -> bool {
    |c: ColumnM| c.id != id
}

pub open spec fn is_named(name: Seq<char>) -> spec_fn(ColumnM) -> bool {
    |c: ColumnM| c.name == name
}

pub open spec fn is_filled() -> spec_fn(ColumnM) -> bool {
    |c: ColumnM| c.ty == ColumnType::LlmFill
}

/// Where the first row with the identity stands.
pub open spec fn row_at(t: TableM, id: Seq<char>) -> Option<int> {
    first_index(t.rows, is_row(id))
}

/// The first row with the identity.
pub open spec fn row_of(t: TableM, id: Seq<char>) -> Option<RowM> {
    match row_at(t, id) {
        Some(i) => Some(t.rows[i]),
        None => None,
    }
}

/// The value in the first cell of a row for a column.
pub open spec fn cell_in(r: RowM, column: Seq<char>) -> Option<Json> {
    match first_index(r.cells, is_cell(column)) {
        Some(i) => Some(r.cells[i].value),
        None => None,
    }
}

/// The value of a row in a column.
pub open spec fn value_at(t: TableM, row: Seq<char>, column: Seq<char>) -> Option<Json> {
    match row_of(t, row) {
        Some(r) => cell_in(r, column),
        None => None,
    }
}

/// The row with a value set in a column.
pub open spec fn with_cell(r: RowM, column: Seq<char>, value: Json) -> RowM {
    RowM {
        cells: match first_index(r.cells, is_cell(column)) {
            Some(i) => r.cells.update(i, CellM { value, ..r.cells[i] }),
            None => r.cells.push(CellM { column, value }),
        },
        ..r
    }
}

/// The row without its cells in a column.
pub open spec fn without_cell(r: RowM, column: Seq<char>) -> RowM {
    RowM { cells: keep(r.cells, is_other_cell(column)), ..r }
}

/// The table without a column, in its rows too.
pub open spec fn without_column(t: TableM, column: Seq<char>) -> TableM {
    TableM {
        columns: keep(t.columns, is_other_column(column)),
        rows: Seq::new(t.rows.len(), |i: int| without_cell(t.rows[i], column)),
        ..t
    }
}

/// The compact notations of the values in cells.
pub open spec fn cell_texts(cells: Seq<CellM>) -> Seq<Seq<char>> {
    Seq::new(cells.len(), |i: int| compact(cells[i].value))
}

/// Where the first cell for a column stands.
fn find_cell(cells: &Vec<Cell>, column: &ColumnId) -> (r: Option<usize>)
    ensures
        match r {
            Some(i) => i < cells@.len() && first_index(
                cells.deep_view(),
                is_cell(column.deep_view()),
            ) == Some(i as int),
            None => first_index(cells.deep_view(), is_cell(column.deep_view())) is None,
        },
{
    let ghost all = cells.deep_view();
    let ghost p = is_cell(column.deep_view());
    let mut i: usize = 0;
    while i < cells.len()
        invariant
            i <= cells.len(),
            all == cells.deep_view(),
            p == is_cell(column.deep_view()),
            forall|j: int| 0 <= j < i ==> !p(#[trigger] all[j]),
        decreases cells.len() - i,
    {
        assert(all[i as int] == cells@[i as int].deep_view());
        if cells[i].column.same(column) {
            proof {
                lemma_first_index_is(all, p, i as int);
            }
            return Some(i);
        }
        i = i + 1;
    }
    proof {
        lemma_first_index(all, p);
    }
    None
}

impl Row {
    /// The value in the first cell for a column.
    pub fn value(&self, column: &ColumnId) -> (r: Option<&JsonValue>)
        ensures
            match r {
                Some(v) => cell_in(self.deep_view(), column.deep_view()) == Some(v.deep_view()),
                None => cell_in(self.deep_view(), column.deep_view()) is None,
            },
    {
        match find_cell(&self.cells, column) {
            Some(i) => Some(&self.cells[i].value),
            None => None,
        }
    }

    fn drop_cells(&mut self, column: &ColumnId)
        ensures
            final(self).deep_view() == without_cell(old(self).deep_view(), column.deep_view()),
    {
        let ghost all = self.cells.deep_view();
        let ghost p = is_other_cell(column.deep_view());
        let mut left: Vec<Cell> = Vec::new();
        let mut i: usize = 0;
        assert(left.deep_view() =~= keep(all.take(0), p));
        while i < self.cells.len()
            invariant
                i <= self.cells.len(),
                all == self.cells.deep_view(),
                p == is_other_cell(column.deep_view()),
                left.deep_view() == keep(all.take(i as int), p),
            decreases self.cells.len() - i,
        {
            proof {
                lemma_keep_step(all, p, i as int);
            }
            let ghost done = left.deep_view();
            assert(all[i as int] == self.cells@[i as int].deep_view());
            if !self.cells[i].column.same(column) {
                left.push(self.cells[i].clone());
                assert(left.deep_view() =~= done.push(all[i as int]));
            }
            i = i + 1;
        }
        assert(all.take(i as int) =~= all);
        self.cells = left;
    }
}

impl Table {
    pub fn new(id: &str, name: &str) -> (r: Table)
        ensures
            r.deep_view() == (TableM { id: id@, name: name@, columns: seq![], rows: seq![] }),
    {
        let r = Table {
            id: id.to_owned(),
            name: name.to_owned(),
            columns: Vec::new(),
            rows: Vec::new(),
        };
        assert(r.deep_view().columns =~= seq![]);
        assert(r.deep_view().rows =~= seq![]);
        r
    }

    /// Where the first column with the name stands.
    pub(crate) fn find_named(&self, name: &str) -> (r: Option<usize>)
        ensures
            match r {
                Some(i) => i < self.columns@.len() && first_index(
                    self.deep_view().columns,
                    is_named(name@),
                ) == Some(i as int),
                None => first_index(self.deep_view().columns, is_named(name@)) is None,
            },
    {
        let ghost all = self.columns.deep_view();
        let ghost p = is_named(name@);
        let mut i: usize = 0;
        while i < self.columns.len()
            invariant
                i <= self.columns.len(),
                all == self.columns.deep_view(),
                p == is_named(name@),
                forall|j: int| 0 <= j < i ==> !p(#[trigger] all[j]),
            decreases self.columns.len() - i,
        {
            assert(all[i as int] == self.columns@[i as int].deep_view());
            if crate::text::same(self.columns[i].name.as_str(), name) {
                proof {
                    lemma_first_index_is(all, p, i as int);
                }
                return Some(i);
            }
            i = i + 1;
        }
        proof {
            lemma_first_index(all, p);
        }
        None
    }

    fn position(&self, id: &RowId) -> (r: Option<usize>)
        ensures
            match r {
                Some(i) => i < self.rows@.len() && row_at(self.deep_view(), id.deep_view()) == Some(
                    i as int,
                ),
                None => row_at(self.deep_view(), id.deep_view()) is None,
            },
    {
        let ghost all = self.rows.deep_view();
        let ghost p = is_row(id.deep_view());
        let mut i: usize = 0;
        while i < self.rows.len()
            invariant
                i <= self.rows.len(),
                all == self.rows.deep_view(),
                p == is_row(id.deep_view()),
                forall|j: int| 0 <= j < i ==> !p(#[trigger] all[j]),
            decreases self.rows.len() - i,
        {
            assert(all[i as int] == self.rows@[i as int].deep_view());
            if self.rows[i].id.same(id) {
                proof {
                    lemma_first_index_is(all, p, i as int);
                }
                return Some(i);
            }
            i = i + 1;
        }
        proof {
            lemma_first_index(all, p);
        }
        None
    }

    /// Adds a column with a new name.
    pub fn add_column(&mut self, col: Column) -> (r: Result<(), TableError>)
        ensures
            ({
                let t = old(self).deep_view();
                if first_index(t.columns, is_named(col.name@)) is Some {
                    &&& *final(self) == *old(self)
                    &&& table_outcome(r) == Err::<(), TableErrorM>(
                        TableErrorM::DuplicateColumn(col.name@),
                    )
                } else {
                    &&& final(self).deep_view() == (TableM {
                        columns: t.columns.push(col.deep_view()),
                        ..t
                    })
                    &&& r is Ok
                }
            }),
    {
        if self.find_named(col.name.as_str()).is_some() {
            return Err(TableError::DuplicateColumn(col.name));
        }
        let ghost cs = self.columns.deep_view();
        self.columns.push(col);
        assert(self.columns.deep_view() =~= cs.push(col.deep_view()));
        Ok(())
    }

    /// Removes a column, in all rows too; whether there was one.
    pub fn remove_column(&mut self, col_id: &ColumnId) -> (r: bool)
        ensures
            final(self).deep_view() == without_column(old(self).deep_view(), col_id.deep_view()),
            r == (first_index(old(self).deep_view().columns, is_column(col_id.deep_view()))
                is Some),
    {
        let ghost t = self.deep_view();
        let ghost p = is_other_column(col_id.deep_view());
        let ghost q = is_column(col_id.deep_view());
        let mut existed = false;
        let mut columns: Vec<Column> = Vec::new();
        let mut i: usize = 0;
        assert(columns.deep_view() =~= keep(t.columns.take(0), p));
        while i < self.columns.len()
            invariant
                i <= self.columns.len(),
                t == self.deep_view(),
                p == is_other_column(col_id.deep_view()),
                q == is_column(col_id.deep_view()),
                columns.deep_view() == keep(t.columns.take(i as int), p),
                existed == exists|j: int| 0 <= j < i && q(#[trigger] t.columns[j]),
            decreases self.columns.len() - i,
        {
            proof {
                lemma_keep_step(t.columns, p, i as int);
            }
            let ghost done = columns.deep_view();
            assert(t.columns[i as int] == self.columns@[i as int].deep_view());
            if !self.columns[i].id.same(col_id) {
                columns.push(self.columns[i].clone());
                assert(columns.deep_view() =~= done.push(t.columns[i as int]));
            } else {
                existed = true;
                assert(q(t.columns[i as int]));
            }
            i = i + 1;
        }
        assert(t.columns.take(i as int) =~= t.columns);
        proof {
            lemma_first_index(t.columns, q);
        }
        let mut rows: Vec<Row> = Vec::new();
        let mut k: usize = 0;
        while k < self.rows.len()
            invariant
                k <= self.rows.len(),
                t == self.deep_view(),
                rows@.len() == k,
                forall|j: int|
                    0 <= j < k ==> (#[trigger] rows@[j]).deep_view() == without_cell(
                        t.rows[j],
                        col_id.deep_view(),
                    ),
            decreases self.rows.len() - k,
        {
            let mut row = self.rows[k].clone();
            assert(row.deep_view() == t.rows[k as int]);
            row.drop_cells(col_id);
            rows.push(row);
            k = k + 1;
        }
        self.columns = columns;
        self.rows = rows;
        assert(self.deep_view().rows =~= without_column(t, col_id.deep_view()).rows);
        existed
    }

    /// Adds a row with a new identity.
    pub fn insert_row(&mut self, row: Row) -> (r: Result<(), TableError>)
        ensures
            ({
                let t = old(self).deep_view();
                if row_at(t, row.id.deep_view()) is Some {
                    &&& *final(self) == *old(self)
                    &&& table_outcome(r) == Err::<(), TableErrorM>(
                        TableErrorM::DuplicateRow(row.id.deep_view()),
                    )
                } else {
                    &&& final(self).deep_view() == (TableM {
                        rows: t.rows.push(row.deep_view()),
                        ..t
                    })
                    &&& r is Ok
                }
            }),
    {
        if self.position(&row.id).is_some() {
            return Err(TableError::DuplicateRow(row.id.0.clone()));
        }
        let ghost rs = self.rows.deep_view();
        self.rows.push(row);
        assert(self.rows.deep_view() =~= rs.push(row.deep_view()));
        Ok(())
    }

    /// Replaces all cells of a row.
    pub fn update_row(&mut self, row_id: &RowId, cells: Vec<Cell>) -> (r: Result<(), TableError>)
        ensures
            ({
                let t = old(self).deep_view();
                match row_at(t, row_id.deep_view()) {
                    None => *final(self) == *old(self) && table_outcome(r) == Err::<
                        (),
                        TableErrorM,
                    >(TableErrorM::NotFound("row "@ + row_id.deep_view())),
                    Some(i) => final(self).deep_view() == (TableM {
                        rows: t.rows.update(i, RowM { cells: cells.deep_view(), ..t.rows[i] }),
                        ..t
                    }) && r is Ok,
                }
            }),
    {
        match self.position(row_id) {
            None => Err(TableError::NotFound(cat("row ", row_id.0.as_str()))),
            Some(i) => {
                let ghost rs = self.rows.deep_view();
                self.rows[i].cells = cells;
                assert(self.rows.deep_view() =~= rs.update(
                    i as int,
                    RowM { cells: cells.deep_view(), ..rs[i as int] },
                ));
                Ok(())
            },
        }
    }

    /// Sets one value of a row.
    pub fn set_cell(&mut self, row_id: &RowId, col_id: &ColumnId, value: JsonValue) -> (r: Result<
        (),
        TableError,
    >)
        ensures
            ({
                let t = old(self).deep_view();
                match row_at(t, row_id.deep_view()) {
                    None => *final(self) == *old(self) && table_outcome(r) == Err::<
                        (),
                        TableErrorM,
                    >(TableErrorM::NotFound("row "@ + row_id.deep_view())),
                    Some(i) => final(self).deep_view() == (TableM {
                        rows: t.rows.update(
                            i,
                            with_cell(t.rows[i], col_id.deep_view(), value.deep_view()),
                        ),
                        ..t
                    }) && r is Ok,
                }
            }),
    {
        match self.position(row_id) {
            None => Err(TableError::NotFound(cat("row ", row_id.0.as_str()))),
            Some(i) => {
                let ghost rs = self.rows.deep_view();
                let mut row = self.rows[i].clone();
                let ghost cs = row.cells.deep_view();
                assert(row.deep_view() == rs[i as int]);
                let ghost new_value = value.deep_view();
                match find_cell(&row.cells, col_id) {
                    Some(k) => {
                        row.cells[k].value = value;
                        assert(row.cells.deep_view() =~= cs.update(
                            k as int,
                            CellM { value: new_value, ..cs[k as int] },
                        ));
                    },
                    None => {
                        row.cells.push(Cell { column: col_id.clone(), value });
                        assert(row.cells.deep_view() =~= cs.push(
                            CellM { column: col_id.deep_view(), value: new_value },
                        ));
                    },
                }
                self.rows.set(i, row);
                assert(self.rows.deep_view() =~= rs.update(i as int, row.deep_view()));
                Ok(())
            },
        }
    }

    /// Removes a row; whether there was one.
    pub fn delete_row(&mut self, row_id: &RowId) -> (r: bool)
        ensures
            ({
                let t = old(self).deep_view();
                let left = keep(t.rows, is_other_row(row_id.deep_view()));
                &&& final(self).deep_view() == (TableM { rows: left, ..t })
                &&& r == (left.len() < t.rows.len())
            }),
    {
        let ghost t = self.deep_view();
        let ghost p = is_other_row(row_id.deep_view());
        let count: usize = self.rows.len();
        let mut rows: Vec<Row> = Vec::new();
        let mut i: usize = 0;
        assert(rows.deep_view() =~= keep(t.rows.take(0), p));
        while i < self.rows.len()
            invariant
                i <= self.rows.len(),
                t == self.deep_view(),
                p == is_other_row(row_id.deep_view()),
                rows.deep_view() == keep(t.rows.take(i as int), p),
            decreases self.rows.len() - i,
        {
            proof {
                lemma_keep_step(t.rows, p, i as int);
            }
            let ghost done = rows.deep_view();
            assert(t.rows[i as int] == self.rows@[i as int].deep_view());
            if !self.rows[i].id.same(row_id) {
                rows.push(self.rows[i].clone());
                assert(rows.deep_view() =~= done.push(t.rows[i as int]));
            }
            i = i + 1;
        }
        assert(t.rows.take(i as int) =~= t.rows);
        assert(rows.deep_view().len() == rows@.len());
        self.rows = rows;
        self.rows.len() < count
    }

    pub fn get_row(&self, row_id: &RowId) -> (r: Option<&Row>)
        ensures
            match r {
                Some(x) => row_of(self.deep_view(), row_id.deep_view()) == Some(x.deep_view()),
                None => row_of(self.deep_view(), row_id.deep_view()) is None,
            },
    {
        match self.position(row_id) {
            Some(i) => Some(&self.rows[i]),
            None => None,
        }
    }

    /// The value of a row in a column.
    pub fn cell_value(&self, row_id: &RowId, col_id: &ColumnId) -> (r: Option<&JsonValue>)
        ensures
            match r {
                Some(v) => value_at(self.deep_view(), row_id.deep_view(), col_id.deep_view())
                    == Some(v.deep_view()),
                None => value_at(self.deep_view(), row_id.deep_view(), col_id.deep_view()) is None,
            },
    {
        match self.get_row(row_id) {
            Some(row) => row.value(col_id),
            None => None,
        }
    }

    /// The columns that a language model fills.
    pub fn llm_columns(&self) -> (r: Vec<&Column>)
        ensures
            refs_view(r@) == keep(self.deep_view().columns, is_filled()),
    {
        let ghost all = self.columns.deep_view();
        let ghost p = is_filled();
        let mut r: Vec<&Column> = Vec::new();
        let mut i: usize = 0;
        assert(refs_view(r@) =~= keep(all.take(0), p));
        while i < self.columns.len()
            invariant
                i <= self.columns.len(),
                all == self.columns.deep_view(),
                p == is_filled(),
                refs_view(r@) == keep(all.take(i as int), p),
            decreases self.columns.len() - i,
        {
            proof {
                lemma_keep_step(all, p, i as int);
            }
            let ghost done = r@;
            assert(all[i as int] == self.columns@[i as int].deep_view());
            if self.columns[i].ty == ColumnType::LlmFill {
                r.push(&self.columns[i]);
                assert(refs_view(r@) =~= refs_view(done).push(all[i as int]));
            }
            i = i + 1;
        }
        assert(all.take(i as int) =~= all);
        r
    }

    /// A row as a unit of retrieval: its values with bars between, under the
    /// path of table and row.
    pub fn row_to_text_unit(&self, row: &Row) -> (r: TextUnit)
        ensures
            r.deep_view() == row_unit(self.deep_view(), row.deep_view()),
    {
        let ghost cells = row.cells.deep_view();
        let mut parts: Vec<String> = Vec::new();
        let mut i: usize = 0;
        while i < row.cells.len()
            invariant
                i <= row.cells.len(),
                cells == row.cells.deep_view(),
                parts@.len() == i,
                forall|k: int| 0 <= k < i ==> (#[trigger] parts@[k])@ == cell_texts(cells)[k],
            decreases row.cells.len() - i,
        {
            assert(cells[i as int] == row.cells@[i as int].deep_view());
            parts.push(row.cells[i].value.to_text());
            i = i + 1;
        }
        assert(parts.deep_view() =~= cell_texts(cells));
        let mut path: Vec<String> = Vec::new();
        path.push(self.id.clone());
        path.push(row.id.0.clone());
        let r = TextUnit { id: row.id.0.clone(), text: join(&parts, " | "), path };
        assert(r.deep_view().path =~= row_unit(self.deep_view(), row.deep_view()).path);
        r
    }

    pub fn row_count(&self) -> (r: usize)
        ensures
            r == self.rows@.len(),
    {
        self.rows.len()
    }
}

/// A row as a unit of retrieval.
pub open spec fn row_unit(t: TableM, r: RowM) -> TextUnitM {
    TextUnitM { id: r.id, text: joined(cell_texts(r.cells), " | "@), path: seq![t.id, r.id] }
}

// ---- The store -------------------------------------------------------------

/// Tables by identity.
#[derive(Debug, PartialEq)]
pub struct TableStore {
    pub tables: Vec<(String, Table)>,
}

/// What a `TableStore` holds.
#[verifier::ext_equal]
pub struct TableStoreM {
    pub tables: Seq<(Seq<char>, TableM)>,
}

impl DeepView for TableStore {
    type V = TableStoreM;

    open spec fn deep_view(&self) -> TableStoreM {
        TableStoreM {
            tables: self.tables.deep_view(),
        }
    }
}


impl TableStore {
    pub fn new() -> (r: TableStore)
        ensures
            r.deep_view() == (TableStoreM { tables: seq![] }),
    {
        let r = TableStore { tables: Vec::new() };
        assert(r.deep_view().tables =~= seq![]);
        r
    }

    /// Adds a table with a new identity.
    pub fn create(&mut self, table: Table) -> (r: Result<(), TableError>)
        ensures
            if lookup(old(self).deep_view().tables, table.id@) is Some {
                *final(self) == *old(self) && table_outcome(r) == Err::<(), TableErrorM>(
                    TableErrorM::DuplicateColumn("table "@ + table.id@),
                )
            } else {
                final(self).deep_view().tables == bind(
                    old(self).deep_view().tables,
                    table.id@,
                    table.deep_view(),
                ) && r is Ok
            },
    {
        if find_slot(&self.tables, table.id.as_str()).is_some() {
            return Err(TableError::DuplicateColumn(cat("table ", table.id.as_str())));
        }
        let id = table.id.clone();
        put(&mut self.tables, id.as_str(), table);
        Ok(())
    }

    pub fn get(&self, id: &str) -> (r: Option<&Table>)
        ensures
            match r {
                Some(t) => lookup(self.deep_view().tables, id@) == Some(t.deep_view()),
                None => lookup(self.deep_view().tables, id@) is None,
            },
    {
        get(&self.tables, id)
    }

    /// The table with an identity, to be changed in its place.
    pub fn get_mut(&mut self, id: &str) -> (r: Option<&mut Table>)
        ensures
            match r {
                Some(t) => {
                    let at = slot(old(self).deep_view().tables, id@);
                    &&& at is Some
                    &&& 0 <= at->0 < old(self).tables@.len()
                    &&& *t == old(self).tables@[at->0].1
                    &&& final(self).tables@ == old(self).tables@.update(
                        at->0,
                        (old(self).tables@[at->0].0, *final(t)),
                    )
                },
                None => slot(old(self).deep_view().tables, id@) is None && *final(self) == *old(
                    self,
                ),
            },
    {
        match find_slot(&self.tables, id) {
            Some(i) => Some(&mut self.tables[i].1),
            None => None,
        }
    }

    /// Removes a table; whether there was one.
    pub fn delete(&mut self, id: &str) -> (r: bool)
        ensures
            final(self).deep_view().tables == unbind(old(self).deep_view().tables, id@),
            r == (lookup(old(self).deep_view().tables, id@) is Some),
    {
        remove(&mut self.tables, id)
    }

    /// All tables.
    pub fn list(&self) -> (r: Vec<&Table>)
        ensures
            r@.len() == self.tables@.len(),
            forall|i: int| 0 <= i < r@.len() ==> *(#[trigger] r@[i]) == self.tables@[i].1,
    {
        let mut r: Vec<&Table> = Vec::new();
        let mut i: usize = 0;
        while i < self.tables.len()
            invariant
                i <= self.tables.len(),
                r@.len() == i,
                forall|k: int| 0 <= k < i ==> *(#[trigger] r@[k]) == self.tables@[k].1,
            decreases self.tables.len() - i,
        {
            r.push(&self.tables[i].1);
            i = i + 1;
        }
        r
    }

    pub fn len(&self) -> (r: usize)
        ensures
            r == self.tables@.len(),
    {
        self.tables.len()
    }

    pub fn is_empty(&self) -> (r: bool)
        ensures
            r == (self.tables@.len() == 0),
    {
        self.tables.len() == 0
    }
}

// ---- Laws ------------------------------------------------------------------

/// A value that was set is read back, and every other value of the row stays.
pub proof fn law_set_then_read(r: RowM, column: Seq<char>, value: Json, other: Seq<char>)
    ensures
        cell_in(with_cell(r, column, value), column) == Some(value),
        other != column ==> cell_in(with_cell(r, column, value), other) == cell_in(r, other),
{
    let w = with_cell(r, column, value);
    let p = is_cell(column);
    let q = is_cell(other);
    lemma_first_index(r.cells, p);
    lemma_first_index(r.cells, q);
    lemma_first_index(w.cells, q);
    match first_index(r.cells, p) {
        Some(i) => {
            assert forall|j: int| 0 <= j < i implies !p(#[trigger] w.cells[j]) by {
                assert(!p(r.cells[j]));
            }
            lemma_first_index_is(w.cells, p, i);
        },
        None => {
            assert forall|j: int| 0 <= j < r.cells.len() implies !p(#[trigger] w.cells[j]) by {
                assert(!p(r.cells[j]));
            }
            lemma_first_index_is(w.cells, p, r.cells.len() as int);
        },
    }
    if other != column {
        match first_index(r.cells, q) {
            Some(i) => {
                assert(w.cells[i] == r.cells[i]);
                assert forall|j: int| 0 <= j < i implies !q(#[trigger] w.cells[j]) by {
                    assert(!q(r.cells[j]));
                }
                lemma_first_index_is(w.cells, q, i);
            },
            None => {
                if first_index(w.cells, q) is Some {
                    let i = first_index(w.cells, q)->0;
                    if i < r.cells.len() {
                        assert(!q(r.cells[i]));
                    }
                }
            },
        }
    }
}

/// Once a column is removed, no row has a value in it.
pub proof fn law_removed_column_empty(t: TableM, column: Seq<char>, row: Seq<char>)
    ensures
        value_at(without_column(t, column), row, column) is None,
{
    let u = without_column(t, column);
    lemma_first_index(u.rows, is_row(row));
    if row_at(u, row) is Some {
        let i = row_at(u, row)->0;
        let r = u.rows[i];
        assert(r == without_cell(t.rows[i], column));
        lemma_first_index(r.cells, is_cell(column));
        crate::seqs::lemma_keep_contains(t.rows[i].cells, is_other_cell(column));
        if first_index(r.cells, is_cell(column)) is Some {
            let k = first_index(r.cells, is_cell(column))->0;
            assert(r.cells.contains(r.cells[k]));
            assert(is_other_cell(column)(r.cells[k]));
        }
    }
}

} // verus!
