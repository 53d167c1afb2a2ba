//! Columns that a language model fills.

use vstd::prelude::*;

use crate::json::{Json, JsonValue};
use crate::llm::unit::{TextUnit, TextUnitM};
use crate::seqs::keep;
use crate::table::model::{
    is_filled, row_at, row_of, row_unit, with_cell, Column, ColumnId, ColumnM, RowId, Table,
    TableError, TableErrorM, TableM,
};
use crate::text::{cat, cat3, trim, trim_str};

verus! {

broadcast use vstd::std_specs::vec::group_vec_axioms;

/// When a column is filled.
#[derive(Debug, PartialEq)]
pub enum FillTrigger {
    OnCreate,
    OnUpdate(Vec<ColumnId>),
    Manual,
}

/// What a `FillTrigger` holds.
#[verifier::ext_equal]
pub enum FillTriggerM {
    OnCreate,
    OnUpdate(Seq<Seq<char>>),
    Manual,
}

impl DeepView for FillTrigger {
    type V = FillTriggerM;

    open spec fn deep_view(&self) -> FillTriggerM {
        match self {
            FillTrigger::OnCreate => FillTriggerM::OnCreate,
            FillTrigger::OnUpdate(x) => FillTriggerM::OnUpdate(x.deep_view()),
            FillTrigger::Manual => FillTriggerM::Manual,
        }
    }
}

impl Clone for FillTrigger {
    fn clone(&self) -> (r: Self)
        ensures
            r.deep_view() == self.deep_view(),
    {
        match self {
            FillTrigger::OnCreate => FillTrigger::OnCreate,
            FillTrigger::OnUpdate(x) => FillTrigger::OnUpdate(x.clone()),
            FillTrigger::Manual => FillTrigger::Manual,
        }
    }
}

/// How a column is filled.
#[derive(Debug, PartialEq)]
pub struct LlmFillConfig {
    pub column: ColumnId,
    pub prompt_template: String,
    pub trigger: FillTrigger,
}

/// What a `LlmFillConfig` holds.
#[verifier::ext_equal]
pub struct LlmFillConfigM {
    pub column: Seq<char>,
    pub prompt_template: Seq<char>,
    pub trigger: FillTriggerM,
}

impl DeepView for LlmFillConfig {
    type V = LlmFillConfigM;

    open spec fn deep_view(&self) -> LlmFillConfigM {
        LlmFillConfigM {
            column: self.column.deep_view(),
            prompt_template: self.prompt_template.deep_view(),
            trigger: self.trigger.deep_view(),
        }
    }
}

impl Clone for LlmFillConfig {
    fn clone(&self) -> (r: Self)
        ensures
            r.deep_view() == self.deep_view(),
    {
        LlmFillConfig {
            column: self.column.clone(),
            prompt_template: self.prompt_template.clone(),
            trigger: self.trigger.clone(),
        }
    }
}

/// What is asked for a column of a row, or why it cannot be asked.
pub open spec fn fill_question(t: TableM, row: Seq<char>, col: ColumnM) -> Result<
    (TextUnitM, Seq<char>),
    TableErrorM,
> {
    match row_of(t, row) {
        Some(r) => Ok((row_unit(t, r), "["@ + col.name + "]: "@)),
        None => Err(TableErrorM::NotFound("row "@ + row)),
    }
}

/// The table after an answer: an empty one changes nothing, any other is set
/// in the column without the white space around it.
pub open spec fn fill_answered(t: TableM, row: Seq<char>, col: ColumnM, answer: Seq<char>) -> TableM {
    if answer.len() == 0 {
        t
    } else {
        match row_at(t, row) {
            Some(i) => TableM {
                rows: t.rows.update(i, with_cell(t.rows[i], col.id, Json::Str(trim(answer)))),
                ..t
            },
            None => t,
        }
    }
}

impl Table {
    /// The columns to fill, one after the other.
    pub fn fill_columns(&self) -> (r: Vec<Column>)
        ensures
            r.deep_view() == keep(self.deep_view().columns, is_filled()),
    {
        let cols = self.llm_columns();
        let ghost all = crate::graph::model::refs_view(cols@);
        let mut r: Vec<Column> = Vec::new();
        let mut i: usize = 0;
        while i < cols.len()
            invariant
                i <= cols.len(),
                all == crate::graph::model::refs_view(cols@),
                r@.len() == i,
                forall|k: int| 0 <= k < i ==> (#[trigger] r@[k]).deep_view() == all[k],
            decreases cols.len() - i,
        {
            assert(all[i as int] == cols@[i as int].deep_view());
            r.push(cols[i].clone());
            i = i + 1;
        }
        assert(r.deep_view() =~= all);
        r
    }

    /// What is asked for a column of a row: the row as a unit of text, and the
    /// name of the column as what to go on from.
    pub fn fill_request(&self, row_id: &RowId, col: &Column) -> (r: Result<
        (TextUnit, String),
        TableError,
    >)
        ensures
            match r {
                Ok(q) => fill_question(self.deep_view(), row_id.deep_view(), col.deep_view()) == Ok::<
                    (TextUnitM, Seq<char>),
                    TableErrorM,
                >(q.deep_view()),
                Err(e) => fill_question(self.deep_view(), row_id.deep_view(), col.deep_view())
                    == Err::<(TextUnitM, Seq<char>), TableErrorM>(e.deep_view()),
            },
    {
        match self.get_row(row_id) {
            Some(row) => Ok((self.row_to_text_unit(row), cat3("[", col.name.as_str(), "]: "))),
            None => Err(TableError::NotFound(cat("row ", row_id.0.as_str()))),
        }
    }

    /// Takes the answer for a column of a row; whether it filled the cell.
    pub fn fill_accept(&mut self, row_id: &RowId, col: &Column, completion: &str) -> (r: Result<
        bool,
        TableError,
    >)
        ensures
            final(self).deep_view() == fill_answered(
                old(self).deep_view(),
                row_id.deep_view(),
                col.deep_view(),
                completion@,
            ),
            match r {
                Ok(filled) => filled == (completion@.len() > 0) && (filled ==> row_at(
                    old(self).deep_view(),
                    row_id.deep_view(),
                ) is Some),
                Err(e) => completion@.len() > 0 && row_at(
                    old(self).deep_view(),
                    row_id.deep_view(),
                ) is None && e.deep_view() == TableErrorM::NotFound("row "@ + row_id.deep_view()),
            },
    {
        if completion.is_empty() {
            return Ok(false);
        }
        let text = trim_str(completion);
        match self.set_cell(row_id, &col.id, JsonValue::Str(text)) {
            Ok(_) => Ok(true),
            Err(e) => Err(e),
        }
    }
}

} // verus!
