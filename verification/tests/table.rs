//! Tables.

use uwu_wiki::json::{parse_json, JsonValue};
use uwu_wiki::table::model::{Cell, Column, ColumnType, Row, RowId, Table, TableError, TableStore};
use uwu_wiki::table::view::{Filter, FilterOp, TableView};

fn json(text: &str) -> JsonValue {
    parse_json(text).unwrap()
}

fn sample_table() -> Table {
    let mut t = Table::new("t1", "tasks");
    t.add_column(Column::new("title", ColumnType::Text)).unwrap();
    t.add_column(Column::new("priority", ColumnType::Number)).unwrap();
    t.add_column(Column::new("done", ColumnType::Checkbox)).unwrap();
    t
}

fn sample_row(id: &str, title: &str, priority: i32, done: bool) -> Row {
    let t = sample_table();
    Row {
        id: RowId(id.into()),
        cells: vec![
            Cell { column: t.columns[0].id.clone(), value: JsonValue::text(title) },
            Cell { column: t.columns[1].id.clone(), value: json(&priority.to_string()) },
            Cell { column: t.columns[2].id.clone(), value: json(&done.to_string()) },
        ],
    }
}

#[test]
fn table_insert_and_get_row() {
    let mut t = sample_table();
    let row = sample_row("r1", "learn rust", 5, false);
    t.insert_row(row).unwrap();
    assert_eq!(t.row_count(), 1);
    assert!(t.get_row(&RowId("r1".into())).is_some());
}

#[test]
fn table_duplicate_row_rejected() {
    let mut t = sample_table();
    let r = sample_row("r1", "x", 1, false);
    t.insert_row(r.clone()).unwrap();
    assert!(t.insert_row(r).is_err());
}

#[test]
fn table_update_row() {
    let mut t = sample_table();
    t.insert_row(sample_row("r1", "old", 1, false)).unwrap();
    let col_id = t.columns[0].id.clone();
    t.update_row(
        &RowId("r1".into()),
        vec![Cell { column: col_id.clone(), value: JsonValue::text("new") }],
    )
    .unwrap();
    assert_eq!(t.cell_value(&RowId("r1".into()), &col_id).unwrap().as_str().unwrap(), "new");
}

#[test]
fn table_delete_row() {
    let mut t = sample_table();
    t.insert_row(sample_row("r1", "x", 1, false)).unwrap();
    assert!(t.delete_row(&RowId("r1".into())));
    assert!(t.get_row(&RowId("r1".into())).is_none());
}

#[test]
fn table_add_remove_column() {
    let mut t = sample_table();
    let col = Column::new("notes", ColumnType::Text);
    let col_id = col.id.clone();
    assert!(t.add_column(col).is_ok());
    assert_eq!(t.columns.len(), 4);
    assert!(t.remove_column(&col_id));
    assert_eq!(t.columns.len(), 3);
}

#[test]
fn duplicate_column_name_rejected() {
    let mut t = sample_table();
    let col = Column::new("title", ColumnType::Select);
    assert!(t.add_column(col).is_err());
}

#[test]
fn table_store_crud() {
    let mut store = TableStore::new();
    let t = sample_table();
    store.create(t).unwrap();
    assert_eq!(store.len(), 1);
    assert!(store.get("t1").is_some());
    assert!(store.delete("t1"));
    assert!(store.is_empty());
}

#[test]
fn view_filter_eq() {
    let mut t = sample_table();
    t.insert_row(sample_row("r1", "alpha", 5, false)).unwrap();
    t.insert_row(sample_row("r2", "beta", 3, true)).unwrap();

    let view = TableView::new(&t).filter(Filter {
        column: t.columns[2].id.clone(),
        op: FilterOp::Eq,
        value: json("true"),
    });
    assert_eq!(view.count(), 1);
    assert_eq!(view.rows()[0].id.0, "r2");
}

#[test]
fn view_sort_numeric() {
    let mut t = sample_table();
    t.insert_row(sample_row("r1", "alpha", 5, false)).unwrap();
    t.insert_row(sample_row("r2", "beta", 3, true)).unwrap();

    let view = TableView::new(&t).sort_by("priority", true);
    let rows = view.rows();
    assert_eq!(rows[0].id.0, "r2");
    assert_eq!(rows[1].id.0, "r1");
}

#[test]
fn views_sort_texts_and_numbers_stably() {
    let mut t = sample_table();
    t.insert_row(sample_row("r1", "b", 5, false)).unwrap();
    t.insert_row(sample_row("r2", "ab", -3, true)).unwrap();
    t.insert_row(sample_row("r3", "b", 3, true)).unwrap();
    t.insert_row(sample_row("r4", "a", 5, true)).unwrap();
    let order = |column: &str, ascending: bool| -> Vec<String> {
        let view = TableView::new(&t).sort_by(column, ascending);
        view.rows().iter().map(|r| r.id.0.clone()).collect()
    };
    assert_eq!(order("title", true), vec!["r4", "r2", "r1", "r3"]);
    assert_eq!(order("title", false), vec!["r1", "r3", "r2", "r4"]);
    assert_eq!(order("priority", true), vec!["r2", "r3", "r1", "r4"]);
    assert_eq!(order("priority", false), vec!["r1", "r4", "r3", "r2"]);
}

#[test]
fn view_paginate() {
    let mut t = sample_table();
    for i in 0..10 {
        t.insert_row(sample_row(&format!("r{i}"), &format!("task{i}"), i, false)).unwrap();
    }
    let view = TableView::new(&t);
    assert_eq!(view.count(), 10);
    assert_eq!(view.paginate(0, 3).len(), 3);
    assert_eq!(view.paginate(9, 5).len(), 1);
}

#[test]
fn view_group_counts() {
    let mut t = sample_table();
    t.insert_row(sample_row("r1", "a", 5, true)).unwrap();
    t.insert_row(sample_row("r2", "b", 3, false)).unwrap();
    t.insert_row(sample_row("r3", "c", 5, true)).unwrap();

    let view = TableView::new(&t);
    let groups = view.group_counts(&t.columns[2].id);
    assert_eq!(groups.len(), 2);
    let counts: usize = groups.iter().map(|g| g.1).sum();
    assert_eq!(counts, 3);
}

#[test]
fn row_adapts_to_text_unit() {
    let t = sample_table();
    let row = sample_row("r1", "hello", 1, true);
    let unit = t.row_to_text_unit(&row);
    assert_eq!(unit.id, "r1");
    assert_eq!(unit.path, vec!["t1".to_string(), "r1".to_string()]);
}

#[test]
fn llm_columns_detection() {
    let mut t = sample_table();
    t.add_column(Column::new("summary", ColumnType::LlmFill)).unwrap();
    assert_eq!(t.llm_columns().len(), 1);
}

#[test]
fn set_cell_creates_new_cell() {
    let mut t = sample_table();
    let col = Column::new("extra", ColumnType::Text);
    let col_id = col.id.clone();
    t.add_column(col).unwrap();
    t.insert_row(sample_row("r1", "x", 1, false)).unwrap();

    t.set_cell(&RowId("r1".into()), &col_id, JsonValue::text("value")).unwrap();
    assert_eq!(t.cell_value(&RowId("r1".into()), &col_id).unwrap().as_str().unwrap(), "value");
}

fn matches(t: &Table, column: usize, op: FilterOp, value: JsonValue) -> Vec<String> {
    let view =
        TableView::new(t).filter(Filter { column: t.columns[column].id.clone(), op, value });
    view.rows().iter().map(|r| r.id.0.clone()).collect()
}

#[test]
fn every_filter_operator_selects() {
    let mut t = sample_table();
    t.insert_row(sample_row("r1", "alpha", 5, false)).unwrap();
    t.insert_row(sample_row("r2", "beta", 3, true)).unwrap();
    assert_eq!(matches(&t, 1, FilterOp::Gt, json("3")), vec!["r1"]);
    assert_eq!(matches(&t, 1, FilterOp::Gte, json("3")), vec!["r1", "r2"]);
    assert_eq!(matches(&t, 1, FilterOp::Lt, json("5")), vec!["r2"]);
    assert_eq!(matches(&t, 1, FilterOp::Lte, json("4.5")), vec!["r2"]);
    assert_eq!(matches(&t, 0, FilterOp::Neq, JsonValue::text("beta")), vec!["r1"]);
    assert_eq!(matches(&t, 0, FilterOp::Contains, JsonValue::text("et")), vec!["r2"]);
    assert_eq!(matches(&t, 0, FilterOp::StartsWith, JsonValue::text("al")), vec!["r1"]);
}

#[test]
fn pages_of_a_view_join_to_its_rows() {
    let mut t = sample_table();
    for i in 0..5 {
        t.insert_row(sample_row(&format!("r{i}"), "x", i, false)).unwrap();
    }
    let view = TableView::new(&t).sort_by("priority", false);
    let mut ids: Vec<String> = view.paginate(0, 2).iter().map(|r| r.id.0.clone()).collect();
    ids.extend(view.paginate(2, 10).iter().map(|r| r.id.0.clone()));
    let all: Vec<String> = view.rows().iter().map(|r| r.id.0.clone()).collect();
    assert_eq!(ids, all);
    assert_eq!(all[0], "r4");
    assert!(view.paginate(7, 1).is_empty());
}

#[test]
fn table_errors_say_why() {
    let mut t = sample_table();
    let missing = RowId("zz".into());
    let col = t.columns[0].id.clone();
    assert_eq!(
        t.set_cell(&missing, &col, JsonValue::Null).unwrap_err(),
        TableError::NotFound("row zz".to_string())
    );
    assert!(t.add_column(Column::new("done", ColumnType::Url)).unwrap_err().message().contains("done"));
    t.insert_row(sample_row("r1", "x", 1, false)).unwrap();
    assert!(matches!(
        t.insert_row(sample_row("r1", "x", 1, false)).unwrap_err(),
        TableError::DuplicateRow(_)
    ));
}

#[test]
fn filling_asks_and_takes_trimmed_answers() {
    let mut t = sample_table();
    t.add_column(Column::new("summary", ColumnType::LlmFill)).unwrap();
    t.insert_row(sample_row("r1", "hello", 1, true)).unwrap();
    let cols = t.fill_columns();
    assert_eq!(cols.len(), 1);
    let id = RowId("r1".into());
    let (unit, partial) = t.fill_request(&id, &cols[0]).unwrap();
    assert_eq!(unit.id, "r1");
    assert_eq!(partial, "[summary]: ");
    assert_eq!(t.fill_accept(&id, &cols[0], "").unwrap(), false);
    assert_eq!(t.fill_accept(&id, &cols[0], "  short \n").unwrap(), true);
    assert_eq!(t.cell_value(&id, &cols[0].id).unwrap().as_str(), Some("short"));
    assert!(t.fill_request(&RowId("no".into()), &cols[0]).is_err());
}

#[test]
fn hidden_columns_are_noted() {
    let t = sample_table();
    let view = TableView::new(&t).hide_column(t.columns[0].id.clone());
    assert_eq!(view.hidden_columns, vec![t.columns[0].id.clone()]);
    assert_eq!(view.count(), t.rows.len());
}
