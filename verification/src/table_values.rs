//! Values stored in table rows.
use vstd::prelude::*;

use crate::names::StrMap;

verus! {

/// A value of a table column. A float is held as the bit pattern of its `f64` value.
#[derive(Debug, Clone)]
pub enum ColumnValue {
    Bool(bool),
    F64(u64),
    String(String),
    U64(u64),
}

/// What a column value stands for: a string by its characters.
pub enum ColumnValueView {
    Bool(bool),
    F64(u64),
    Text(Seq<char>),
    U64(u64),
}

impl View for ColumnValue {
    type V = ColumnValueView;

    open spec fn view(&self) -> ColumnValueView {
        match self {
            ColumnValue::Bool(b) => ColumnValueView::Bool(*b),
            ColumnValue::F64(bits) => ColumnValueView::F64(*bits),
            ColumnValue::String(s) => ColumnValueView::Text(s@),
            ColumnValue::U64(v) => ColumnValueView::U64(*v),
        }
    }
}

impl ColumnValue {
    /// A copy of the value.
    pub fn copy_value(&self) -> (r: ColumnValue)
        ensures
            r == *self,
    {
        match self {
            ColumnValue::Bool(b) => ColumnValue::Bool(*b),
            ColumnValue::F64(bits) => ColumnValue::F64(*bits),
            ColumnValue::String(s) => ColumnValue::String(s.clone()),
            ColumnValue::U64(v) => ColumnValue::U64(*v),
        }
    }
}

/// The view of an optional column value.
pub open spec fn option_value_view(v: Option<ColumnValue>) -> Option<ColumnValueView> {
    match v {
        Some(x) => Some(x@),
        None => None,
    }
}

/// The identifier of a row in a table.
#[derive(Debug, Clone, Copy, PartialEq, Eq, Structural)]
pub struct RowId(pub usize);

/// A table row: the value of each column, by column name.
#[derive(Debug)]
pub struct TableRow {
    pub values: StrMap<ColumnValue>,
}

} // verus!
