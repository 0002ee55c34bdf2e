//! The per-document record: header field values resolved by the anchor
//! resolver, and the rows of the document's totals table as the upstream
//! aggregator supplies them.

use vstd::prelude::*;

verus! {

/// The value of one sheet cell or resolved header field.  A numeric value
/// is carried as the raw 64-bit encoding the reader handed over; the
/// library never computes with it, only moves it into the output unchanged.
#[derive(Debug, PartialEq)]
pub enum FieldValue {
    Text(String),
    Number(u64),
    Absent,
}

impl FieldValue {
    /// An exact copy of the value.
    pub fn duplicate(&self) -> (r: FieldValue)
        ensures
            r == *self,
    {
        match self {
            FieldValue::Text(s) => FieldValue::Text(s.clone()),
            FieldValue::Number(b) => FieldValue::Number(*b),
            FieldValue::Absent => FieldValue::Absent,
        }
    }
}

/// One row of a document's totals table: a name and two independent
/// sequences of optional numeric values, one per price family.  A blank
/// cell inside a populated row is `None`.
#[derive(Debug)]
pub struct TotalsRow {
    pub name: String,
    pub base_price: Vec<Option<u64>>,
    pub curr_price: Vec<Option<u64>>,
}

/// The value sequences of a totals row must fit the 16-bit column widths
/// of the output layout.
pub open spec fn totals_row_wf(r: TotalsRow) -> bool {
    r.base_price@.len() <= u16::MAX && r.curr_price@.len() <= u16::MAX
}

/// One ingested document: its path, the declared header field names, the
/// field values resolved for them (index-aligned with the names), and the
/// rows of its totals table.
pub struct Act {
    pub path: String,
    pub names_of_header: Vec<String>,
    pub data_of_header: Vec<FieldValue>,
    pub data_of_totals: Vec<TotalsRow>,
}

pub open spec fn act_wf(a: Act) -> bool {
    &&& a.names_of_header@.len() == a.data_of_header@.len()
    &&& forall|i: int|
        0 <= i < a.data_of_totals@.len() ==> totals_row_wf(#[trigger] a.data_of_totals@[i])
}

} // verus!
