//! What the summary of rate, failures and latency says beside its numbers.

use crate::signals::{Operation, OperationV, Signals};
use crate::text::{same, views, Text};
use vstd::prelude::*;

verus! {

/// Whether there was nothing to group the rows by: they stand as one row,
/// under the table's own name.
pub open spec fn ungrouped(operations: Seq<OperationV>, table: Text) -> bool {
    operations.len() == 1 && operations[0].label == table
}

pub fn is_ungrouped(operations: &Vec<Operation>, table: &str) -> (r: bool)
    ensures
        r == ungrouped(views(operations@), table@),
{
    let ghost all = views(operations@);
    assert(all.len() == operations@.len());
    if operations.len() == 1 {
        assert(all[0] == operations@[0]@);
        same(operations[0].label.as_str(), table)
    } else {
        false
    }
}

/// What the summary shows in place of numbers, if anything.
#[derive(Debug, PartialEq)]
pub enum Panel {
    Loading,
    Failed(String),
    /// No table met what this view needs.
    NoTable,
    Nothing,
    Shown,
}

pub fn panel(loading: bool, error: Option<String>, table: &str, signals: &Signals) -> (r: Panel)
    ensures
        r == if loading {
            Panel::Loading
        } else {
            match error {
                Some(e) => Panel::Failed(e),
                None => if table@.len() == 0 {
                    Panel::NoTable
                } else if signals@.series.len() == 0 && signals@.operations.len() == 0 {
                    Panel::Nothing
                } else {
                    Panel::Shown
                },
            }
        },
{
    if loading {
        return Panel::Loading;
    }
    match error {
        Some(e) => Panel::Failed(e),
        None => if table.is_empty() {
            Panel::NoTable
        } else if signals.is_empty() {
            Panel::Nothing
        } else {
            Panel::Shown
        },
    }
}

} // verus!
