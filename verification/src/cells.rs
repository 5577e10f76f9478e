//! The cell values a spreadsheet row is made of, as plain data.
//!
//! The application boundary decodes each worksheet cell into one of these
//! variants before handing rows to the library. Floating-point cells and
//! native date/time cells cannot be held here directly, so the boundary
//! decodes them into their display text, their whole-day floor (for serial
//! dates) and their value in cents (for prices).

use crate::text::{dec_str_signed, i64_to_string};
use vstd::prelude::*;

verus! {

pub enum Cell {
    /// An empty cell.
    Empty,
    /// A text cell.
    Text(String),
    /// An integer cell.
    Int(i64),
    /// A numeric (floating-point) cell: its display text, its value
    /// rounded down to whole days, and its value in cents.
    Num { text: String, floor: i64, cents: u64 },
    /// A native date/time cell: its display text and its serial day
    /// count rounded down to whole days.
    Stamp { text: String, floor: i64 },
    /// Any other cell (boolean, ISO date text, duration, error): only its
    /// display text takes part in parsing.
    Other(String),
}

/// The display text of a cell, as the record parser reads it.
pub open spec fn spec_cell_text(c: Cell) -> Seq<char> {
    match c {
        Cell::Empty => Seq::<char>::empty(),
        Cell::Text(s) => s@,
        Cell::Int(i) => dec_str_signed(i as int),
        Cell::Num { text, floor, cents } => text@,
        Cell::Stamp { text, floor } => text@,
        Cell::Other(s) => s@,
    }
}

pub fn cell_text(c: &Cell) -> (s: String)
    ensures
        s@ == spec_cell_text(*c),
{
    match c {
        Cell::Empty => String::new(),
        Cell::Text(s) => s.clone(),
        Cell::Int(i) => i64_to_string(*i),
        Cell::Num { text, .. } => text.clone(),
        Cell::Stamp { text, .. } => text.clone(),
        Cell::Other(s) => s.clone(),
    }
}

} // verus!
