//! The typed table entry and the type-inference rule that produces it.

use vstd::prelude::*;

use crate::parse::is_float_literal;
use crate::parse::is_float_text;
use crate::parse::parse_i64;
use crate::parse::spec_parse_i64;

verus! {

/// The mathematical value of a [`Cell`]: each kind as its character
/// sequence or number.
pub enum CellValue {
    Text(Seq<char>),
    Float(Seq<char>),
    Integer(i64),
}

/// One typed entry of a table.
///
/// Three kinds of data are represented: text, floats, and integers. An
/// integer cell holds the parsed 64-bit value. A float cell holds the
/// verbatim text of a field that matches the 64-bit float grammar; two
/// float cells are equal when their texts are. Only equality of cells is
/// load-bearing for lookups.
#[derive(Debug)]
pub enum Cell {
    /// Text cell
    Text(String),
    /// Floating point number, held as the literal it was parsed from
    Float(String),
    /// Integer value
    Integer(i64),
}

impl View for Cell {
    type V = CellValue;

    open spec fn view(&self) -> CellValue {
        match self {
            Cell::Text(s) => CellValue::Text(s@),
            Cell::Float(s) => CellValue::Float(s@),
            Cell::Integer(x) => CellValue::Integer(*x),
        }
    }
}

impl DeepView for Cell {
    type V = CellValue;

    open spec fn deep_view(&self) -> CellValue {
        self.view()
    }
}

impl Clone for Cell {
    fn clone(&self) -> (c: Cell)
        ensures
            c@ == self@,
    {
        match self {
            Cell::Text(s) => Cell::Text(s.clone()),
            Cell::Float(s) => Cell::Float(s.clone()),
            Cell::Integer(x) => Cell::Integer(*x),
        }
    }
}

impl PartialEq for Cell {
    fn eq(&self, other: &Cell) -> (r: bool) {
        match (self, other) {
            (Cell::Text(a), Cell::Text(b)) => *a == *b,
            (Cell::Float(a), Cell::Float(b)) => *a == *b,
            (Cell::Integer(a), Cell::Integer(b)) => *a == *b,
            _ => false,
        }
    }
}

impl vstd::std_specs::cmp::PartialEqSpecImpl for Cell {
    open spec fn obeys_eq_spec() -> bool {
        true
    }

    open spec fn eq_spec(&self, other: &Cell) -> bool {
        self@ == other@
    }
}

/// What type inference makes of one raw field: an integer when the whole
/// field is an integer literal in 64-bit range, else a float when the
/// field matches the float grammar, else the verbatim text.
pub open spec fn spec_infer(s: Seq<char>) -> CellValue {
    match spec_parse_i64(s) {
        Some(v) => CellValue::Integer(v),
        None => if is_float_literal(s) {
            CellValue::Float(s)
        } else {
            CellValue::Text(s)
        },
    }
}

impl Cell {
    /// Produce the cell for one raw field by type inference, trying an
    /// integer first, then a float, then falling back to verbatim text.
    pub fn infer(field: &str) -> (c: Cell)
        ensures
            c@ == spec_infer(field@),
    {
        match parse_i64(field) {
            Some(x) => Cell::Integer(x),
            None => if is_float_text(field) {
                Cell::Float(field.to_owned())
            } else {
                Cell::Text(field.to_owned())
            },
        }
    }
}

} // verus!
