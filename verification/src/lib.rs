//! An in-memory tabular data container: a row store of independently typed
//! columns with a shared header, row-wise transformations (slicing, filtering,
//! stable sorting, reindexing, concatenation), per-column aggregation, text
//! rendering, and two text encodings (delimited records and a small JSON
//! dialect).

pub mod column;
pub mod csv;
pub mod json;
pub mod render;
pub mod roundtrip;
pub mod sort;
pub mod stats;
pub mod table;
pub mod value;

use vstd::prelude::*;

verus! {

/// What went wrong during a table operation.
#[derive(Clone, Copy, Debug, PartialEq, Eq, Structural)]
pub enum DataError {
    /// An index or slice bound lies outside the valid row range.
    OutOfRange,
    /// A column count, column kind, or header length does not match the
    /// table's shape.
    ArityMismatch,
    /// A text field could not be converted to its column's element kind.
    ParseError { row: usize, col: usize },
    /// A document misses a structural expectation of the encoding.
    MalformedDocument { defect: DocDefect },
}

/// Which structural expectation a malformed document violated.
#[derive(Clone, Copy, Debug, PartialEq, Eq, Structural)]
pub enum DocDefect {
    /// The surrounding syntax could not be read at all.
    BadSyntax,
    /// The header list's length does not match the expected column count.
    HeaderArity,
    /// A data entry's key does not match the header label at its position.
    KeyMismatch,
    /// The value arrays do not all have the same length.
    RowCountMismatch,
}

/// The contract every homogeneous column representation satisfies: a
/// length, an indexed read, and a bulk view of its cells. Plain vectors of
/// the supported element types provide it; the dynamically-kinded
/// [`column::Column`] wraps such vectors into a table. Indexed writes are
/// not part of the trait — a verified function cannot hand out a mutable
/// reference into the sequence — so mutation goes through the checked
/// [`column::Column::set`] (or [`table::Table::replace_col`]) instead.
pub trait Column {
    /// The element type of this column.
    type DType;

    /// The cells, as a mathematical sequence.
    spec fn cells(&self) -> Seq<Self::DType>;

    /// The number of cells.
    fn row(&self) -> (r: usize)
        ensures
            r == self.cells().len(),
    ;

    /// The cell at a row position.
    fn idx(&self, n: usize) -> (r: &Self::DType)
        requires
            n < self.cells().len(),
        ensures
            *r == self.cells()[n as int],
    ;

    /// The full sequence as a read-only view.
    fn to_vec(&self) -> (r: &Vec<Self::DType>)
        ensures
            r@ == self.cells(),
    ;
}

impl Column for Vec<i64> {
    type DType = i64;

    open spec fn cells(&self) -> Seq<i64> {
        self@
    }

    fn row(&self) -> (r: usize) {
        self.len()
    }

    fn idx(&self, n: usize) -> (r: &i64) {
        &self[n]
    }

    fn to_vec(&self) -> (r: &Vec<i64>) {
        self
    }
}

impl Column for Vec<bool> {
    type DType = bool;

    open spec fn cells(&self) -> Seq<bool> {
        self@
    }

    fn row(&self) -> (r: usize) {
        self.len()
    }

    fn idx(&self, n: usize) -> (r: &bool) {
        &self[n]
    }

    fn to_vec(&self) -> (r: &Vec<bool>) {
        self
    }
}

impl Column for Vec<String> {
    type DType = String;

    open spec fn cells(&self) -> Seq<String> {
        self@
    }

    fn row(&self) -> (r: usize) {
        self.len()
    }

    fn idx(&self, n: usize) -> (r: &String) {
        &self[n]
    }

    fn to_vec(&self) -> (r: &Vec<String>) {
        self
    }
}

} // verus!
