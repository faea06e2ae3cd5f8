//! The tabular index structure.

use vstd::prelude::*;

verus! {

/// The corpus-wide index: an ordered header of column names plus one row of
/// string cells per entry.
#[derive(PartialEq, Debug)]
pub struct CsvTable {
    pub header: Vec<String>,
    pub rows: Vec<Vec<String>>,
}

impl View for CsvTable {
    type V = (Seq<Seq<char>>, Seq<Seq<Seq<char>>>);

    open spec fn view(&self) -> (Seq<Seq<char>>, Seq<Seq<Seq<char>>>) {
        (self.header.deep_view(), self.rows.deep_view())
    }
}

impl CsvTable {
    /// Every row is exactly as long as the header.
    pub open spec fn rectangular(&self) -> bool {
        forall|i: int| 0 <= i < self@.1.len() ==> self@.1[i].len() == self@.0.len()
    }
}

impl Default for CsvTable {
    /// The empty table: no columns, no rows.
    fn default() -> (r: CsvTable)
        ensures
            r@.0 =~= Seq::<Seq<char>>::empty(),
            r@.1 =~= Seq::<Seq<Seq<char>>>::empty(),
    {
        CsvTable { header: Vec::new(), rows: Vec::new() }
    }
}

/// The index processor: extracts per-entry metadata, rebuilds the corpus
/// table, and encodes or decodes it as comma-delimited text.
pub struct CsvProcessor {}

impl CsvProcessor {
    /// A no-op column-update hook, kept as an interface point.
    pub fn update_by_column() {
    }
}

} // verus!
