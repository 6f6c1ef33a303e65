//! The schema registry: immutable per-report configuration that drives both
//! decoding and storage. Loaded once by the caller and passed read-only into
//! every adapter and persistence call.

use vstd::prelude::*;

verus! {

/// One section of a report: its storage alias, the independent columns (the
/// first is always the report date), and the field columns.
#[derive(Debug)]
pub struct DatamartSection {
    pub alias: Option<String>,
    pub independent: Vec<String>,
    pub fields: Vec<String>,
}

/// A whole report's configuration, keyed by the section names.
#[derive(Debug)]
pub struct DatamartConfig {
    pub name: String,
    pub description: String,
    pub independent: String,
    pub sections: Vec<(String, DatamartSection)>,
}

impl DatamartConfig {
    pub open spec fn section_names(self) -> Seq<Seq<char>> {
        Seq::new(self.sections@.len(), |i: int| self.sections@[i].0@)
    }
}

/// The envelope of one REST report-section response, already freed of its
/// transport: the row list, the row statistics, and the service message.
#[derive(Debug)]
pub struct DatamartResponse {
    pub report_section: String,
    pub report_sections: Vec<String>,
    pub stats: Vec<(String, u32)>,
    pub results: Option<Vec<Vec<(String, Option<String>)>>>,
    pub message: Option<String>,
}

} // verus!
