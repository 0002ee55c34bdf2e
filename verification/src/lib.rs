//! Consolidates work-completion certificates (KS-2 acts) read from
//! spreadsheets into one wide report sheet.
//!
//! The library holds the two verified cores: the anchor resolver, which
//! locates named header fields in a sheet by text search with a geometric
//! sanity check, and the schema reconciler, which merges a canonical column
//! template with totals columns discovered from the first document and
//! projects every document's rows onto the frozen layout.  Reading workbooks
//! and writing the output file happen outside the library, which exchanges
//! plain cell values and write instructions with its callers.

pub mod extract;
pub mod load;
pub mod text;
pub mod transform;

use vstd::prelude::*;

verus! {

/// The failure modes of sheet selection and anchor resolution.  Each carries
/// the originating file path so a caller can report which document failed.
#[derive(Debug)]
pub enum Error {
    /// No sheet of the workbook has the requested name (case-insensitive).
    SheetNotFound { file_path: String, sh_name_for_search: String, sh_names: Vec<String> },
    /// The underlying reader failed on the named sheet.
    SheetUnreadable { file_path: String, sh_name: String },
    /// The sheet has no used cell range at all.
    EmptySheetRange { file_path: String, sh_name: String },
    /// The last-declared required anchor was never found.
    IncompleteAnchorSet { file_path: String },
    /// The required anchors were found, but their column spread differs from
    /// the expected constant: a structurally different document revision.
    ColumnsShifted { file_path: String },
}

} // verus!
