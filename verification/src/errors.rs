use vstd::prelude::*;

verus! {

/// Why an operation on a document failed.
///
/// Archive problems, text that is not UTF-8, text the XML reader rejects,
/// and indexed control positions that violate the structural invariants are
/// all fatal: no partial output is ever produced.
#[derive(Debug, Clone)]
pub enum DocxError {
    /// The outer archive could not be opened, read, or written.
    Archive,
    /// The named part contains a content control but is not valid UTF-8.
    Encoding { part: String },
    /// The XML reader rejected the named part at the given byte position.
    Parse { part: String, position: u64 },
    /// The control positions scanned from the named part violate the
    /// structural invariants (for example an SDT left unclosed at the end
    /// of the part), or the part is too large to index.
    Structure { part: String },
}

/// Why one part could not be indexed; the caller adds the part's name.
#[derive(Debug, Clone)]
pub enum PartError {
    /// The XML reader rejected the text at the given byte position.
    Parse { position: u64 },
    /// The indexed positions violate the structural invariants, or the
    /// part is too large to index.
    Structure {},
}

} // verus!
