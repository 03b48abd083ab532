//! Classified outcome of one node met while walking a tree, and the rule that
//! decides whether two neighbouring columns of a row differ.
use vstd::prelude::*;

verus! {

/// The kind of a successfully inspected node.
#[derive(Clone, Copy, Debug, PartialEq, Eq, Structural)]
pub enum FileKind {
    File,
    Dir,
    Other,
}

/// A coarse classification of an I/O failure.
#[derive(Clone, Copy, Debug, PartialEq, Eq, Structural)]
pub enum ErrorKind {
    NotFound,
    PermissionDenied,
    AlreadyExists,
    InvalidInput,
    InvalidData,
    TimedOut,
    Interrupted,
    UnexpectedEof,
    Unsupported,
    OutOfMemory,
    Other,
}

/// What a walk recorded for one node.
#[derive(Clone, Copy, Debug)]
pub enum Entry {
    /// The node was inspected: its kind and its length in bytes.
    Metadata(FileKind, u64),
    /// The node was listed but its metadata could not be read; `None` when
    /// the failure carried no I/O error (a symbolic link loop).
    MetadataError(Option<ErrorKind>),
    /// The walk failed at this node with no further detail.
    EntryError,
    /// The walk failed at this node with an I/O error.
    EntryIoError(ErrorKind),
}

/// Whether two columns of a row differ; `None` stands for a path that is
/// absent from that tree.
pub open spec fn columns_differ(a: Option<Entry>, b: Option<Entry>) -> bool {
    match (a, b) {
        (Some(Entry::Metadata(ka, la)), Some(Entry::Metadata(kb, lb))) =>
            ka != kb || (ka != FileKind::Dir && la != lb),
        (Some(Entry::MetadataError(ea)), Some(Entry::MetadataError(eb))) => ea != eb,
        (Some(Entry::EntryError), Some(Entry::EntryError)) => false,
        (Some(Entry::EntryIoError(ea)), Some(Entry::EntryIoError(eb))) => ea != eb,
        _ => true,
    }
}

/// Whether a column holds a directory.
pub open spec fn is_dir_column(c: Option<Entry>) -> bool {
    match c {
        Some(Entry::Metadata(k, _)) => k == FileKind::Dir,
        _ => false,
    }
}

fn same_error(a: Option<ErrorKind>, b: Option<ErrorKind>) -> (r: bool)
    ensures
        r == (a == b),
{
    match (a, b) {
        (Some(x), Some(y)) => x == y,
        (None, None) => true,
        _ => false,
    }
}

/// Decides whether two neighbouring columns of a row differ.
pub fn entries_differ(a: Option<Entry>, b: Option<Entry>) -> (r: bool)
    ensures
        r == columns_differ(a, b),
{
    match (a, b) {
        (Some(Entry::Metadata(ka, la)), Some(Entry::Metadata(kb, lb))) =>
            ka != kb || (ka != FileKind::Dir && la != lb),
        (Some(Entry::MetadataError(ea)), Some(Entry::MetadataError(eb))) => !same_error(ea, eb),
        (Some(Entry::EntryError), Some(Entry::EntryError)) => false,
        (Some(Entry::EntryIoError(ea)), Some(Entry::EntryIoError(eb))) => ea != eb,
        _ => true,
    }
}

/// Whether a column holds a directory.
pub fn is_dir(c: Option<Entry>) -> (r: bool)
    ensures
        r == is_dir_column(c),
{
    match c {
        Some(Entry::Metadata(k, _)) => k == FileKind::Dir,
        _ => false,
    }
}

/// Two columns that hold the same entry never differ.
pub proof fn lemma_same_column_no_difference(c: Option<Entry>)
    requires
        c.is_some(),
    ensures
        !columns_differ(c, c),
{
}

/// Whether two columns differ does not depend on which one comes first.
pub proof fn lemma_columns_differ_symmetric(a: Option<Entry>, b: Option<Entry>)
    ensures
        columns_differ(a, b) == columns_differ(b, a),
{
}

/// Two failures without detail at the same path are judged equal, and such a
/// failure against inspected metadata always differs.
pub proof fn lemma_entry_errors(k: FileKind, len: u64)
    ensures
        !columns_differ(Some(Entry::EntryError), Some(Entry::EntryError)),
        columns_differ(Some(Entry::EntryError), Some(Entry::Metadata(k, len))),
        columns_differ(Some(Entry::Metadata(k, len)), Some(Entry::EntryError)),
{
}

} // verus!
