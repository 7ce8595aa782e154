//! What can be asked in the window of libraries and documents.

use vstd::prelude::*;

verus! {

/// A request made in the window of libraries.
#[derive(Debug, Clone, Copy, PartialEq, Eq, Structural)]
pub enum LibraryAction {
    BackToChat,
    Create,
    Select(i64),
    Rename(i64),
    Delete(i64),
    AddDocument,
    CancelIndexing,
    DeleteDocument(i64),
    Reindex(i64),
}

/// Whether a document can be added: a library is selected and none is being
/// indexed.
pub fn can_add_document(selected: Option<i64>, indexing: bool) -> (r: bool)
    ensures
        r == (selected is Some && !indexing),
{
    selected.is_some() && !indexing
}

} // verus!
