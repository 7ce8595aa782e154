//! The sources that an answer may show: those of its own library, or of its own
//! project and files, each once.

use vstd::prelude::*;

use crate::code::search::allowed_view;
use crate::models::{source_views, Source, SourceView};

verus! {

/// What tells the passages of source code apart.
pub open spec fn code_key(s: SourceView) -> (i64, i64, i64) {
    (s.project_id, s.file_id, s.chunk_id)
}

/// What tells the passages of documents apart.
pub open spec fn document_key(s: SourceView) -> (i64, Option<u32>, i64) {
    (s.document_id, s.page_number, s.chunk_id)
}

/// The passage stands in the project and, where files are named, in one of them.
pub open spec fn in_code_scope(s: SourceView, project_id: i64, allowed: Option<Seq<i64>>) -> bool {
    s.project_id == project_id && match allowed {
        Some(ids) => ids.contains(s.file_id),
        None => true,
    }
}

/// The first passage with each key, of those in the scope.
pub open spec fn code_scope(
    sources: Seq<SourceView>,
    project_id: i64,
    allowed: Option<Seq<i64>>,
) -> Seq<SourceView>
    decreases sources.len(),
{
    if sources.len() == 0 {
        seq![]
    } else {
        let before = code_scope(sources.drop_last(), project_id, allowed);
        let s = sources.last();
        if in_code_scope(s, project_id, allowed) && !has_code_key(before, code_key(s)) {
            before.push(s)
        } else {
            before
        }
    }
}

/// Some passage has the key.
pub open spec fn has_code_key(sources: Seq<SourceView>, key: (i64, i64, i64)) -> bool {
    exists|i: int| 0 <= i < sources.len() && code_key(#[trigger] sources[i]) == key
}

/// Some passage has the key.
pub open spec fn has_document_key(sources: Seq<SourceView>, key: (i64, Option<u32>, i64)) -> bool {
    exists|i: int| 0 <= i < sources.len() && document_key(#[trigger] sources[i]) == key
}

/// The first passage with each key, of those of allowed documents, as passages of
/// the library.
pub open spec fn library_scope(
    sources: Seq<SourceView>,
    library_id: i64,
    allowed: Seq<i64>,
) -> Seq<SourceView>
    decreases sources.len(),
{
    if sources.len() == 0 {
        seq![]
    } else {
        let before = library_scope(sources.drop_last(), library_id, allowed);
        let s = sources.last();
        if allowed.contains(s.document_id) && !has_document_key(before, document_key(s)) {
            before.push(SourceView { library_id, ..s })
        } else {
            before
        }
    }
}

/// Whether a number is in a list.
pub fn lists_id(ids: &Vec<i64>, id: i64) -> (r: bool)
    ensures
        r == ids@.contains(id),
{
    let mut i: usize = 0;
    while i < ids.len()
        invariant
            i <= ids.len(),
            forall|j: int| 0 <= j < i ==> ids@[j] != id,
        decreases ids.len() - i,
    {
        if ids[i] == id {
            return true;
        }
        i += 1;
    }
    false
}

fn code_key_seen(kept: &Vec<Source>, s: &Source) -> (r: bool)
    ensures
        r == has_code_key(source_views(kept@), code_key(s@)),
{
    let ghost all = source_views(kept@);
    let mut i: usize = 0;
    while i < kept.len()
        invariant
            i <= kept.len(),
            all == source_views(kept@),
            forall|j: int| 0 <= j < i ==> code_key(#[trigger] all[j]) != code_key(s@),
        decreases kept.len() - i,
    {
        assert(all[i as int] == kept@[i as int]@);
        if kept[i].project_id == s.project_id && kept[i].file_id == s.file_id && kept[i].chunk_id
            == s.chunk_id {
            return true;
        }
        i += 1;
    }
    false
}

fn document_key_seen(kept: &Vec<Source>, s: &Source) -> (r: bool)
    ensures
        r == has_document_key(source_views(kept@), document_key(s@)),
{
    let ghost all = source_views(kept@);
    let mut i: usize = 0;
    while i < kept.len()
        invariant
            i <= kept.len(),
            all == source_views(kept@),
            forall|j: int| 0 <= j < i ==> document_key(#[trigger] all[j]) != document_key(s@),
        decreases kept.len() - i,
    {
        assert(all[i as int] == kept@[i as int]@);
        let same_page = match (kept[i].page_number, s.page_number) {
            (Some(a), Some(b)) => a == b,
            (None, None) => true,
            _ => false,
        };
        if kept[i].document_id == s.document_id && same_page && kept[i].chunk_id == s.chunk_id {
            return true;
        }
        i += 1;
    }
    false
}

/// The sources of an answer about code: those of the project, of the allowed files
/// where some are named, each once.
pub fn sources_for_code_scope(
    sources: &Vec<Source>,
    project_id: i64,
    allowed_file_ids: &Option<Vec<i64>>,
) -> (r: Vec<Source>)
    ensures
        source_views(r@) == code_scope(
            source_views(sources@),
            project_id,
            allowed_view(*allowed_file_ids),
        ),
{
    let ghost all = source_views(sources@);
    let ghost allowed = allowed_view(*allowed_file_ids);
    let mut r: Vec<Source> = Vec::new();
    let mut i: usize = 0;
    assert(source_views(r@) =~= code_scope(all.take(0), project_id, allowed));
    while i < sources.len()
        invariant
            i <= sources.len(),
            all == source_views(sources@),
            allowed == allowed_view(*allowed_file_ids),
            source_views(r@) == code_scope(all.take(i as int), project_id, allowed),
        decreases sources.len() - i,
    {
        proof {
            assert(all.take(i + 1).drop_last() =~= all.take(i as int));
            assert(all[i as int] == sources@[i as int]@);
        }
        let listed = match allowed_file_ids {
            Some(ids) => lists_id(ids, sources[i].file_id),
            None => true,
        };
        if sources[i].project_id == project_id && listed && !code_key_seen(&r, &sources[i]) {
            let ghost before = source_views(r@);
            let s = sources[i].clone();
            r.push(s);
            assert(source_views(r@) =~= before.push(s@));
        }
        i += 1;
    }
    assert(all.take(i as int) =~= all);
    r
}

/// The sources of an answer about documents: those of the allowed documents, each
/// once, as sources of the library.
pub fn sources_for_library(
    sources: &Vec<Source>,
    library_id: i64,
    allowed_document_ids: &Vec<i64>,
) -> (r: Vec<Source>)
    ensures
        source_views(r@) == library_scope(
            source_views(sources@),
            library_id,
            allowed_document_ids@,
        ),
{
    let ghost all = source_views(sources@);
    let mut r: Vec<Source> = Vec::new();
    let mut i: usize = 0;
    assert(source_views(r@) =~= library_scope(all.take(0), library_id, allowed_document_ids@));
    while i < sources.len()
        invariant
            i <= sources.len(),
            all == source_views(sources@),
            source_views(r@) == library_scope(
                all.take(i as int),
                library_id,
                allowed_document_ids@,
            ),
        decreases sources.len() - i,
    {
        proof {
            assert(all.take(i + 1).drop_last() =~= all.take(i as int));
            assert(all[i as int] == sources@[i as int]@);
        }
        if lists_id(allowed_document_ids, sources[i].document_id) && !document_key_seen(
            &r,
            &sources[i],
        ) {
            let ghost before = source_views(r@);
            let mut s = sources[i].clone();
            s.library_id = library_id;
            r.push(s);
            assert(source_views(r@) =~= before.push(s@));
            assert(s@ == SourceView { library_id, ..all[i as int] });
        }
        i += 1;
    }
    assert(all.take(i as int) =~= all);
    r
}

/// An answer about code shows only sources of its project and of the allowed
/// files, and none twice.
pub proof fn law_code_sources_keep_to_scope(
    sources: Seq<SourceView>,
    project_id: i64,
    allowed: Option<Seq<i64>>,
)
    ensures
        forall|i: int|
            0 <= i < code_scope(sources, project_id, allowed).len() ==> in_code_scope(
                #[trigger] code_scope(sources, project_id, allowed)[i],
                project_id,
                allowed,
            ) && sources.contains(code_scope(sources, project_id, allowed)[i]),
        forall|i: int, j: int|
            0 <= i < j < code_scope(sources, project_id, allowed).len() ==> code_key(
                #[trigger] code_scope(sources, project_id, allowed)[i],
            ) != code_key(#[trigger] code_scope(sources, project_id, allowed)[j]),
    decreases sources.len(),
{
    if sources.len() > 0 {
        law_code_sources_keep_to_scope(sources.drop_last(), project_id, allowed);
        let before = code_scope(sources.drop_last(), project_id, allowed);
        let all = code_scope(sources, project_id, allowed);
        assert forall|i: int| 0 <= i < all.len() implies in_code_scope(
            #[trigger] all[i],
            project_id,
            allowed,
        ) && sources.contains(all[i]) by {
            if i < before.len() {
                assert(all[i] == before[i]);
                let k = sources.drop_last().index_of(before[i]);
                assert(sources[k] == all[i]);
            } else {
                assert(sources[sources.len() - 1] == all[i]);
            }
        }
        assert forall|i: int, j: int| 0 <= i < j < all.len() implies code_key(#[trigger] all[i])
            != code_key(#[trigger] all[j]) by {
            assert(all[i] == before[i]);
            if j < before.len() {
                assert(all[j] == before[j]);
            }
        }
    }
}

/// An answer about documents shows only sources of allowed documents, as sources
/// of the library, and none twice.
pub proof fn law_library_sources_keep_to_scope(
    sources: Seq<SourceView>,
    library_id: i64,
    allowed: Seq<i64>,
)
    ensures
        forall|i: int|
            0 <= i < library_scope(sources, library_id, allowed).len() ==> (
            #[trigger] library_scope(sources, library_id, allowed)[i]).library_id == library_id
                && allowed.contains(library_scope(sources, library_id, allowed)[i].document_id),
        forall|i: int, j: int|
            0 <= i < j < library_scope(sources, library_id, allowed).len() ==> document_key(
                #[trigger] library_scope(sources, library_id, allowed)[i],
            ) != document_key(#[trigger] library_scope(sources, library_id, allowed)[j]),
    decreases sources.len(),
{
    if sources.len() > 0 {
        law_library_sources_keep_to_scope(sources.drop_last(), library_id, allowed);
        let before = library_scope(sources.drop_last(), library_id, allowed);
        let all = library_scope(sources, library_id, allowed);
        assert forall|i: int| 0 <= i < all.len() implies (#[trigger] all[i]).library_id
            == library_id && allowed.contains(all[i].document_id) by {
            if i < before.len() {
                assert(all[i] == before[i]);
            }
        }
        assert forall|i: int, j: int| 0 <= i < j < all.len() implies document_key(
            #[trigger] all[i],
        ) != document_key(#[trigger] all[j]) by {
            assert(all[i] == before[i]);
            if j < before.len() {
                assert(all[j] == before[j]);
            }
        }
    }
}

} // verus!
