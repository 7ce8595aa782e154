//! How documents and projects are indexed: what is done with each, what is told
//! meanwhile, and how it ends.

use vstd::prelude::*;
use vstd::string::StringExecFns;

use crate::code::indexer::needs_reindex;
use crate::code::types::{
    file_views, CodeFile, CodeFileView, CodeProjectStatus, ReportView, ScanReport, ScannedCodeFile,
};
use crate::documents::{ParsedDocument, SectionView, EMBEDDING_BATCH_SIZE};
use crate::models::{chunk_views, Chunk, ChunkView};
use crate::rag::chunking::{chunk_document, cut_sections, ChunkLimits, Cut};
use crate::rag::embeddings::{prepare_embedding_chunks, prepared};
use crate::session::state::{Event, EventView};
use crate::text::{decimal, decimal_string, same};

verus! {

// -------------------------------------------------------------------- documents

/// What becomes of a document that is to be indexed.
#[derive(Debug, Clone, Copy, PartialEq, Eq, Structural)]
pub enum DocumentPlan {
    /// It takes the place of an earlier version.
    Replace(i64),
    /// It is a new one.
    Create,
    /// The library has it already.
    Refuse,
}

/// What is said of a document that the library has already.
pub const DUPLICATE_DOCUMENT: &'static str =
    "Este documento ya existe en la biblioteca. Usa Reindexar para reemplazar sus chunks.";

/// What is said of a document without text.
pub const EMPTY_DOCUMENT: &'static str = "El documento no produjo fragmentos utiles.";

/// What becomes of a document: whether it replaces one is told, and whether the
/// library holds one with the same contents.
pub fn plan_document(replaces: Option<i64>, known: bool) -> (r: DocumentPlan)
    ensures
        r == match replaces {
            Some(id) => DocumentPlan::Replace(id),
            None => if known {
                DocumentPlan::Refuse
            } else {
                DocumentPlan::Create
            },
        },
{
    match replaces {
        Some(id) => DocumentPlan::Replace(id),
        None => if known {
            DocumentPlan::Refuse
        } else {
            DocumentPlan::Create
        },
    }
}

/// The chunks as chunks of a document.
pub open spec fn owned_by(chunks: Seq<ChunkView>, document_id: i64) -> Seq<ChunkView> {
    chunks.map_values(|c: ChunkView| ChunkView { document_id, ..c })
}

/// The chunks that a document is cut into, without limits on their number and size.
pub open spec fn whole_cut(sections: Seq<SectionView>, size: usize, overlap: usize) -> Seq<
    ChunkView,
> {
    match cut_sections(sections, ChunkLimits::spec_of(size, overlap, usize::MAX, usize::MAX)) {
        Cut::Going(c) => c.done,
        _ => seq![],
    }
}

/// Cuts a document into chunks that are small enough to be embedded; `None` where it
/// has no text.
pub fn cut_document(document: &ParsedDocument, document_id: i64, size: usize, overlap: usize) -> (r:
    Option<Vec<Chunk>>)
    ensures
        ({
            let cut = whole_cut(document@.sections, size, overlap);
            match r {
                Some(v) => cut.len() > 0 && chunk_views(v@) == prepared(
                    owned_by(cut, document_id),
                ),
                None => cut.len() == 0,
            }
        }),
{
    let chunks = chunk_document(document, size, overlap);
    assert(chunk_views(chunks@).len() == chunks@.len());
    if chunks.len() == 0 {
        return None;
    }
    let ghost goal = owned_by(chunk_views(chunks@), document_id);
    let mut own: Vec<Chunk> = Vec::new();
    let mut i: usize = 0;
    while i < chunks.len()
        invariant
            i <= chunks.len(),
            goal == owned_by(chunk_views(chunks@), document_id),
            chunk_views(own@) == goal.take(i as int),
        decreases chunks.len() - i,
    {
        let ghost before = chunk_views(own@);
        let mut chunk = chunks[i].clone();
        chunk.document_id = document_id;
        own.push(chunk);
        assert(chunk_views(own@) =~= before.push(chunk@));
        assert(goal[i as int] == (ChunkView { document_id, ..chunks@[i as int]@ }));
        assert(chunk_views(own@) =~= goal.take(i + 1));
        i += 1;
    }
    assert(goal.take(i as int) =~= goal);
    Some(prepare_embedding_chunks(&own))
}

/// The end of the batch that begins at a chunk.
pub open spec fn batch_end(total: nat, from: nat) -> nat {
    if total - from < EMBEDDING_BATCH_SIZE {
        total
    } else {
        from + EMBEDDING_BATCH_SIZE as nat
    }
}

/// What is told while embeddings are made.
pub open spec fn embedding_progress(done: nat, total: nat) -> Seq<char> {
    "Generando embeddings "@ + decimal(done) + "/"@ + decimal(total) + "..."@
}

/// The next chunks that are embedded together, and what is told meanwhile.
pub fn next_batch(chunks: &Vec<Chunk>, from: usize) -> (r: (Vec<Chunk>, String))
    requires
        from <= chunks@.len(),
    ensures
        chunk_views(r.0@) == chunk_views(chunks@).subrange(
            from as int,
            batch_end(chunks@.len(), from as nat) as int,
        ),
        r.0@.len() <= EMBEDDING_BATCH_SIZE,
        from < chunks@.len() ==> r.0@.len() > 0,
        r.1@ == embedding_progress(batch_end(chunks@.len(), from as nat), chunks@.len()),
{
    let total = chunks.len();
    let end = if total - from < EMBEDDING_BATCH_SIZE {
        total
    } else {
        from + EMBEDDING_BATCH_SIZE
    };
    let ghost all = chunk_views(chunks@);
    let mut batch: Vec<Chunk> = Vec::new();
    let mut i: usize = from;
    assert(chunk_views(batch@) =~= all.subrange(from as int, from as int));
    while i < end
        invariant
            from <= i <= end <= chunks.len(),
            all == chunk_views(chunks@),
            chunk_views(batch@) == all.subrange(from as int, i as int),
        decreases end - i,
    {
        let ghost before = chunk_views(batch@);
        let chunk = chunks[i].clone();
        batch.push(chunk);
        assert(chunk_views(batch@) =~= before.push(chunk@));
        assert(chunk_views(batch@) =~= all.subrange(from as int, i + 1));
        i += 1;
    }
    assert(chunk_views(batch@).len() == batch@.len());
    let mut text = "Generando embeddings ".to_owned();
    text.append(decimal_string(end as u128).as_str());
    text.append("/");
    text.append(decimal_string(total as u128).as_str());
    text.append("...");
    (batch, text)
}

/// The batches of a document, one behind the other, are its chunks.
pub proof fn law_batches_cover_the_document(chunks: Seq<ChunkView>, from: nat)
    requires
        from <= chunks.len(),
    ensures
        batches_from(chunks, from) == chunks.skip(from as int),
    decreases chunks.len() - from,
{
    if from < chunks.len() {
        let end = batch_end(chunks.len(), from);
        law_batches_cover_the_document(chunks, end);
        assert(chunks.subrange(from as int, end as int) + chunks.skip(end as int) =~= chunks.skip(
            from as int,
        ));
    } else {
        assert(chunks.skip(from as int) =~= seq![]);
    }
}

/// The batches from a chunk on, one behind the other.
pub open spec fn batches_from(chunks: Seq<ChunkView>, from: nat) -> Seq<ChunkView>
    decreases chunks.len() - from,
{
    if from >= chunks.len() {
        seq![]
    } else {
        chunks.subrange(from as int, batch_end(chunks.len(), from) as int) + batches_from(
            chunks,
            batch_end(chunks.len(), from),
        )
    }
}

/// The chunks, numbered from zero.
pub open spec fn numbered(chunks: Seq<ChunkView>) -> Seq<ChunkView> {
    Seq::new(chunks.len(), |i: int| ChunkView { chunk_index: i as usize, ..chunks[i] })
}

/// Numbers the chunks of a document from zero, in their order.
pub fn number_chunks(chunks: &Vec<Chunk>) -> (r: Vec<Chunk>)
    ensures
        chunk_views(r@) == numbered(chunk_views(chunks@)),
{
    let ghost goal = numbered(chunk_views(chunks@));
    let mut r: Vec<Chunk> = Vec::new();
    let mut i: usize = 0;
    while i < chunks.len()
        invariant
            i <= chunks.len(),
            goal == numbered(chunk_views(chunks@)),
            chunk_views(r@) == goal.take(i as int),
        decreases chunks.len() - i,
    {
        let ghost before = chunk_views(r@);
        let mut chunk = chunks[i].clone();
        chunk.chunk_index = i;
        r.push(chunk);
        assert(chunk_views(r@) =~= before.push(chunk@));
        assert(chunk_views(r@) =~= goal.take(i + 1));
        i += 1;
    }
    assert(goal.take(i as int) =~= goal);
    r
}

/// What is told of a document that was indexed.
pub fn document_ready_text(name: &str, count: usize) -> (r: String)
    ensures
        r@ == "Documento listo: "@ + name@ + " ("@ + decimal(count as nat) + " fragmentos)."@,
{
    let mut r = "Documento listo: ".to_owned();
    r.append(name);
    r.append(" (");
    r.append(decimal_string(count as u128).as_str());
    r.append(" fragmentos).");
    r
}

// --------------------------------------------------------------------- projects

/// The last file with the path, if there is one.
pub open spec fn known_file(files: Seq<CodeFileView>, path: Seq<char>) -> Option<CodeFileView>
    decreases files.len(),
{
    if files.len() == 0 {
        None
    } else if files.last().relative_path == path {
        Some(files.last())
    } else {
        known_file(files.drop_last(), path)
    }
}

/// The file was indexed with the same contents and without an error.
pub open spec fn is_up_to_date(files: Seq<CodeFileView>, path: Seq<char>, hash: Seq<char>) -> bool {
    match known_file(files, path) {
        Some(file) => file.error is None && file.hash == hash,
        None => false,
    }
}

/// Whether a file need not be indexed again.
pub fn is_unchanged(files: &Vec<CodeFile>, path: &str, hash: &str) -> (r: bool)
    ensures
        r == is_up_to_date(file_views(files@), path@, hash@),
{
    let ghost all = file_views(files@);
    let mut i: usize = files.len();
    assert(all.take(i as int) =~= all);
    while i > 0
        invariant
            i <= files.len(),
            all == file_views(files@),
            known_file(all, path@) == known_file(all.take(i as int), path@),
        decreases i,
    {
        proof {
            assert(all.take(i as int).drop_last() =~= all.take(i - 1));
            assert(all[i - 1] == files@[i - 1]@);
        }
        if same(files[i - 1].relative_path.as_str(), path) {
            return files[i - 1].error.is_none() && !needs_reindex(
                Some(files[i - 1].hash.as_str()),
                hash,
            );
        }
        i -= 1;
    }
    false
}

/// How far the indexing of a project is.
#[derive(Debug, Clone, Copy, PartialEq, Eq, Structural)]
pub struct CodeRun {
    /// The files that were found.
    pub files: usize,
    /// Those that need not be indexed again.
    pub unchanged: usize,
    /// Those that could not be read.
    pub unreadable: usize,
    /// Those that wait to be indexed.
    pub pending: usize,
    /// Those of them that were taken up.
    pub started: usize,
    /// Those of them that failed.
    pub refused: usize,
    /// What went wrong while the files were looked for.
    pub scan_errors: usize,
    /// Nothing was missed while the files were looked for.
    pub complete: bool,
}

impl CodeRun {
    /// Each file is counted once, and no more fail than were taken up.
    pub open spec fn wf(self) -> bool {
        &&& self.unchanged + self.unreadable + self.pending <= self.files
        &&& self.refused <= self.started <= self.pending
    }

    /// The failures of a run.
    pub open spec fn failures(self) -> int {
        self.scan_errors + self.refused
    }

    /// Begins with what a scan has found.
    pub fn begin(report: &ScanReport) -> (r: CodeRun)
        ensures
            r == (CodeRun {
                files: report@.files.len() as usize,
                unchanged: 0,
                unreadable: 0,
                pending: 0,
                started: 0,
                refused: 0,
                scan_errors: report@.errors.len() as usize,
                complete: report@.complete,
            }),
            r.wf(),
    {
        assert(report@.files.len() == report.files@.len());
        assert(report@.errors.len() == report.errors@.len());
        CodeRun {
            files: report.files.len(),
            unchanged: 0,
            unreadable: 0,
            pending: 0,
            started: 0,
            refused: 0,
            scan_errors: report.errors.len(),
            complete: report.is_complete(),
        }
    }

    /// What is told when the files were found.
    pub fn found_text(&self) -> (r: String)
        ensures
            r@ == "Indexando... "@ + decimal(self.files as nat) + " archivos detectados"@,
    {
        let mut r = "Indexando... ".to_owned();
        r.append(decimal_string(self.files as u128).as_str());
        r.append(" archivos detectados");
        r
    }

    /// Counts a file that was read. Says whether it need not be indexed again.
    pub fn read(&mut self, files: &Vec<CodeFile>, path: &str, hash: &str) -> (r: bool)
        requires
            old(self).wf(),
            old(self).unchanged + old(self).unreadable + old(self).pending < old(self).files,
        ensures
            r == is_up_to_date(file_views(files@), path@, hash@),
            *final(self) == if r {
                CodeRun { unchanged: (old(self).unchanged + 1) as usize, ..*old(self) }
            } else {
                CodeRun { pending: (old(self).pending + 1) as usize, ..*old(self) }
            },
            final(self).wf(),
    {
        if is_unchanged(files, path, hash) {
            self.unchanged = self.unchanged + 1;
            true
        } else {
            self.pending = self.pending + 1;
            false
        }
    }

    /// Counts a file that could not be read.
    pub fn unreadable_file(&mut self)
        requires
            old(self).wf(),
            old(self).unchanged + old(self).unreadable + old(self).pending < old(self).files,
        ensures
            *final(self) == (CodeRun {
                unreadable: (old(self).unreadable + 1) as usize,
                ..*old(self)
            }),
            final(self).wf(),
    {
        self.unreadable = self.unreadable + 1;
    }

    /// Takes up the next waiting file, and tells so.
    pub fn start(&mut self, path: &str) -> (r: String)
        requires
            old(self).wf(),
            old(self).started < old(self).pending,
        ensures
            *final(self) == (CodeRun { started: (old(self).started + 1) as usize, ..*old(self) }),
            final(self).wf(),
            r@ == "Indexando... "@ + path@ + " ("@ + decimal(final(self).started as nat) + "/"@
                + decimal((old(self).files - old(self).unchanged) as nat) + ")"@,
    {
        self.started = self.started + 1;
        let mut r = "Indexando... ".to_owned();
        r.append(path);
        r.append(" (");
        r.append(decimal_string(self.started as u128).as_str());
        r.append("/");
        r.append(decimal_string((self.files - self.unchanged) as u128).as_str());
        r.append(")");
        r
    }

    /// Counts that the file that was taken up failed.
    pub fn refuse(&mut self)
        requires
            old(self).wf(),
            old(self).refused < old(self).started,
        ensures
            *final(self) == (CodeRun { refused: (old(self).refused + 1) as usize, ..*old(self) }),
            final(self).wf(),
    {
        self.refused = self.refused + 1;
    }

    /// What is told of a project that was indexed.
    pub fn ready_text(&self, chunks: usize) -> (r: String)
        ensures
            r@ == "Proyecto listo: "@ + decimal(self.files as nat) + " archivos, "@ + decimal(
                chunks as nat,
            ) + " fragmentos, "@ + decimal(self.unchanged as nat) + " sin cambios, "@ + decimal(
                self.failures() as nat,
            ) + " errores"@,
    {
        let mut r = "Proyecto listo: ".to_owned();
        r.append(decimal_string(self.files as u128).as_str());
        r.append(" archivos, ");
        r.append(decimal_string(chunks as u128).as_str());
        r.append(" fragmentos, ");
        r.append(decimal_string(self.unchanged as u128).as_str());
        r.append(" sin cambios, ");
        r.append(decimal_string(self.scan_errors as u128 + self.refused as u128).as_str());
        r.append(" errores");
        r
    }

    /// Whether the stored files that were not found are taken out: only where the whole
    /// project was looked through and nothing was missed meanwhile.
    pub fn prunes(&self, single_file: bool) -> (r: bool)
        ensures
            r == (!single_file && self.complete),
    {
        !single_file && self.complete
    }

    /// The status of a project that was indexed to the end.
    pub fn status(&self) -> (r: CodeProjectStatus)
        ensures
            r == CodeProjectStatus::Ready,
    {
        CodeProjectStatus::Ready
    }
}

/// The name of a project, by the name of its folder.
pub fn project_name(folder: Option<String>) -> (r: String)
    ensures
        r@ == match folder {
            Some(name) => name@,
            None => "Proyecto"@,
        },
{
    match folder {
        Some(name) => name,
        None => "Proyecto".to_owned(),
    }
}

/// What a scan of a single file has found.
pub fn single_file_report(file: ScannedCodeFile) -> (r: ScanReport)
    ensures
        r@ == (ReportView {
            files: seq![file@],
            skipped: 0,
            errors: seq![],
            complete: true,
            reasons: seq![],
        }),
{
    let mut r = ScanReport::complete();
    r.add_file(file);
    assert(r@.files =~= seq![file@]);
    r
}

/// The status that is stored for a project whose indexing did not end well.
pub open spec fn end_mark(cancelled: bool, failed: bool, project: Option<i64>) -> Option<
    (i64, CodeProjectStatus),
> {
    match project {
        Some(id) => if cancelled {
            Some((id, CodeProjectStatus::Partial))
        } else if failed {
            Some((id, CodeProjectStatus::Failed))
        } else {
            None
        },
        None => None,
    }
}

/// How the indexing of a project ends: the status that is stored for it where it is
/// known and did not end well, and what is told.
pub fn code_index_outcome(
    cancelled: bool,
    project: Option<i64>,
    result: Result<(i64, String), String>,
) -> (r: (Option<(i64, CodeProjectStatus)>, Event))
    ensures
        r.0 == end_mark(cancelled, result is Err, project),
        r.1@ == if cancelled {
            EventView::CodeIndexCancelled(project)
        } else {
            Event::CodeIndexFinished(result)@
        },
{
    if cancelled {
        let mark = match project {
            Some(id) => Some((id, CodeProjectStatus::Partial)),
            None => None,
        };
        return (mark, Event::CodeIndexCancelled(project));
    }
    let mark = match (&result, project) {
        (Err(_), Some(id)) => Some((id, CodeProjectStatus::Failed)),
        _ => None,
    };
    (mark, Event::CodeIndexFinished(result))
}

/// Indexing that was given up or failed never leaves a project ready, whatever the
/// project was before.
pub proof fn law_only_success_makes_ready(cancelled: bool, failed: bool, project: i64)
    requires
        cancelled || failed,
    ensures
        end_mark(cancelled, failed, Some(project)) matches Some((id, status)) && id == project
            && status != CodeProjectStatus::Ready && CodeProjectStatus::Indexing.may_become(status),
{
}

/// A file need not be indexed again exactly where the last entry with its path has the
/// same hash and no error.
pub proof fn law_up_to_date(files: Seq<CodeFileView>, path: Seq<char>, hash: Seq<char>)
    ensures
        is_up_to_date(files, path, hash) <==> exists|i: int|
            {
                &&& 0 <= i < files.len()
                &&& (#[trigger] files[i]).relative_path == path
                &&& files[i].error is None
                &&& files[i].hash == hash
                &&& forall|j: int|
                    i < j < files.len() ==> (#[trigger] files[j]).relative_path != path
            },
    decreases files.len(),
{
    if files.len() > 0 {
        let p = files.drop_last();
        let n = files.len() - 1;
        if files[n].relative_path == path {
            if exists|i: int|
                {
                    &&& 0 <= i < files.len()
                    &&& (#[trigger] files[i]).relative_path == path
                    &&& files[i].error is None
                    &&& files[i].hash == hash
                    &&& forall|j: int|
                        i < j < files.len() ==> (#[trigger] files[j]).relative_path != path
                } {
                let i = choose|i: int|
                    {
                        &&& 0 <= i < files.len()
                        &&& (#[trigger] files[i]).relative_path == path
                        &&& files[i].error is None
                        &&& files[i].hash == hash
                        &&& forall|j: int|
                            i < j < files.len() ==> (#[trigger] files[j]).relative_path != path
                    };
                assert(i == n);
            }
        } else {
            law_up_to_date(p, path, hash);
            if is_up_to_date(files, path, hash) {
                let i = choose|i: int|
                    {
                        &&& 0 <= i < p.len()
                        &&& (#[trigger] p[i]).relative_path == path
                        &&& p[i].error is None
                        &&& p[i].hash == hash
                        &&& forall|j: int|
                            i < j < p.len() ==> (#[trigger] p[j]).relative_path != path
                    };
                assert(files[i] == p[i]);
                assert forall|j: int| i < j < files.len() implies (
                #[trigger] files[j]).relative_path != path by {
                    if j < n {
                        assert(p[j] == files[j]);
                    }
                }
            }
            if exists|i: int|
                {
                    &&& 0 <= i < files.len()
                    &&& (#[trigger] files[i]).relative_path == path
                    &&& files[i].error is None
                    &&& files[i].hash == hash
                    &&& forall|j: int|
                        i < j < files.len() ==> (#[trigger] files[j]).relative_path != path
                } {
                let i = choose|i: int|
                    {
                        &&& 0 <= i < files.len()
                        &&& (#[trigger] files[i]).relative_path == path
                        &&& files[i].error is None
                        &&& files[i].hash == hash
                        &&& forall|j: int|
                            i < j < files.len() ==> (#[trigger] files[j]).relative_path != path
                    };
                assert(p[i] == files[i]);
                assert forall|j: int| i < j < p.len() implies (#[trigger] p[j]).relative_path
                    != path by {
                    assert(files[j] == p[j]);
                }
            }
        }
    }
}

/// The chunks of a document belong to it and are otherwise as they were; numbering them
/// gives each its place and changes nothing else.
pub proof fn law_chunks_are_owned_and_numbered(chunks: Seq<ChunkView>, document_id: i64)
    requires
        chunks.len() <= usize::MAX,
    ensures
        owned_by(chunks, document_id).len() == chunks.len(),
        numbered(chunks).len() == chunks.len(),
        forall|i: int|
            0 <= i < chunks.len() ==> {
                let o = #[trigger] owned_by(chunks, document_id)[i];
                &&& o.document_id == document_id
                &&& o == (ChunkView { document_id: o.document_id, ..chunks[i] })
            },
        forall|i: int|
            0 <= i < chunks.len() ==> {
                let o = #[trigger] numbered(chunks)[i];
                &&& o.chunk_index == i
                &&& o == (ChunkView { chunk_index: o.chunk_index, ..chunks[i] })
            },
{
}

} // verus!
