//! Projects, files and chunks of source code, and the outcome of a scan.

use vstd::prelude::*;

use crate::models::{copy_bits, copy_opt_text, opt_text};
use crate::text::{same, views};

verus! {

pub const PROJECT_READY: &'static str = "ready";

pub const PROJECT_PARTIAL: &'static str = "partial";

pub const PROJECT_FAILED: &'static str = "failed";

pub const PROJECT_INDEXING: &'static str = "indexing";

/// The state of a project's index.
#[derive(Debug, Clone, Copy, PartialEq, Eq, Structural)]
pub enum CodeProjectStatus {
    Indexing,
    Ready,
    Partial,
    Failed,
}

impl CodeProjectStatus {
    pub open spec fn spec_as_str(self) -> Seq<char> {
        match self {
            CodeProjectStatus::Indexing => PROJECT_INDEXING@,
            CodeProjectStatus::Ready => PROJECT_READY@,
            CodeProjectStatus::Partial => PROJECT_PARTIAL@,
            CodeProjectStatus::Failed => PROJECT_FAILED@,
        }
    }

    /// The name under which the status is stored.
    pub fn as_str(self) -> (r: &'static str)
        ensures
            r@ == self.spec_as_str(),
    {
        match self {
            CodeProjectStatus::Indexing => PROJECT_INDEXING,
            CodeProjectStatus::Ready => PROJECT_READY,
            CodeProjectStatus::Partial => PROJECT_PARTIAL,
            CodeProjectStatus::Failed => PROJECT_FAILED,
        }
    }

    /// The status that a stored name stands for, with the names of older versions.
    pub open spec fn parsed(value: Seq<char>) -> Option<CodeProjectStatus> {
        if value == PROJECT_INDEXING@ || value == "escaneando"@ {
            Some(CodeProjectStatus::Indexing)
        } else if value == PROJECT_READY@ || value == "listo"@ {
            Some(CodeProjectStatus::Ready)
        } else if value == PROJECT_PARTIAL@ {
            Some(CodeProjectStatus::Partial)
        } else if value == PROJECT_FAILED@ {
            Some(CodeProjectStatus::Failed)
        } else {
            None
        }
    }

    /// The status that a stored name stands for.
    pub fn parse(value: &str) -> (r: Option<CodeProjectStatus>)
        ensures
            r == CodeProjectStatus::parsed(value@),
    {
        if same(value, PROJECT_INDEXING) || same(value, "escaneando") {
            Some(CodeProjectStatus::Indexing)
        } else if same(value, PROJECT_READY) || same(value, "listo") {
            Some(CodeProjectStatus::Ready)
        } else if same(value, PROJECT_PARTIAL) {
            Some(CodeProjectStatus::Partial)
        } else if same(value, PROJECT_FAILED) {
            Some(CodeProjectStatus::Failed)
        } else {
            None
        }
    }

    /// A project that is being indexed can end in any state; one that is ready can
    /// turn out partial or failed, a partial one failed. What has not succeeded
    /// becomes ready only by being indexed anew.
    pub open spec fn may_become(self, next: CodeProjectStatus) -> bool {
        match self {
            CodeProjectStatus::Indexing => next != CodeProjectStatus::Indexing,
            CodeProjectStatus::Ready => next != CodeProjectStatus::Ready,
            CodeProjectStatus::Partial => next == CodeProjectStatus::Indexing || next
                == CodeProjectStatus::Failed,
            CodeProjectStatus::Failed => next == CodeProjectStatus::Indexing,
        }
    }

    /// Whether the state may follow.
    pub fn can_transition_to(self, next: CodeProjectStatus) -> (r: bool)
        ensures
            r == self.may_become(next),
    {
        match self {
            CodeProjectStatus::Indexing => next != CodeProjectStatus::Indexing,
            CodeProjectStatus::Ready => next != CodeProjectStatus::Ready,
            CodeProjectStatus::Partial => {
                next == CodeProjectStatus::Indexing || next == CodeProjectStatus::Failed
            },
            CodeProjectStatus::Failed => next == CodeProjectStatus::Indexing,
        }
    }
}

/// Reading back the stored name of a status gives the status.
pub proof fn law_status_round_trip(s: CodeProjectStatus)
    ensures
        CodeProjectStatus::parsed(s.spec_as_str()) == Some(s),
{
    reveal_strlit("ready");
    reveal_strlit("partial");
    reveal_strlit("failed");
    reveal_strlit("indexing");
    reveal_strlit("listo");
    reveal_strlit("escaneando");
    assert("ready"@[0] == 'r');
    assert("partial"@[0] == 'p');
    assert("failed"@[0] == 'f');
    assert("indexing"@[0] == 'i');
    assert("listo"@[0] == 'l');
    assert("escaneando"@[0] == 'e');
}

/// A partial or failed project becomes ready only by being indexed anew.
pub proof fn law_ready_only_after_indexing(from: CodeProjectStatus)
    requires
        from.may_become(CodeProjectStatus::Ready),
    ensures
        from == CodeProjectStatus::Indexing,
{
}

/// A folder of source code.
#[derive(Debug, PartialEq, Eq)]
pub struct CodeProject {
    pub id: i64,
    pub name: String,
    pub root_path: String,
    pub status: String,
    pub last_opened: String,
}

/// A file of a project.
#[derive(Debug, PartialEq, Eq)]
pub struct CodeFile {
    pub id: i64,
    pub project_id: i64,
    pub relative_path: String,
    pub hash: String,
    pub extension: String,
    pub language: String,
    pub size_bytes: u64,
    pub error: Option<String>,
}

/// What a `CodeFile` holds.
pub struct CodeFileView {
    pub id: i64,
    pub project_id: i64,
    pub relative_path: Seq<char>,
    pub hash: Seq<char>,
    pub extension: Seq<char>,
    pub language: Seq<char>,
    pub size_bytes: u64,
    pub error: Option<Seq<char>>,
}

impl View for CodeFile {
    type V = CodeFileView;

    open spec fn view(&self) -> CodeFileView {
        CodeFileView {
            id: self.id,
            project_id: self.project_id,
            relative_path: self.relative_path@,
            hash: self.hash@,
            extension: self.extension@,
            language: self.language@,
            size_bytes: self.size_bytes,
            error: opt_text(self.error),
        }
    }
}

impl Clone for CodeFile {
    fn clone(&self) -> (r: CodeFile)
        ensures
            r@ == self@,
    {
        CodeFile {
            id: self.id,
            project_id: self.project_id,
            relative_path: self.relative_path.clone(),
            hash: self.hash.clone(),
            extension: self.extension.clone(),
            language: self.language.clone(),
            size_bytes: self.size_bytes,
            error: copy_opt_text(&self.error),
        }
    }
}

/// The views of a list of files.
pub open spec fn file_views(v: Seq<CodeFile>) -> Seq<CodeFileView> {
    v.map_values(|f: CodeFile| f@)
}

/// Some lines of a file with their embedding, each component as the bits of a
/// single-precision number.
#[derive(Debug, PartialEq, Eq)]
pub struct CodeChunk {
    pub id: i64,
    pub project_id: i64,
    pub file_id: i64,
    pub relative_path: String,
    pub extension: String,
    pub language: String,
    pub chunk_index: usize,
    pub line_start: usize,
    pub line_end: usize,
    pub content: String,
    pub embedding: Vec<u32>,
}

/// What a `CodeChunk` holds.
pub struct CodeChunkView {
    pub id: i64,
    pub project_id: i64,
    pub file_id: i64,
    pub relative_path: Seq<char>,
    pub extension: Seq<char>,
    pub language: Seq<char>,
    pub chunk_index: usize,
    pub line_start: usize,
    pub line_end: usize,
    pub content: Seq<char>,
    pub embedding: Seq<u32>,
}

impl View for CodeChunk {
    type V = CodeChunkView;

    open spec fn view(&self) -> CodeChunkView {
        CodeChunkView {
            id: self.id,
            project_id: self.project_id,
            file_id: self.file_id,
            relative_path: self.relative_path@,
            extension: self.extension@,
            language: self.language@,
            chunk_index: self.chunk_index,
            line_start: self.line_start,
            line_end: self.line_end,
            content: self.content@,
            embedding: self.embedding@,
        }
    }
}

impl Clone for CodeChunk {
    fn clone(&self) -> (r: CodeChunk)
        ensures
            r@ == self@,
    {
        CodeChunk {
            id: self.id,
            project_id: self.project_id,
            file_id: self.file_id,
            relative_path: self.relative_path.clone(),
            extension: self.extension.clone(),
            language: self.language.clone(),
            chunk_index: self.chunk_index,
            line_start: self.line_start,
            line_end: self.line_end,
            content: self.content.clone(),
            embedding: copy_bits(&self.embedding),
        }
    }
}

/// The views of a list of chunks.
pub open spec fn code_chunk_views(v: Seq<CodeChunk>) -> Seq<CodeChunkView> {
    v.map_values(|c: CodeChunk| c@)
}

/// A file that a scan found.
#[derive(Debug, PartialEq, Eq)]
pub struct ScannedCodeFile {
    pub absolute_path: String,
    pub relative_path: String,
    pub extension: String,
    pub language: String,
    pub size_bytes: u64,
}

/// What a `ScannedCodeFile` holds.
pub struct ScannedView {
    pub absolute_path: Seq<char>,
    pub relative_path: Seq<char>,
    pub extension: Seq<char>,
    pub language: Seq<char>,
    pub size_bytes: u64,
}

impl View for ScannedCodeFile {
    type V = ScannedView;

    open spec fn view(&self) -> ScannedView {
        ScannedView {
            absolute_path: self.absolute_path@,
            relative_path: self.relative_path@,
            extension: self.extension@,
            language: self.language@,
            size_bytes: self.size_bytes,
        }
    }
}

impl Clone for ScannedCodeFile {
    fn clone(&self) -> (r: ScannedCodeFile)
        ensures
            r@ == self@,
    {
        ScannedCodeFile {
            absolute_path: self.absolute_path.clone(),
            relative_path: self.relative_path.clone(),
            extension: self.extension.clone(),
            language: self.language.clone(),
            size_bytes: self.size_bytes,
        }
    }
}

/// The views of a list of scanned files.
pub open spec fn scanned_views(v: Seq<ScannedCodeFile>) -> Seq<ScannedView> {
    v.map_values(|f: ScannedCodeFile| f@)
}

/// Why a scan has not seen everything.
#[derive(Debug, Clone, Copy, PartialEq, Eq, Structural)]
pub enum ScanPartialReason {
    FileLimit,
    TotalBytesLimit,
    DepthLimit,
    FileSizeLimit,
    TraversalError,
    ReadError,
    SourceChanged,
    EmbeddingError,
    Cancelled,
    SingleFileScope,
}

/// Whether a scan has seen everything.
#[derive(Debug, PartialEq, Eq)]
pub enum ScanCompleteness {
    Complete,
    Partial(Vec<ScanPartialReason>),
}

/// The outcome of a scan.
#[derive(Debug, PartialEq, Eq)]
pub struct ScanReport {
    pub files: Vec<ScannedCodeFile>,
    pub skipped: usize,
    pub errors: Vec<String>,
    pub completeness: ScanCompleteness,
}

/// What a `ScanReport` holds; `reasons` is empty where the scan is complete.
pub struct ReportView {
    pub files: Seq<ScannedView>,
    pub skipped: nat,
    pub errors: Seq<Seq<char>>,
    pub complete: bool,
    pub reasons: Seq<ScanPartialReason>,
}

impl View for ScanReport {
    type V = ReportView;

    open spec fn view(&self) -> ReportView {
        ReportView {
            files: scanned_views(self.files@),
            skipped: self.skipped as nat,
            errors: views(self.errors@),
            complete: self.completeness is Complete,
            reasons: match self.completeness {
                ScanCompleteness::Complete => seq![],
                ScanCompleteness::Partial(r) => r@,
            },
        }
    }
}

impl ReportView {
    /// The report with one more reason why it is partial.
    pub open spec fn partial(self, reason: ScanPartialReason) -> ReportView {
        ReportView {
            complete: false,
            reasons: if self.reasons.contains(reason) {
                self.reasons
            } else {
                self.reasons.push(reason)
            },
            ..self
        }
    }

    /// The report with one more entry that was passed over.
    pub open spec fn skip(self) -> ReportView {
        ReportView { skipped: self.skipped + 1, ..self }
    }

    /// The report with one more error, which makes it partial.
    pub open spec fn failed(self, error: Seq<char>) -> ReportView {
        ReportView { errors: self.errors.push(error), ..self }.partial(
            ScanPartialReason::TraversalError,
        )
    }

    /// The report with one more file.
    pub open spec fn with_file(self, file: ScannedView) -> ReportView {
        ReportView { files: self.files.push(file), ..self }
    }

    /// A complete report has no reasons, a partial one has some, and no reason is
    /// given twice.
    pub open spec fn wf(self) -> bool {
        &&& self.complete == (self.reasons.len() == 0)
        &&& self.reasons.no_duplicates()
    }
}

/// A report that is partial stays partial, with the reasons it had.
pub proof fn law_partial_is_final(r: ReportView, reason: ScanPartialReason)
    requires
        r.wf(),
    ensures
        r.partial(reason).wf(),
        !r.partial(reason).complete,
        r.partial(reason).reasons.contains(reason),
        forall|x: ScanPartialReason|
            r.reasons.contains(x) ==> #[trigger] r.partial(reason).reasons.contains(x),
{
    let p = r.partial(reason);
    if !r.reasons.contains(reason) {
        assert(p.reasons[r.reasons.len() as int] == reason);
        assert forall|x: ScanPartialReason| r.reasons.contains(x) implies #[trigger] p.reasons.contains(
            x,
        ) by {
            let i = choose|i: int| 0 <= i < r.reasons.len() && r.reasons[i] == x;
            assert(p.reasons[i] == x);
        }
        assert(p.reasons.no_duplicates()) by {
            assert forall|i: int, j: int| 0 <= i < j < p.reasons.len() implies p.reasons[i]
                != p.reasons[j] by {
                if j == r.reasons.len() {
                    assert(r.reasons.contains(r.reasons[i]));
                }
            }
        }
    }
}

impl ScanReport {
    /// A scan that has found nothing yet and missed nothing.
    pub fn complete() -> (r: ScanReport)
        ensures
            r@ == (ReportView {
                files: seq![],
                skipped: 0,
                errors: seq![],
                complete: true,
                reasons: seq![],
            }),
    {
        let r = ScanReport {
            files: Vec::new(),
            skipped: 0,
            errors: Vec::new(),
            completeness: ScanCompleteness::Complete,
        };
        assert(r@.files =~= seq![]);
        assert(r@.errors =~= seq![]);
        r
    }

    /// Whether the scan has missed nothing.
    pub fn is_complete(&self) -> (r: bool)
        ensures
            r == self@.complete,
    {
        match self.completeness {
            ScanCompleteness::Complete => true,
            ScanCompleteness::Partial(_) => false,
        }
    }

    /// Notes that the scan has missed something.
    pub fn mark_partial(&mut self, reason: ScanPartialReason)
        ensures
            final(self)@ == old(self)@.partial(reason),
    {
        let ghost before = self@;
        let mut reasons: Vec<ScanPartialReason> = Vec::new();
        match &self.completeness {
            ScanCompleteness::Complete => {},
            ScanCompleteness::Partial(r) => {
                reasons = vstd::slice::slice_to_vec(r.as_slice());
            },
        }
        assert(reasons@ == before.reasons);
        let mut known: bool = false;
        let mut i: usize = 0;
        while i < reasons.len()
            invariant
                i <= reasons.len(),
                known <==> exists|j: int| 0 <= j < i && reasons@[j] == reason,
            decreases reasons.len() - i,
        {
            if reasons[i] == reason {
                known = true;
            }
            i += 1;
        }
        assert(known == reasons@.contains(reason));
        if !known {
            reasons.push(reason);
        }
        self.completeness = ScanCompleteness::Partial(reasons);
    }

    /// Notes an entry that was passed over.
    pub fn skip(&mut self)
        requires
            old(self).skipped < usize::MAX,
        ensures
            final(self)@ == old(self)@.skip(),
    {
        self.skipped = self.skipped + 1;
    }

    /// Notes an error, which makes the scan partial.
    pub fn fail(&mut self, error: String)
        ensures
            final(self)@ == old(self)@.failed(error@),
    {
        let ghost before = self@;
        self.errors.push(error);
        assert(self@.errors =~= before.errors.push(error@));
        self.mark_partial(ScanPartialReason::TraversalError);
    }

    /// Adds a file.
    pub fn add_file(&mut self, file: ScannedCodeFile)
        ensures
            final(self)@ == old(self)@.with_file(file@),
    {
        let ghost before = self@;
        self.files.push(file);
        assert(self@.files =~= before.files.push(file@));
    }
}

} // verus!
