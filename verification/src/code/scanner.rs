//! Which files of a project are read, and how far a scan goes. The scan is a
//! machine: it says what to read next and is told what was found.

use vstd::prelude::*;

use crate::code::types::{
    scanned_views, ReportView, ScanPartialReason, ScanReport, ScannedCodeFile, ScannedView,
};
use crate::models::opt_text;
use crate::order::{by_text, indices, order_texts, picked, stable_order};
use crate::text::{
    ascii_lower, before_last, contains_any, has_any, head_before_last, is_one_of, replace, replaced,
    same, starts_with, str_views, to_ascii_lower, views,
};

verus! {

/// The number of files that a scan may find.
pub const MAX_FILES: usize = 1_000;

/// The number of bytes that a file may have.
pub const MAX_FILE_BYTES: u64 = 524_288;

/// The number of bytes that all files together may have.
pub const MAX_TOTAL_BYTES: u64 = 20_971_520;

/// The number of directories below the root that a scan goes down.
pub const MAX_DEPTH: usize = 20;

/// How far a scan goes.
#[derive(Debug, Clone, Copy)]
pub struct ScanLimits {
    pub max_files: usize,
    pub max_file_bytes: u64,
    pub max_total_bytes: u64,
    pub max_depth: usize,
}

impl ScanLimits {
    /// The limits of an ordinary scan.
    pub fn standard() -> (r: ScanLimits)
        ensures
            r == (ScanLimits {
                max_files: MAX_FILES,
                max_file_bytes: MAX_FILE_BYTES,
                max_total_bytes: MAX_TOTAL_BYTES,
                max_depth: MAX_DEPTH,
            }),
    {
        ScanLimits {
            max_files: MAX_FILES,
            max_file_bytes: MAX_FILE_BYTES,
            max_total_bytes: MAX_TOTAL_BYTES,
            max_depth: MAX_DEPTH,
        }
    }
}

// -------------------------------------------------------------- kinds of files

/// The text behind the last dot of a file name; none where there is no dot but
/// at the beginning.
pub open spec fn extension(name: Seq<char>) -> Option<Seq<char>> {
    match before_last(name, '.') {
        Some(head) => if head.len() == 0 || name == ".."@ {
            None
        } else {
            Some(name.skip((head.len() + 1) as int))
        },
        None => None,
    }
}

proof fn lemma_before_last(s: Seq<char>, c: char)
    ensures
        before_last(s, c) matches Some(h) ==> h.len() < s.len(),
    decreases s.len(),
{
    if s.len() > 0 && s.last() != c {
        lemma_before_last(s.drop_last(), c);
    }
}

/// The text behind the last dot of a file name.
pub fn extension_of(name: &str) -> (r: Option<String>)
    ensures
        opt_text(r) == extension(name@),
{
    proof {
        lemma_before_last(name@, '.');
    }
    match head_before_last(name, '.') {
        Some(head) => {
            if head.as_str().is_empty() || same(name, "..") {
                None
            } else {
                let c = crate::text::chars(name);
                let n = crate::text::char_count(head.as_str());
                assert(before_last(name@, '.') == Some(head@));
                assert(n < c.len());
                let e = crate::text::string(vstd::slice::slice_subrange(&c, n + 1, c.len()));
                assert(e@ =~= name@.skip(n + 1));
                Some(e)
            }
        },
        None => None,
    }
}

/// The language of files with an extension.
pub open spec fn language_of(ext: Seq<char>) -> Option<Seq<char>> {
    if ext == "rs"@ {
        Some("rust"@)
    } else if ext == "py"@ {
        Some("python"@)
    } else if ext == "sql"@ {
        Some("sql"@)
    } else if ext == "js"@ {
        Some("javascript"@)
    } else if ext == "ts"@ {
        Some("typescript"@)
    } else if ext == "tsx"@ {
        Some("tsx"@)
    } else if ext == "jsx"@ {
        Some("jsx"@)
    } else if ext == "html"@ {
        Some("html"@)
    } else if ext == "css"@ {
        Some("css"@)
    } else if ext == "json"@ {
        Some("json"@)
    } else if ext == "toml"@ {
        Some("toml"@)
    } else if ext == "yaml"@ {
        Some("yaml"@)
    } else if ext == "yml"@ {
        Some("yaml"@)
    } else if ext == "md"@ {
        Some("markdown"@)
    } else if ext == "txt"@ {
        Some("text"@)
    } else if ext == "c"@ {
        Some("c"@)
    } else if ext == "h"@ {
        Some("c"@)
    } else if ext == "cpp"@ {
        Some("cpp"@)
    } else if ext == "hpp"@ {
        Some("cpp"@)
    } else if ext == "java"@ {
        Some("java"@)
    } else if ext == "cs"@ {
        Some("csharp"@)
    } else if ext == "go"@ {
        Some("go"@)
    } else {
        None
    }
}

fn language_for(ext: &str) -> (r: Option<&'static str>)
    ensures
        match r {
            Some(l) => language_of(ext@) == Some(l@),
            None => language_of(ext@) is None,
        },
{
    if same(ext, "rs") {
        Some("rust")
    } else if same(ext, "py") {
        Some("python")
    } else if same(ext, "sql") {
        Some("sql")
    } else if same(ext, "js") {
        Some("javascript")
    } else if same(ext, "ts") {
        Some("typescript")
    } else if same(ext, "tsx") {
        Some("tsx")
    } else if same(ext, "jsx") {
        Some("jsx")
    } else if same(ext, "html") {
        Some("html")
    } else if same(ext, "css") {
        Some("css")
    } else if same(ext, "json") {
        Some("json")
    } else if same(ext, "toml") {
        Some("toml")
    } else if same(ext, "yaml") {
        Some("yaml")
    } else if same(ext, "yml") {
        Some("yaml")
    } else if same(ext, "md") {
        Some("markdown")
    } else if same(ext, "txt") {
        Some("text")
    } else if same(ext, "c") {
        Some("c")
    } else if same(ext, "h") {
        Some("c")
    } else if same(ext, "cpp") {
        Some("cpp")
    } else if same(ext, "hpp") {
        Some("cpp")
    } else if same(ext, "java") {
        Some("java")
    } else if same(ext, "cs") {
        Some("csharp")
    } else if same(ext, "go") {
        Some("go")
    } else {
        None
    }
}

/// The language of a file, by its name.
pub open spec fn language(name: Seq<char>) -> Option<Seq<char>> {
    match extension(name) {
        Some(e) => language_of(ascii_lower(e)),
        None => None,
    }
}

/// The language of a file, by its name; none where its kind is not read.
pub fn supported_language(name: &str) -> (r: Option<&'static str>)
    ensures
        match r {
            Some(l) => language(name@) == Some(l@),
            None => language(name@) is None,
        },
{
    match extension_of(name) {
        Some(e) => {
            let small = to_ascii_lower(e.as_str());
            language_for(small.as_str())
        },
        None => None,
    }
}

/// Directories that hold nothing written by hand.
pub open spec fn ignored_names() -> Seq<Seq<char>> {
    seq![
        ".git"@,
        "target"@,
        "node_modules"@,
        ".venv"@,
        "venv"@,
        "dist"@,
        "build"@,
        ".idea"@,
        ".vscode"@,
        "__pycache__"@,
        ".cache"@,
        ".pytest_cache"@,
        ".mypy_cache"@,
        "logs"@,
        "log"@,
        "tmp"@,
        "temp"@,
        "cache"@,
        "caches"@,
        "coverage"@,
        ".coverage"@,
    ]
}

/// Whether the directory is passed over because of its name.
pub fn ignored_directory(name: &str) -> (r: bool)
    ensures
        r == ignored_names().contains(ascii_lower(name@)),
{
    let list = [
        ".git",
        "target",
        "node_modules",
        ".venv",
        "venv",
        "dist",
        "build",
        ".idea",
        ".vscode",
        "__pycache__",
        ".cache",
        ".pytest_cache",
        ".mypy_cache",
        "logs",
        "log",
        "tmp",
        "temp",
        "cache",
        "caches",
        "coverage",
        ".coverage",
    ];
    assert(str_views(list@) =~= ignored_names());
    let small = to_ascii_lower(name);
    is_one_of(small.as_str(), &list)
}

/// Directories in which browsers keep their profiles.
pub open spec fn browser_names() -> Seq<Seq<char>> {
    seq![
        "edge-cdp-profile"@,
        "chrome-profile"@,
        "chrome-cdp-profile"@,
        "chromium-profile"@,
        "chromium-cdp-profile"@,
        "browser-profile"@,
        "user data"@,
    ]
}

/// Some component of the path is a directory in which a browser keeps its profile.
pub open spec fn in_browser_profile(components: Seq<Seq<char>>) -> bool {
    exists|i: int|
        0 <= i < components.len() && browser_names().contains(
            ascii_lower(#[trigger] components[i]),
        )
}

/// Whether the path, given by its components below the root, leads into a
/// directory in which a browser keeps its profile.
pub fn generated_browser_directory(components: &Vec<String>) -> (r: bool)
    ensures
        r == in_browser_profile(views(components@)),
{
    let list = [
        "edge-cdp-profile",
        "chrome-profile",
        "chrome-cdp-profile",
        "chromium-profile",
        "chromium-cdp-profile",
        "browser-profile",
        "user data",
    ];
    assert(str_views(list@) =~= browser_names());
    let ghost all = views(components@);
    let mut i: usize = 0;
    while i < components.len()
        invariant
            i <= components.len(),
            all == views(components@),
            str_views(list@) == browser_names(),
            forall|j: int|
                0 <= j < i ==> !browser_names().contains(ascii_lower(#[trigger] all[j])),
        decreases components.len() - i,
    {
        assert(all[i as int] == components@[i as int]@);
        let small = to_ascii_lower(components[i].as_str());
        if is_one_of(small.as_str(), &list) {
            return true;
        }
        i += 1;
    }
    false
}

/// What the names of files with secrets hold.
pub open spec fn secret_markers() -> Seq<Seq<char>> {
    seq![
        "credential"@,
        "credentials"@,
        "secret"@,
        "secrets"@,
        "private_key"@,
        "api_key"@,
        "access_token"@,
        "auth_token"@,
        "password"@,
        "passwd"@,
        "id_rsa"@,
        "id_ed25519"@,
    ]
}

/// The extensions of files with keys and certificates.
pub open spec fn key_extensions() -> Seq<Seq<char>> {
    seq![
        "pem"@,
        "key"@,
        "p12"@,
        "pfx"@,
        "crt"@,
        "cer"@,
        "der"@,
        "jks"@,
        "keystore"@,
    ]
}

/// The file may hold secrets, by its name.
pub open spec fn is_sensitive(name: Seq<char>) -> bool {
    let small = ascii_lower(name);
    ||| small == ".env"@
    ||| ".env."@.is_prefix_of(small)
    ||| contains_any(small, secret_markers())
    ||| extension(small) matches Some(e) && key_extensions().contains(e)
}

/// Whether the file may hold secrets, by its name.
pub fn sensitive_file(name: &str) -> (r: bool)
    ensures
        r == is_sensitive(name@),
{
    let markers = [
        "credential",
        "credentials",
        "secret",
        "secrets",
        "private_key",
        "api_key",
        "access_token",
        "auth_token",
        "password",
        "passwd",
        "id_rsa",
        "id_ed25519",
    ];
    assert(str_views(markers@) =~= secret_markers());
    let keys = [
        "pem",
        "key",
        "p12",
        "pfx",
        "crt",
        "cer",
        "der",
        "jks",
        "keystore",
    ];
    assert(str_views(keys@) =~= key_extensions());
    let small = to_ascii_lower(name);
    if same(small.as_str(), ".env") || starts_with(small.as_str(), ".env.") || has_any(
        small.as_str(),
        &markers,
    ) {
        return true;
    }
    match extension_of(small.as_str()) {
        Some(e) => is_one_of(e.as_str(), &keys),
        None => false,
    }
}

/// A file whose name does not keep it from being read.
pub open spec fn is_readable_name(name: Seq<char>) -> bool {
    !is_sensitive(name) && language(name) is Some
}

// ----------------------------------------------------------------- what a file is

/// What was found out about a file.
#[derive(Debug, PartialEq, Eq)]
pub struct FileFacts {
    /// It is a regular file.
    pub is_file: bool,
    /// Its size.
    pub size_bytes: u64,
    /// Where it stands, unless that is outside of the root.
    pub place: Option<FilePlace>,
}

/// Where a file stands.
#[derive(Debug, PartialEq, Eq)]
pub struct FilePlace {
    pub absolute_path: String,
    /// The path below the root.
    pub relative_path: String,
    /// The name of the file at the end of the path.
    pub name: String,
}

/// What a `FileFacts` holds.
pub struct FactsView {
    pub is_file: bool,
    pub size_bytes: u64,
    pub place: Option<(Seq<char>, Seq<char>, Seq<char>)>,
}

impl View for FileFacts {
    type V = FactsView;

    open spec fn view(&self) -> FactsView {
        FactsView {
            is_file: self.is_file,
            size_bytes: self.size_bytes,
            place: match self.place {
                Some(p) => Some((p.absolute_path@, p.relative_path@, p.name@)),
                None => None,
            },
        }
    }
}

/// What a scan makes of a file.
pub enum ScannedFile {
    Indexable(ScannedCodeFile),
    PolicyExcluded,
    TooLarge,
}

/// What a scan makes of a file.
pub enum FileClass {
    Indexable(ScannedView),
    PolicyExcluded,
    TooLarge,
}

impl View for ScannedFile {
    type V = FileClass;

    open spec fn view(&self) -> FileClass {
        match self {
            ScannedFile::Indexable(f) => FileClass::Indexable(f@),
            ScannedFile::PolicyExcluded => FileClass::PolicyExcluded,
            ScannedFile::TooLarge => FileClass::TooLarge,
        }
    }
}

/// What a scan makes of a file: those that may hold secrets, are of no known kind,
/// are no regular files or stand outside of the root are excluded; of the others
/// those beyond the size limit are too large.
pub open spec fn file_class(name: Seq<char>, facts: FactsView, limits: ScanLimits) -> FileClass {
    if !is_readable_name(name) || !facts.is_file {
        FileClass::PolicyExcluded
    } else if facts.size_bytes > limits.max_file_bytes {
        FileClass::TooLarge
    } else {
        match facts.place {
            None => FileClass::PolicyExcluded,
            Some(place) => FileClass::Indexable(
                ScannedView {
                    absolute_path: place.0,
                    relative_path: replace(place.1, "\\"@, "/"@),
                    extension: match extension(place.2) {
                        Some(e) => ascii_lower(e),
                        None => seq![],
                    },
                    language: language(name).unwrap(),
                    size_bytes: facts.size_bytes,
                },
            ),
        }
    }
}

/// What a scan makes of a file.
pub fn scanned_file(name: &str, facts: &FileFacts, limits: ScanLimits) -> (r: ScannedFile)
    ensures
        r@ == file_class(name@, facts@, limits),
{
    if sensitive_file(name) {
        return ScannedFile::PolicyExcluded;
    }
    let spoken = match supported_language(name) {
        Some(l) => l,
        None => {
            return ScannedFile::PolicyExcluded;
        },
    };
    if !facts.is_file {
        return ScannedFile::PolicyExcluded;
    }
    if facts.size_bytes > limits.max_file_bytes {
        return ScannedFile::TooLarge;
    }
    match &facts.place {
        None => ScannedFile::PolicyExcluded,
        Some(place) => {
            proof {
                reveal_strlit("\\");
            }
            let ext = match extension_of(place.name.as_str()) {
                Some(e) => to_ascii_lower(e.as_str()),
                None => String::new(),
            };
            ScannedFile::Indexable(
                ScannedCodeFile {
                    absolute_path: place.absolute_path.clone(),
                    relative_path: replaced(place.relative_path.as_str(), "\\", "/"),
                    extension: ext,
                    language: spoken.to_owned(),
                    size_bytes: facts.size_bytes,
                },
            )
        },
    }
}

/// The file to read where one file alone was chosen; none where it is excluded or
/// too large.
pub fn scan_single_file(name: &str, facts: &FileFacts) -> (r: Option<ScannedCodeFile>)
    ensures
        ({
            let limits = ScanLimits {
                max_files: MAX_FILES,
                max_file_bytes: MAX_FILE_BYTES,
                max_total_bytes: MAX_TOTAL_BYTES,
                max_depth: MAX_DEPTH,
            };
            match file_class(name@, facts@, limits) {
                FileClass::Indexable(f) => r matches Some(v) && v@ == f,
                _ => r is None,
            }
        }),
{
    match scanned_file(name, facts, ScanLimits::standard()) {
        ScannedFile::Indexable(f) => Some(f),
        ScannedFile::PolicyExcluded => None,
        ScannedFile::TooLarge => None,
    }
}

// -------------------------------------------------------------- the scan machine

/// An entry of a directory.
#[derive(Debug, PartialEq, Eq)]
pub enum Entry {
    /// It could not be examined.
    Failed(String),
    /// A symbolic link.
    Link,
    /// A directory: its path, its name, and its components below the root.
    Directory { path: String, name: String, components: Vec<String> },
    /// Anything else: its path and its name.
    File { path: String, name: String },
}

/// What an `Entry` holds.
pub enum EntryView {
    Failed(Seq<char>),
    Link,
    Directory { path: Seq<char>, name: Seq<char>, components: Seq<Seq<char>> },
    File { path: Seq<char>, name: Seq<char> },
}

impl View for Entry {
    type V = EntryView;

    open spec fn view(&self) -> EntryView {
        match self {
            Entry::Failed(e) => EntryView::Failed(e@),
            Entry::Link => EntryView::Link,
            Entry::Directory { path, name, components } => EntryView::Directory {
                path: path@,
                name: name@,
                components: views(components@),
            },
            Entry::File { path, name } => EntryView::File { path: path@, name: name@ },
        }
    }
}

/// An entry that waits for its turn, with the depth of its directory.
pub struct Waiting {
    pub entry: Entry,
    pub depth: usize,
}

/// The views of entries that wait.
pub open spec fn waiting_views(v: Seq<Waiting>) -> Seq<(EntryView, usize)> {
    v.map_values(|w: Waiting| (w.entry@, w.depth))
}

/// What a scan wants next.
#[derive(Debug, PartialEq, Eq)]
pub enum ScanAction {
    /// Nothing more: the scan is over.
    Finished,
    /// The entry is dealt with: go on.
    Continue,
    /// The entries of the directory at the path, which is so deep below the root.
    ReadDirectory { path: String, depth: usize },
    /// The facts about the file at the path with the name.
    Inspect { path: String, name: String },
}

/// What a `ScanAction` holds.
pub enum ActionView {
    Finished,
    Continue,
    ReadDirectory { path: Seq<char>, depth: usize },
    Inspect { path: Seq<char>, name: Seq<char> },
}

impl View for ScanAction {
    type V = ActionView;

    open spec fn view(&self) -> ActionView {
        match self {
            ScanAction::Finished => ActionView::Finished,
            ScanAction::Continue => ActionView::Continue,
            ScanAction::ReadDirectory { path, depth } => ActionView::ReadDirectory {
                path: path@,
                depth: *depth,
            },
            ScanAction::Inspect { path, name } => ActionView::Inspect { path: path@, name: name@ },
        }
    }
}

/// A scan on its way.
pub struct ScanState {
    pub limits: ScanLimits,
    pub report: ScanReport,
    pub total_bytes: u64,
    /// The entries still to be dealt with, the next one last.
    pub waiting: Vec<Waiting>,
}

/// What a `ScanState` holds.
pub struct ScanView {
    pub limits: ScanLimits,
    pub report: ReportView,
    pub total_bytes: u64,
    pub waiting: Seq<(EntryView, usize)>,
}

impl View for ScanState {
    type V = ScanView;

    open spec fn view(&self) -> ScanView {
        ScanView {
            limits: self.limits,
            report: self.report@,
            total_bytes: self.total_bytes,
            waiting: waiting_views(self.waiting@),
        }
    }
}

/// The sizes of files added up.
pub open spec fn bytes_in(files: Seq<ScannedView>) -> int
    decreases files.len(),
{
    if files.len() == 0 {
        0
    } else {
        bytes_in(files.drop_last()) + files.last().size_bytes
    }
}

/// The file is one that a scan may find.
pub open spec fn is_within(f: ScannedView, limits: ScanLimits) -> bool {
    f.size_bytes <= limits.max_file_bytes
}

impl ScanView {
    /// The report keeps to the limits; a complete one hides no error, and no limit keeps
    /// the scan from anything more.
    pub open spec fn wf(self) -> bool {
        &&& self.keeps_limits()
        &&& self.report.complete ==> self.exhausted() is None
    }

    /// The report keeps to the limits, and a complete one hides no error.
    pub open spec fn keeps_limits(self) -> bool {
        &&& self.report.wf()
        &&& self.report.files.len() <= self.limits.max_files
        &&& self.total_bytes == bytes_in(self.report.files)
        &&& self.total_bytes <= self.limits.max_total_bytes
        &&& forall|i: int|
            0 <= i < self.report.files.len() ==> is_within(
                #[trigger] self.report.files[i],
                self.limits,
            )
        &&& self.report.complete ==> self.report.errors.len() == 0
    }

    /// The limit that keeps the scan from anything more, if one does.
    pub open spec fn exhausted(self) -> Option<ScanPartialReason> {
        if self.report.files.len() >= self.limits.max_files {
            Some(ScanPartialReason::FileLimit)
        } else if self.total_bytes >= self.limits.max_total_bytes {
            Some(ScanPartialReason::TotalBytesLimit)
        } else {
            None
        }
    }

    /// The scan with one more entry passed over for a reason that makes it partial.
    pub open spec fn passed_over(self, reason: ScanPartialReason) -> ScanView {
        ScanView { report: self.report.skip().partial(reason), ..self }
    }

    /// The scan with one more entry passed over on purpose.
    pub open spec fn excluded(self) -> ScanView {
        ScanView { report: self.report.skip(), ..self }
    }

    /// Entering a directory: the limits decide whether it is read.
    pub open spec fn entered(self, path: Seq<char>, depth: usize) -> (ScanView, ActionView) {
        if depth > self.limits.max_depth {
            (self.passed_over(ScanPartialReason::DepthLimit), ActionView::Continue)
        } else {
            match self.exhausted() {
                Some(reason) => (self.passed_over(reason), ActionView::Continue),
                None => (self, ActionView::ReadDirectory { path, depth }),
            }
        }
    }

    /// Dealing with an entry of a directory at a depth.
    pub open spec fn visited(self, entry: EntryView, depth: usize) -> (ScanView, ActionView) {
        match entry {
            EntryView::Failed(error) => (
                ScanView { report: self.report.failed(error), ..self },
                ActionView::Continue,
            ),
            EntryView::Link => (self.excluded(), ActionView::Continue),
            EntryView::Directory { path, name, components } => if ignored_names().contains(
                ascii_lower(name),
            ) || in_browser_profile(components) {
                (self.excluded(), ActionView::Continue)
            } else if depth == usize::MAX {
                (self.passed_over(ScanPartialReason::DepthLimit), ActionView::Continue)
            } else {
                self.entered(path, (depth + 1) as usize)
            },
            EntryView::File { path, name } => match self.exhausted() {
                Some(reason) => (self.passed_over(reason), ActionView::Continue),
                None => if is_readable_name(name) {
                    (self, ActionView::Inspect { path, name })
                } else {
                    (self.excluded(), ActionView::Continue)
                },
            },
        }
    }

    /// One step: the next entry, unless there is none or the user has cancelled.
    pub open spec fn stepped(self, cancelled: bool) -> (ScanView, ActionView) {
        if self.waiting.len() == 0 {
            (self, ActionView::Finished)
        } else if cancelled {
            (
                ScanView {
                    report: self.report.partial(ScanPartialReason::Cancelled),
                    waiting: seq![],
                    ..self
                },
                ActionView::Finished,
            )
        } else {
            ScanView { waiting: self.waiting.drop_last(), ..self }.visited(
                self.waiting.last().0,
                self.waiting.last().1,
            )
        }
    }

    /// Taking in the facts about a file.
    pub open spec fn inspected(self, name: Seq<char>, facts: FactsView) -> ScanView {
        match self.exhausted() {
            Some(reason) => self.passed_over(reason),
            None => self.classified(file_class(name, facts, self.limits)),
        }
    }

    /// Taking in a file of a class.
    pub open spec fn classified(self, class: FileClass) -> ScanView {
        match class {
            FileClass::PolicyExcluded => self.excluded(),
            FileClass::TooLarge => self.passed_over(ScanPartialReason::FileSizeLimit),
            FileClass::Indexable(file) => if self.total_bytes + file.size_bytes
                > self.limits.max_total_bytes {
                self.passed_over(ScanPartialReason::TotalBytesLimit)
            } else {
                self.with_file(file)
            },
        }
    }

    /// The scan with one more file; a limit that it reaches makes it partial.
    pub open spec fn with_file(self, file: ScannedView) -> ScanView {
        let total = (self.total_bytes + file.size_bytes) as u64;
        let r0 = self.report.with_file(file);
        let r1 = if r0.files.len() >= self.limits.max_files {
            r0.partial(ScanPartialReason::FileLimit)
        } else {
            r0
        };
        let r2 = if total >= self.limits.max_total_bytes {
            r1.partial(ScanPartialReason::TotalBytesLimit)
        } else {
            r1
        };
        ScanView { report: r2, total_bytes: total, ..self }
    }

    /// The scan with the entries of a directory before all that waits.
    pub open spec fn listed(self, entries: Seq<EntryView>, depth: usize) -> ScanView {
        ScanView {
            waiting: self.waiting + entries.reverse().map_values(|e: EntryView| (e, depth)),
            ..self
        }
    }
}

/// The views of entries.
pub open spec fn entry_views(v: Seq<Entry>) -> Seq<EntryView> {
    v.map_values(|e: Entry| e@)
}

impl ScanState {
    /// A scan that is about to begin at the root: what it wants first.
    pub fn begin(root: String, limits: ScanLimits, cancelled: bool) -> (r: (ScanState, ScanAction))
        ensures
            ({
                let empty = ScanView {
                    limits,
                    report: ReportView {
                        files: seq![],
                        skipped: 0,
                        errors: seq![],
                        complete: true,
                        reasons: seq![],
                    },
                    total_bytes: 0,
                    waiting: seq![],
                };
                if cancelled {
                    &&& r.0@ == (ScanView {
                        report: empty.report.partial(ScanPartialReason::Cancelled),
                        ..empty
                    })
                    &&& r.1@ == ActionView::Finished
                } else {
                    (r.0@, r.1@) == empty.entered(root@, 0)
                }
            }),
            r.0@.wf(),
    {
        let mut state = ScanState {
            limits,
            report: ScanReport::complete(),
            total_bytes: 0,
            waiting: Vec::new(),
        };
        assert(state@.waiting =~= seq![]);
        if cancelled {
            proof {
                crate::code::types::law_partial_is_final(
                    state@.report,
                    ScanPartialReason::Cancelled,
                );
            }
            state.report.mark_partial(ScanPartialReason::Cancelled);
            (state, ScanAction::Finished)
        } else {
            let action = state.enter(root, 0);
            (state, action)
        }
    }

    /// Entering a directory: the limits decide whether it is read.
    fn enter(&mut self, path: String, depth: usize) -> (r: ScanAction)
        requires
            old(self).report.skipped < usize::MAX,
            old(self)@.keeps_limits(),
        ensures
            (final(self)@, r@) == old(self)@.entered(path@, depth),
            final(self)@.wf(),
    {
        if depth > self.limits.max_depth {
            self.pass_over(ScanPartialReason::DepthLimit);
            return ScanAction::Continue;
        }
        match self.limit_reached() {
            Some(reason) => {
                self.pass_over(reason);
                ScanAction::Continue
            },
            None => ScanAction::ReadDirectory { path, depth },
        }
    }

    fn limit_reached(&self) -> (r: Option<ScanPartialReason>)
        ensures
            r == self@.exhausted(),
    {
        assert(self@.report.files.len() == self.report.files@.len());
        if self.report.files.len() >= self.limits.max_files {
            Some(ScanPartialReason::FileLimit)
        } else if self.total_bytes >= self.limits.max_total_bytes {
            Some(ScanPartialReason::TotalBytesLimit)
        } else {
            None
        }
    }

    fn pass_over(&mut self, reason: ScanPartialReason)
        requires
            old(self).report.skipped < usize::MAX,
            old(self)@.keeps_limits(),
        ensures
            final(self)@ == old(self)@.passed_over(reason),
            final(self)@.wf(),
    {
        proof {
            crate::code::types::law_partial_is_final(self@.report.skip(), reason);
        }
        self.report.skip();
        self.report.mark_partial(reason);
    }

    /// One step of the scan.
    pub fn step(&mut self, cancelled: bool) -> (r: ScanAction)
        requires
            old(self).report.skipped < usize::MAX,
            old(self)@.wf(),
        ensures
            (final(self)@, r@) == old(self)@.stepped(cancelled),
            final(self)@.wf(),
    {
        let ghost before = self@;
        assert(before.waiting.len() == self.waiting@.len());
        if self.waiting.len() == 0 {
            return ScanAction::Finished;
        }
        if cancelled {
            proof {
                crate::code::types::law_partial_is_final(
                    self@.report,
                    ScanPartialReason::Cancelled,
                );
            }
            self.report.mark_partial(ScanPartialReason::Cancelled);
            self.waiting = Vec::new();
            assert(self@.waiting =~= seq![]);
            return ScanAction::Finished;
        }
        match self.waiting.pop() {
            None => ScanAction::Finished,
            Some(next) => {
                proof {
                    assert(self@.waiting =~= before.waiting.drop_last());
                    assert(before.waiting.last() == (next.entry@, next.depth));
                }
                self.visit(next.entry, next.depth)
            },
        }
    }

    fn visit(&mut self, entry: Entry, depth: usize) -> (r: ScanAction)
        requires
            old(self).report.skipped < usize::MAX,
            old(self)@.wf(),
        ensures
            (final(self)@, r@) == old(self)@.visited(entry@, depth),
            final(self)@.wf(),
    {
        match entry {
            Entry::Failed(error) => {
                self.note_failure(error);
                ScanAction::Continue
            },
            Entry::Link => {
                self.report.skip();
                ScanAction::Continue
            },
            Entry::Directory { path, name, components } => {
                if ignored_directory(name.as_str()) || generated_browser_directory(&components) {
                    self.report.skip();
                    ScanAction::Continue
                } else if depth == usize::MAX {
                    self.pass_over(ScanPartialReason::DepthLimit);
                    ScanAction::Continue
                } else {
                    self.enter(path, depth + 1)
                }
            },
            Entry::File { path, name } => {
                match self.limit_reached() {
                    Some(reason) => {
                        self.pass_over(reason);
                        ScanAction::Continue
                    },
                    None => {
                        let readable = if sensitive_file(name.as_str()) {
                            false
                        } else {
                            match supported_language(name.as_str()) {
                                Some(_) => true,
                                None => false,
                            }
                        };
                        if readable {
                            ScanAction::Inspect { path, name }
                        } else {
                            self.report.skip();
                            ScanAction::Continue
                        }
                    },
                }
            },
        }
    }

    fn note_failure(&mut self, error: String)
        requires
            old(self)@.wf(),
        ensures
            final(self)@ == (ScanView { report: old(self)@.report.failed(error@), ..old(self)@ }),
            final(self)@.wf(),
    {
        proof {
            crate::code::types::law_partial_is_final(
                ReportView { errors: self@.report.errors.push(error@), ..self@.report },
                ScanPartialReason::TraversalError,
            );
        }
        self.report.fail(error);
    }

    /// Takes in the entries of a directory at a depth.
    pub fn take_listing(&mut self, entries: Vec<Entry>, depth: usize)
        requires
            old(self)@.wf(),
        ensures
            final(self)@ == old(self)@.listed(entry_views(entries@), depth),
            final(self)@.wf(),
    {
        let ghost before = self@;
        let ghost all = entry_views(entries@);
        let ghost added = all.reverse().map_values(|e: EntryView| (e, depth));
        let mut rest = entries;
        let ghost n = rest@.len() as int;
        while rest.len() > 0
            invariant
                rest@.len() <= n,
                all.len() == n,
                forall|j: int| 0 <= j < rest@.len() ==> (#[trigger] rest@[j])@ == all[j],
                added == all.reverse().map_values(|e: EntryView| (e, depth)),
                self@.limits == before.limits,
                self@.report == before.report,
                self@.total_bytes == before.total_bytes,
                self@.waiting == before.waiting + added.take(n - rest@.len()),
            decreases rest@.len(),
        {
            let ghost k = n - rest@.len();
            let ghost had = self@.waiting;
            assert(rest@[rest@.len() - 1]@ == all[rest@.len() - 1]);
            match rest.pop() {
                Some(entry) => {
                    self.waiting.push(Waiting { entry, depth });
                    proof {
                        assert(self@.waiting =~= had.push((entry@, depth)));
                        assert(added[k] == (entry@, depth));
                        assert(self@.waiting =~= before.waiting + added.take(k + 1));
                    }
                },
                None => {},
            }
        }
        assert(added.take(n) =~= added);
    }

    /// Takes in that a directory below the root could not be read.
    pub fn listing_failed(&mut self, error: String)
        requires
            old(self)@.wf(),
        ensures
            final(self)@ == (ScanView { report: old(self)@.report.failed(error@), ..old(self)@ }),
            final(self)@.wf(),
    {
        self.note_failure(error);
    }

    /// Takes in the facts about a file.
    pub fn take_facts(&mut self, name: &str, facts: &FileFacts)
        requires
            old(self).report.skipped < usize::MAX,
            old(self)@.wf(),
        ensures
            final(self)@ == old(self)@.inspected(name@, facts@),
            final(self)@.wf(),
    {
        match self.limit_reached() {
            Some(reason) => {
                self.pass_over(reason);
                return ;
            },
            None => {},
        }
        match scanned_file(name, facts, self.limits) {
            ScannedFile::PolicyExcluded => {
                self.report.skip();
            },
            ScannedFile::TooLarge => {
                self.pass_over(ScanPartialReason::FileSizeLimit);
            },
            ScannedFile::Indexable(file) => {
                if file.size_bytes as u128 + self.total_bytes as u128
                    > self.limits.max_total_bytes as u128 {
                    self.pass_over(ScanPartialReason::TotalBytesLimit);
                } else {
                    self.add(file);
                }
            },
        }
    }

    fn add(&mut self, file: ScannedCodeFile)
        requires
            old(self)@.wf(),
            old(self)@.exhausted() is None,
            is_within(file@, old(self)@.limits),
            old(self)@.total_bytes + file@.size_bytes <= old(self)@.limits.max_total_bytes,
        ensures
            final(self)@ == old(self)@.with_file(file@),
            final(self)@.wf(),
    {
        let ghost before = self@;
        let ghost r0 = before.report.with_file(file@);
        self.total_bytes = self.total_bytes + file.size_bytes;
        self.report.add_file(file);
        assert(self@.report.files.len() == self.report.files@.len());
        proof {
            assert(r0.files.drop_last() =~= before.report.files);
            crate::code::types::law_partial_is_final(r0, ScanPartialReason::FileLimit);
            crate::code::types::law_partial_is_final(r0, ScanPartialReason::TotalBytesLimit);
            crate::code::types::law_partial_is_final(
                r0.partial(ScanPartialReason::FileLimit),
                ScanPartialReason::TotalBytesLimit,
            );
        }
        if self.report.files.len() >= self.limits.max_files {
            self.report.mark_partial(ScanPartialReason::FileLimit);
        }
        if self.total_bytes >= self.limits.max_total_bytes {
            self.report.mark_partial(ScanPartialReason::TotalBytesLimit);
        }
        proof {
            assert(self@ == before.with_file(file@));
            assert forall|i: int| 0 <= i < self@.report.files.len() implies is_within(
                #[trigger] self@.report.files[i],
                self@.limits,
            ) by {
                if i < before.report.files.len() {
                    assert(self@.report.files[i] == before.report.files[i]);
                }
            }
        }
    }

    /// The report of a scan that is over, its files by path.
    pub fn finish(self) -> (r: ScanReport)
        ensures
            r@ == (ReportView { files: by_path(self@.report.files), ..self@.report }),
    {
        let mut report = self.report;
        let ghost before = report@;
        let mut keys: Vec<String> = Vec::new();
        let mut i: usize = 0;
        while i < report.files.len()
            invariant
                i <= report.files.len(),
                keys.len() == i,
                forall|j: int|
                    0 <= j < i ==> (#[trigger] keys@[j])@ == report.files@[j].relative_path@,
            decreases report.files.len() - i,
        {
            keys.push(report.files[i].relative_path.clone());
            i += 1;
        }
        assert(views(keys@) =~= before.files.map_values(|f: ScannedView| f.relative_path));
        let order = order_texts(&keys);
        let ghost want = picked(before.files, indices(order@));
        let mut sorted: Vec<ScannedCodeFile> = Vec::new();
        let mut j: usize = 0;
        while j < order.len()
            invariant
                j <= order.len(),
                before.files == scanned_views(report.files@),
                want == picked(before.files, indices(order@)),
                forall|k: int|
                    0 <= k < order.len() ==> 0 <= #[trigger] indices(order@)[k]
                        < report.files.len(),
                scanned_views(sorted@) == want.take(j as int),
            decreases order.len() - j,
        {
            assert(0 <= indices(order@)[j as int] < report.files.len());
            let ghost had = scanned_views(sorted@);
            let f = report.files[order[j]].clone();
            sorted.push(f);
            assert(scanned_views(sorted@) =~= had.push(f@));
            assert(scanned_views(sorted@) =~= want.take(j + 1));
            j += 1;
        }
        assert(want.take(j as int) =~= want);
        report.files = sorted;
        report
    }
}

/// Files in the order of their paths.
pub open spec fn by_path(files: Seq<ScannedView>) -> Seq<ScannedView> {
    picked(
        files,
        stable_order(files.map_values(|f: ScannedView| f.relative_path), by_text()),
    )
}

/// What happens to a scan.
pub enum ScanEvent {
    /// It takes a step; the user may have cancelled it.
    Step(bool),
    /// The entries of a directory at a depth come in.
    Listing(Seq<EntryView>, usize),
    /// A directory could not be read.
    Unreadable(Seq<char>),
    /// The facts about a file of a name come in.
    Facts(Seq<char>, FactsView),
}

/// A scan after something has happened to it.
pub open spec fn after_event(s: ScanView, event: ScanEvent) -> ScanView {
    match event {
        ScanEvent::Step(cancelled) => s.stepped(cancelled).0,
        ScanEvent::Listing(entries, depth) => s.listed(entries, depth),
        ScanEvent::Unreadable(error) => ScanView { report: s.report.failed(error), ..s },
        ScanEvent::Facts(name, facts) => s.inspected(name, facts),
    }
}

/// A scan after one thing after the other has happened to it.
pub open spec fn after_events(s: ScanView, events: Seq<ScanEvent>) -> ScanView
    decreases events.len(),
{
    if events.len() == 0 {
        s
    } else {
        after_event(after_events(s, events.drop_last()), events.last())
    }
}

/// The second is a later state of the first: files, errors and reasons that it had
/// stay, and it is complete only if the first was, no error has come since and no limit
/// is reached.
pub open spec fn is_later(s: ScanView, t: ScanView) -> bool {
    &&& t.limits == s.limits
    &&& s.report.files.is_prefix_of(t.report.files)
    &&& s.report.errors.is_prefix_of(t.report.errors)
    &&& s.report.reasons.is_prefix_of(t.report.reasons)
    &&& s.report.skipped <= t.report.skipped
    &&& t.report.complete ==> {
        &&& s.report.complete
        &&& t.report.errors == s.report.errors
        &&& t.report.files.len() < t.limits.max_files
        &&& t.total_bytes < t.limits.max_total_bytes
    }
}

proof fn lemma_event(s: ScanView, event: ScanEvent)
    requires
        s.wf(),
    ensures
        after_event(s, event).wf(),
        is_later(s, after_event(s, event)),
{
    let t = after_event(s, event);
    assert forall|r: ReportView, reason: ScanPartialReason| r.wf() implies {
        &&& (#[trigger] r.partial(reason)).wf()
        &&& r.reasons.is_prefix_of(r.partial(reason).reasons)
    } by {
        crate::code::types::law_partial_is_final(r, reason);
    }
    match event {
        ScanEvent::Facts(name, facts) => {
            if s.exhausted() is None {
                match file_class(name, facts, s.limits) {
                    FileClass::Indexable(file) => {
                        let r0 = s.report.with_file(file);
                        assert(r0.wf());
                        assert(r0.files.drop_last() =~= s.report.files);
                        assert forall|i: int| 0 <= i < t.report.files.len() implies is_within(
                            #[trigger] t.report.files[i],
                            t.limits,
                        ) by {
                            if i < s.report.files.len() {
                                assert(t.report.files[i] == s.report.files[i]);
                            }
                        }
                    },
                    _ => {},
                }
            }
        },
        ScanEvent::Unreadable(error) => {
            let r0 = ReportView { errors: s.report.errors.push(error), ..s.report };
            assert(r0.wf());
        },
        ScanEvent::Step(cancelled) => {
            if s.waiting.len() > 0 && !cancelled {
                match s.waiting.last().0 {
                    EntryView::Failed(error) => {
                        let r0 = ReportView { errors: s.report.errors.push(error), ..s.report };
                        assert(r0.wf());
                    },
                    _ => {},
                }
            }
        },
        _ => {},
    }
}

/// Whatever happens to a scan, and in whatever order: it keeps to its limits, it loses
/// no file, error or reason that it had, and it stays complete only while no error
/// comes and no limit is reached.
pub proof fn law_scan_hides_nothing(s: ScanView, events: Seq<ScanEvent>)
    requires
        s.wf(),
    ensures
        after_events(s, events).wf(),
        is_later(s, after_events(s, events)),
    decreases events.len(),
{
    if events.len() > 0 {
        law_scan_hides_nothing(s, events.drop_last());
        lemma_event(after_events(s, events.drop_last()), events.last());
    }
}

/// Passing over what is excluded on purpose leaves a complete scan complete.
pub proof fn law_exclusion_keeps_completeness(s: ScanView, entry: EntryView, depth: usize)
    requires
        match entry {
            EntryView::Link => true,
            EntryView::Directory { path, name, components } => ignored_names().contains(
                ascii_lower(name),
            ) || in_browser_profile(components),
            EntryView::File { path, name } => s.exhausted() is None && !is_readable_name(name),
            EntryView::Failed(_) => false,
        },
    ensures
        s.visited(entry, depth).0.report == s.report.skip(),
        s.visited(entry, depth).1 == ActionView::Continue,
{
}

/// Finding that a file is excluded on purpose leaves a complete scan complete.
pub proof fn law_excluded_file_keeps_completeness(s: ScanView, name: Seq<char>, facts: FactsView)
    requires
        s.exhausted() is None,
        !is_readable_name(name) || !facts.is_file,
    ensures
        s.inspected(name, facts).report == s.report.skip(),
{
}

/// A file that may hold secrets is never asked for and never found.
pub proof fn law_no_secret_is_read(s: ScanView, name: Seq<char>, path: Seq<char>, facts: FactsView, depth: usize)
    requires
        is_sensitive(name),
    ensures
        s.visited(EntryView::File { path, name }, depth).1 == ActionView::Continue,
        s.visited(EntryView::File { path, name }, depth).0.report.files == s.report.files,
        s.inspected(name, facts).report.files == s.report.files,
{
}

/// The files of a finished scan are those that were found, in the order of their paths.
pub proof fn law_found_files_are_sorted(files: Seq<ScannedView>)
    ensures
        by_path(files).len() == files.len(),
        forall|f: ScannedView| #[trigger] by_path(files).contains(f) <==> files.contains(f),
        forall|i: int, j: int|
            0 <= i < j < files.len() ==> crate::order::text_le(
                (#[trigger] by_path(files)[i]).relative_path,
                (#[trigger] by_path(files)[j]).relative_path,
            ),
{
    let keys = files.map_values(|f: ScannedView| f.relative_path);
    let order = stable_order(keys, by_text());
    let r = by_path(files);
    crate::order::lemma_by_text();
    crate::order::law_stable_order(keys, by_text());
    assert forall|f: ScannedView| #[trigger] r.contains(f) <==> files.contains(f) by {
        if r.contains(f) {
            let i = choose|i: int| 0 <= i < r.len() && r[i] == f;
            assert(0 <= order[i] < files.len());
            assert(files[order[i]] == f);
        }
        if files.contains(f) {
            let i = choose|i: int| 0 <= i < files.len() && files[i] == f;
            assert(order.contains(i));
            let j = choose|j: int| 0 <= j < order.len() && order[j] == i;
            assert(r[j] == f);
        }
    }
    assert forall|i: int, j: int| 0 <= i < j < files.len() implies crate::order::text_le(
        (#[trigger] r[i]).relative_path,
        (#[trigger] r[j]).relative_path,
    ) by {
        assert(crate::order::comes_before(keys, by_text(), order[i], order[j]));
        assert(0 <= order[i] < files.len() && 0 <= order[j] < files.len());
    }
}

/// A regular file inside the root, of a language that is read and without secrets in its
/// name, is found with its place and its size while the limits allow it; nothing else is.
pub proof fn law_what_is_found(s: ScanView, name: Seq<char>, facts: FactsView)
    ensures
        ({
            let t = s.inspected(name, facts);
            let may = s.report.files.len() < s.limits.max_files && s.total_bytes
                < s.limits.max_total_bytes && !is_sensitive(name) && language(name) is Some
                && facts.is_file && facts.place is Some && facts.size_bytes
                <= s.limits.max_file_bytes && s.total_bytes + facts.size_bytes
                <= s.limits.max_total_bytes;
            if may {
                &&& t.report.files.len() == s.report.files.len() + 1
                &&& t.report.files.drop_last() == s.report.files
                &&& t.report.files.last().absolute_path == facts.place.unwrap().0
                &&& t.report.files.last().relative_path == replace(
                    facts.place.unwrap().1,
                    "\\"@,
                    "/"@,
                )
                &&& t.report.files.last().size_bytes == facts.size_bytes
                &&& Some(t.report.files.last().language) == language(name)
                &&& t.report.skipped == s.report.skipped
                &&& t.report.errors == s.report.errors
            } else {
                &&& t.report.files == s.report.files
                &&& t.report.skipped == s.report.skipped + 1
                &&& t.report.errors == s.report.errors
                &&& t.total_bytes == s.total_bytes
            }
        }),
{
    let t = s.inspected(name, facts);
    if t.report.files.len() > s.report.files.len() {
        assert(t.report.files.drop_last() =~= s.report.files);
    }
}

/// A name is a stem, a dot and an extension.
pub open spec fn is_named(name: Seq<char>, stem: Seq<char>, extension: Seq<char>) -> bool {
    stem.len() > 0 && name == stem + seq!['.'] + extension
}

/// The extension of a file name is what stands behind its last dot, which is not its first
/// character; it has no dot itself.
pub proof fn law_extension(name: Seq<char>)
    ensures
        extension(name) matches Some(e) ==> !e.contains('.') && exists|stem: Seq<char>| #[trigger]
            is_named(name, stem, e),
        extension(name) is None && name != ".."@ ==> forall|i: int|
            0 < i < name.len() ==> name[i] != '.',
{
    lemma_before_last_splits(name, '.');
    if let Some(head) = before_last(name, '.') {
        let e = name.skip((head.len() + 1) as int);
        assert(name =~= head + seq!['.'] + e);
        if extension(name) is Some {
            assert(extension(name) == Some(e));
            assert(!e.contains('.'));
            assert(is_named(name, head, e));
        }
        if extension(name) is None && name != ".."@ {
            assert forall|i: int| 0 < i < name.len() implies name[i] != '.' by {
                assert(e[i - 1] == name[i]);
                assert(e.contains(e[i - 1]));
            }
        }
    } else {
        assert forall|i: int| 0 < i < name.len() implies name[i] != '.' by {
            assert(name.contains(name[i]));
        }
    }
}

/// The text before the last `c` is followed by it, and no other `c` comes behind.
pub proof fn lemma_before_last_splits(s: Seq<char>, c: char)
    ensures
        match before_last(s, c) {
            Some(head) => head.len() < s.len() && s.take(head.len() as int) == head && s[head.len() as int]
                == c && !s.skip((head.len() + 1) as int).contains(c),
            None => !s.contains(c),
        },
    decreases s.len(),
{
    if s.len() > 0 {
        let p = s.drop_last();
        if s.last() == c {
            assert(s.take(p.len() as int) =~= p);
            assert(s.skip((p.len() + 1) as int) =~= Seq::<char>::empty());
        } else {
            lemma_before_last_splits(p, c);
            match before_last(s, c) {
                Some(head) => {
                    assert(s.take(head.len() as int) =~= p.take(head.len() as int));
                    let t = s.skip((head.len() + 1) as int);
                    let u = p.skip((head.len() + 1) as int);
                    assert forall|i: int| 0 <= i < t.len() implies t[i] != c by {
                        if i < u.len() {
                            assert(u.contains(u[i]));
                            assert(t[i] == u[i]);
                        }
                    }
                },
                None => {
                    assert forall|i: int| 0 <= i < s.len() implies s[i] != c by {
                        if i < p.len() {
                            assert(p.contains(p[i]));
                        }
                    }
                },
            }
        }
    }
}

} // verus!
