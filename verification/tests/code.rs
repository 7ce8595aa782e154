use std::sync::atomic::{AtomicBool, AtomicUsize, Ordering};

use kuznor::ai::conversation::ApiMessage;
use kuznor::code::indexer::{
    bytes_hash, chunk_code, confirm_reading, content_hash, decode_source,
    embed_code_chunks_cancellable, metadata_changed, needs_reindex, read_bounded,
    source_read_error_kind, source_unchanged, validate_source_path, FileStamp, IndexError,
    SourcePathFacts, SourceReadErrorKind,
};
use kuznor::code::prompt::{code_history_without_evidence, code_prompt, code_prompt_diagnostic};
use kuznor::code::scanner::{
    scan_single_file, scanned_file, supported_language, Entry, FileFacts, FilePlace, ScanAction,
    ScanLimits, ScanState, ScannedFile, MAX_FILE_BYTES,
};
use kuznor::code::search::{
    mentions_path, resolve_file_scope, search_code_scoped, targets_selected_file, ScoredCodeChunk,
};
use kuznor::code::types::{
    CodeChunk, CodeFile, CodeProjectStatus, ScanCompleteness, ScanPartialReason, ScanReport,
};
use kuznor::documents::EMBEDDING_BATCH_SIZE;
use kuznor::models::{Message, Score};
use kuznor::rag::embeddings::EmbeddingProvider;

fn bits(values: &[f32]) -> Vec<u32> {
    values.iter().map(|v| v.to_bits()).collect()
}

fn score(value: f32) -> Score {
    Score { bits: value.to_bits(), three: format!("{value:.3}"), four: format!("{value:.4}") }
}

struct TestProvider;

impl EmbeddingProvider for TestProvider {
    fn embed_documents(&self, texts: &Vec<String>) -> Result<Vec<Vec<u32>>, String> {
        Ok(texts.iter().map(|_| bits(&[1.0, 0.0])).collect())
    }

    fn embed_query(&self, _query: &str) -> Result<Vec<u32>, String> {
        Ok(bits(&[1.0, 0.0]))
    }
}

/// Gives each text a vector of its own: its length and its last character.
struct TellingProvider;

impl EmbeddingProvider for TellingProvider {
    fn embed_documents(&self, texts: &Vec<String>) -> Result<Vec<Vec<u32>>, String> {
        Ok(texts
            .iter()
            .map(|text| vec![text.len() as u32, text.chars().last().unwrap() as u32])
            .collect())
    }

    fn embed_query(&self, _query: &str) -> Result<Vec<u32>, String> {
        Err("sin pregunta".to_string())
    }
}

#[test]
fn each_part_of_code_keeps_the_lines_and_gets_the_vector_of_its_chunk() {
    let source = (1..=900)
        .map(|line| format!("v{line}"))
        .collect::<Vec<_>>()
        .join("\n");
    let chunks = chunk_code(1, 2, "src/main.rs", "rs", "rust", &source);
    assert!(chunks.len() > 8);
    let embedded =
        embed_code_chunks_cancellable(&TellingProvider, &chunks, &AtomicBool::new(false)).unwrap();
    let mut at = 0;
    let letters = |text: &str| text.chars().filter(|c| !c.is_whitespace()).collect::<String>();
    for chunk in &chunks {
        let mut gathered = String::new();
        while gathered != letters(&chunk.content) {
            let part = &embedded[at];
            assert_eq!((part.line_start, part.line_end), (chunk.line_start, chunk.line_end));
            assert_eq!(part.chunk_index, at);
            let last = part.content.chars().last().unwrap() as u32;
            assert_eq!(part.embedding, vec![part.content.len() as u32, last]);
            gathered.push_str(&letters(&part.content));
            at += 1;
        }
    }
    assert_eq!(at, embedded.len());
}

struct CancellingProvider<'a> {
    cancelled: &'a AtomicBool,
    calls: &'a AtomicUsize,
}

impl EmbeddingProvider for CancellingProvider<'_> {
    fn embed_documents(&self, texts: &Vec<String>) -> Result<Vec<Vec<u32>>, String> {
        self.calls.fetch_add(1, Ordering::Relaxed);
        self.cancelled.store(true, Ordering::Relaxed);
        Ok(texts.iter().map(|_| bits(&[1.0, 0.0])).collect())
    }

    fn embed_query(&self, _query: &str) -> Result<Vec<u32>, String> {
        unreachable!()
    }
}

#[test]
fn chunks_code_and_preserves_line_ranges() {
    let source = (1..=220)
        .map(|line| format!("let value_{line} = {line};"))
        .collect::<Vec<_>>()
        .join("\n");
    let chunks = chunk_code(1, 2, "src/main.rs", "rs", "rust", &source);
    assert!(chunks.len() > 2);
    assert_eq!(chunks[0].line_start, 1);
    assert!(chunks[0].content.contains("    1 | let value_1"));
    assert!(
        chunks
            .iter()
            .all(|chunk| chunk.line_end >= chunk.line_start)
    );
}

#[test]
fn hashes_drive_incremental_reindexing() {
    let hash = content_hash("fn main() {}");
    assert!(!needs_reindex(Some(&hash), &hash));
    assert!(needs_reindex(Some(&hash), &content_hash("fn changed() {}")));
    assert!(needs_reindex(None, &hash));
}

#[test]
fn indexes_code_chunks_with_embeddings() {
    let chunks = chunk_code(
        1,
        2,
        "src/lib.rs",
        "rs",
        "rust",
        "pub fn answer() -> i32 {\n    42\n}",
    );
    let indexed =
        embed_code_chunks_cancellable(&TestProvider, &chunks, &AtomicBool::new(false)).unwrap();
    assert!(!indexed.is_empty());
    assert!(indexed.iter().all(|chunk| chunk.embedding == bits(&[1.0, 0.0])));
    assert_eq!(indexed[0].relative_path, "src/lib.rs");
}

#[test]
fn cancellation_stops_code_embedding_before_the_next_batch() {
    let cancelled = AtomicBool::new(false);
    let calls = AtomicUsize::new(0);
    let provider = CancellingProvider {
        cancelled: &cancelled,
        calls: &calls,
    };
    let chunks = (0..(EMBEDDING_BATCH_SIZE + 1))
        .map(|index| CodeChunk {
            id: 0,
            project_id: 1,
            file_id: 2,
            relative_path: "src/main.rs".to_string(),
            extension: "rs".to_string(),
            language: "rust".to_string(),
            chunk_index: index,
            line_start: index + 1,
            line_end: index + 1,
            content: format!("fn value_{index}() {{}}"),
            embedding: Vec::new(),
        })
        .collect::<Vec<_>>();

    let error = embed_code_chunks_cancellable(&provider, &chunks, &cancelled).unwrap_err();

    assert!(error.message().contains("Indexacion cancelada"));
    assert_eq!(calls.load(Ordering::Relaxed), 1);
}

fn stamp(size_bytes: u64, modified: i128) -> FileStamp {
    FileStamp { size_bytes, modified: Some(modified) }
}

fn kind_of(error: kuznor::code::indexer::SourceReadError) -> Option<SourceReadErrorKind> {
    source_read_error_kind(&IndexError::Source(error))
}

#[test]
fn unreadable_source_does_not_prevent_the_next_file_from_being_indexed() {
    let mut errors = Vec::new();
    let mut indexed = Vec::new();
    let sources: [(&str, Vec<u8>); 2] = [
        ("01_invalid.rs", vec![0xff, 0xfe, 0xfd]),
        ("02_valid.rs", b"fn valid() -> bool { true }".to_vec()),
    ];
    for (name, bytes) in sources {
        match decode_source(bytes, name, stamp(3, 1)) {
            Ok(source) => indexed.extend(chunk_code(1, 1, name, "rs", "rust", &source.content)),
            Err(error) => errors.push(error.message),
        }
    }

    assert_eq!(errors.len(), 1);
    assert_eq!(indexed.len(), 1);
    assert!(indexed[0].content.contains("fn valid"));
}

#[test]
fn normalizes_utf8_bom_and_accepts_empty_files_without_chunks() {
    let bom_source = decode_source(b"\xef\xbb\xbffn bom() {}".to_vec(), "bom.rs", stamp(14, 1)).unwrap();
    let empty_source = decode_source(vec![], "empty.rs", stamp(0, 1)).unwrap();

    assert_eq!(bom_source.content, "fn bom() {}");
    assert!(chunk_code(1, 1, "empty.rs", "rs", "rust", &empty_source.content).is_empty());
}

#[test]
fn rejects_invalid_utf8_and_binary_nul_without_guessing_an_encoding() {
    let invalid_error = decode_source(vec![0xff, 0xfe], "invalid.rs", stamp(2, 1)).unwrap_err();
    let binary_error =
        decode_source(b"fn binary() {}\0".to_vec(), "binary.rs", stamp(15, 1)).unwrap_err();

    assert_eq!(kind_of(invalid_error), Some(SourceReadErrorKind::InvalidUtf8));
    assert_eq!(kind_of(binary_error), Some(SourceReadErrorKind::Binary));
}

#[test]
fn a_source_over_the_limit_is_refused() {
    let error = read_bounded(vec![b'x'; 9], 8).unwrap_err();
    assert_eq!(error.message, "El archivo supera el limite de 8 bytes");
    assert_eq!(kind_of(error), Some(SourceReadErrorKind::TooLarge));
    assert_eq!(read_bounded(vec![b'x'; 8], 8), Ok(vec![b'x'; 8]));
}

#[test]
fn detects_source_changes_before_publication() {
    let before = stamp(14, 1);
    let after = stamp(30, 2);
    let source = decode_source(b"fn before() {}".to_vec(), "changed.rs", before).unwrap();

    assert!(!source_unchanged(&source, after));
    assert!(source_unchanged(&source, before));
    assert!(metadata_changed(before, after));
    assert!(!metadata_changed(before, before));
    let error = confirm_reading(true, before, after, "changed.rs").unwrap_err();
    assert_eq!(error.message, "El archivo cambio mientras se leia: changed.rs");
    assert_eq!(kind_of(error), Some(SourceReadErrorKind::Changed));
    let moved = confirm_reading(false, before, before, "changed.rs").unwrap_err();
    assert_eq!(kind_of(moved), Some(SourceReadErrorKind::UnsafePath));
    assert_eq!(confirm_reading(true, before, before, "changed.rs"), Ok(()));
}

#[test]
fn rejects_a_source_outside_the_authorized_root_before_opening() {
    let facts = SourcePathFacts { is_link: false, is_file: true, inside_root: false };
    let error = validate_source_path(facts, "outside.rs").unwrap_err();
    assert!(error.message.contains("root autorizado"));
    assert_eq!(kind_of(error), Some(SourceReadErrorKind::UnsafePath));
}

#[test]
fn rejects_a_source_replaced_by_an_external_symlink_before_opening() {
    let facts = SourcePathFacts { is_link: true, is_file: false, inside_root: false };
    let error = validate_source_path(facts, "main.rs").unwrap_err();
    assert!(error.message.contains("enlace"));
    assert_eq!(kind_of(error), Some(SourceReadErrorKind::UnsafePath));
    let folder = SourcePathFacts { is_link: false, is_file: false, inside_root: true };
    assert!(validate_source_path(folder, "main.rs").unwrap_err().message.contains("regular"));
    let good = SourcePathFacts { is_link: false, is_file: true, inside_root: true };
    assert_eq!(validate_source_path(good, "main.rs"), Ok(()));
}

#[test]
fn hashes_are_those_of_the_bytes() {
    assert_eq!(
        content_hash("abc"),
        "ba7816bf8f01cfea414140de5dae2223b00361a396177a9cb410ff61f20015ad"
    );
    assert_eq!(bytes_hash(b"abc"), content_hash("abc"));
    assert_eq!(
        bytes_hash(b""),
        "e3b0c44298fc1c149afbf4c8996fb92427ae41e4649b934ca495991b7852b855"
    );
}

#[test]
fn every_line_of_a_source_is_in_a_chunk() {
    let source = (1..=220).map(|n| format!("linea {n}")).collect::<Vec<_>>().join("\n");
    let chunks = chunk_code(1, 2, "a.rs", "rs", "rust", &source);
    for line in 1..=220 {
        assert!(chunks.iter().any(|c| c.line_start <= line && line <= c.line_end));
    }
    assert_eq!(chunks.last().unwrap().line_end, 220);
}

#[test]
fn prompt_is_read_only_and_has_line_sources() {
    let selected = CodeFile {
        id: 2,
        project_id: 1,
        relative_path: "src/main.rs".to_string(),
        hash: String::new(),
        extension: "rs".to_string(),
        language: "rust".to_string(),
        size_bytes: 10,
        error: None,
    };
    let (prompt, sources) = code_prompt(
        &vec![ScoredCodeChunk {
            chunk: CodeChunk {
                id: 1,
                project_id: 1,
                file_id: 2,
                relative_path: "src/main.rs".to_string(),
                extension: "rs".to_string(),
                language: "rust".to_string(),
                chunk_index: 0,
                line_start: 4,
                line_end: 9,
                content: "fn main() {}".to_string(),
                embedding: vec![],
            },
            score: score(0.9),
        }],
        "kuznor",
        &Some(selected),
    );
    assert!(prompt.contains("modo solo lectura"));
    assert!(prompt.contains("No modifiques archivos"));
    assert!(prompt.contains("Proyecto activo: kuznor"));
    assert!(prompt.contains("src/main.rs [file_id=2]"));
    assert!(prompt.contains("historial conversacional no lo es"));
    assert_eq!(sources[0].relative_path, "src/main.rs");
    assert_eq!(sources[0].line_start, Some(4));
    assert_eq!(sources[0].project_id, 1);
    assert_eq!(sources[0].file_id, 2);
}

#[test]
fn prior_code_answers_never_become_current_evidence() {
    let history = vec![
        Message {
            id: 1,
            chat_id: 1,
            role: "user".to_string(),
            content: "Explica file_a.py".to_string(),
            sources: vec![],
            created_at: String::new(),
        },
        Message {
            id: 2,
            chat_id: 1,
            role: "assistant".to_string(),
            content: "calculate_invoice procesa facturas".to_string(),
            sources: vec![],
            created_at: String::new(),
        },
    ];
    let sanitized = code_history_without_evidence(&history);
    assert_eq!(sanitized.len(), 2);
    assert!(
        sanitized
            .iter()
            .all(|message| !message.content.contains("file_a.py"))
    );
    assert!(
        sanitized
            .iter()
            .all(|message| !message.content.contains("calculate_invoice"))
    );
}

fn chunk(project_id: i64, file_id: i64, embedding: Vec<f32>) -> CodeChunk {
    CodeChunk {
        id: file_id,
        project_id,
        file_id,
        relative_path: format!("src/file_{file_id}.rs"),
        extension: "rs".to_string(),
        language: "rust".to_string(),
        chunk_index: 0,
        line_start: 1,
        line_end: 3,
        content: "fn example() {}".to_string(),
        embedding: bits(&embedding),
    }
}

fn file(id: i64, path: &str) -> CodeFile {
    CodeFile {
        id,
        project_id: 1,
        relative_path: path.to_string(),
        hash: String::new(),
        extension: path.rsplit_once('.').map(|(_, ext)| ext).unwrap_or("").to_string(),
        language: String::new(),
        size_bytes: 1,
        error: None,
    }
}

/// Scores of chunks that point the same way as the question.
fn equal_scores(chunks: &[CodeChunk], query: &str) -> Vec<Score> {
    chunks
        .iter()
        .map(|c| score(if mentions_path(&c.relative_path, query) { 1.18 } else { 1.0 }))
        .collect()
}

#[test]
fn semantic_search_is_scoped_to_selected_file() {
    let chunks = vec![chunk(1, 10, vec![1.0, 0.0]), chunk(1, 11, vec![1.0, 0.0])];
    let given = equal_scores(&chunks, "funcion");
    let result = search_code_scoped(&chunks, &given, 2, 4, &Some(vec![11]));
    assert_eq!(result.len(), 1);
    assert_eq!(result[0].chunk.file_id, 11);
}

#[test]
fn search_never_crosses_the_chunks_it_receives() {
    let project_one = vec![chunk(1, 10, vec![1.0, 0.0])];
    let given = equal_scores(&project_one, "codigo");
    let result = search_code_scoped(&project_one, &given, 2, 4, &None);
    assert_eq!(result.len(), 1);
    assert!(result.iter().all(|item| item.chunk.project_id == 1));
}

#[test]
fn exact_selected_path_does_not_match_generated_config_or_duplicate_names() {
    let files = vec![
        file(1, "src/config.py"),
        file(2, "generated/config.json"),
        file(3, "other/config.py"),
    ];
    assert_eq!(
        resolve_file_scope(&files, "Explica src/config.py", Some(1)),
        Some(vec![1])
    );
    assert_eq!(
        resolve_file_scope(&files, "Explica config.py", Some(1)),
        Some(vec![1])
    );
}

#[test]
fn explicit_two_files_scope_contains_only_both_ids() {
    let files = vec![
        file(1, "src/config.py"),
        file(2, "src/auth_dependencies.py"),
        file(3, "generated/config.json"),
    ];
    assert_eq!(
        resolve_file_scope(
            &files,
            "Compara config.py con auth_dependencies.py",
            Some(1)
        ),
        Some(vec![1, 2])
    );
    assert_eq!(
        resolve_file_scope(
            &files,
            "Compara src/config.py con auth_dependencies.py",
            Some(1)
        ),
        Some(vec![1, 2])
    );
}

#[test]
fn selected_file_scope_is_explicit() {
    assert!(targets_selected_file("Explica el archivo seleccionado"));
    assert!(targets_selected_file("¿Que hace esta funcion?"));
    assert!(!targets_selected_file("¿Donde se conecta con SQLite?"));
}

#[test]
fn changing_selected_file_removes_every_chunk_from_the_previous_file() {
    let mut invoice = chunk(1, 10, vec![1.0, 0.0]);
    invoice.relative_path = "src/file_a.py".to_string();
    invoice.content = "def calculate_invoice(): pass".to_string();
    let mut logging = chunk(1, 20, vec![1.0, 0.0]);
    logging.relative_path = "src/file_b.py".to_string();
    logging.content = "LOG_LEVEL = 'INFO'".to_string();
    let chunks = vec![invoice, logging];
    let given = equal_scores(&chunks, "Explica este archivo");
    let result = search_code_scoped(&chunks, &given, 2, 4, &Some(vec![20]));
    assert_eq!(result.len(), 1);
    assert_eq!(result[0].chunk.file_id, 20);
    assert!(result[0].chunk.content.contains("LOG_LEVEL"));
    assert!(!result[0].chunk.content.contains("calculate_invoice"));
}

#[test]
fn a_selection_without_a_file_allows_none() {
    let files = vec![file(1, "src/a.py")];
    assert_eq!(resolve_file_scope(&files, "Explica el archivo seleccionado", None), Some(vec![]));
    assert_eq!(resolve_file_scope(&files, "Explica el archivo seleccionado", Some(1)), Some(vec![1]));
    assert_eq!(resolve_file_scope(&files, "Donde se conecta?", Some(1)), None);
}

#[test]
fn weak_scores_and_other_sizes_are_left_out() {
    let chunks = vec![chunk(1, 10, vec![1.0, 0.0]), chunk(1, 11, vec![1.0])];
    let result = search_code_scoped(&chunks, &vec![score(0.9), score(0.9)], 2, 4, &None);
    assert_eq!(result.iter().map(|r| r.chunk.file_id).collect::<Vec<_>>(), [10]);
    let weak = search_code_scoped(&chunks, &vec![score(0.01), score(0.9)], 2, 4, &None);
    assert!(weak.is_empty());
}

#[test]
fn a_code_diagnostic_holds_what_was_sent() {
    let found = vec![ScoredCodeChunk { chunk: chunk(1, 10, vec![]), score: score(0.5) }];
    let sent = vec![ApiMessage { role: "user".to_string(), content: "pregunta".to_string() }];
    let text = code_prompt_diagnostic("reglas", "pregunta", "kuznor", &None, &found, &sent);
    assert!(text.contains("\n\nPROYECTO ACTIVO\nkuznor\n\nARCHIVO SELECCIONADO\nNinguno"));
    assert!(text.contains("\nsrc/file_10.rs | lineas 1-3 | score 0.5000\nfn example() {}\n"));
    let chosen = code_prompt_diagnostic("r", "p", "k", &Some(file(7, "a.py")), &vec![], &vec![]);
    assert!(chosen.contains("file_id=7 | a.py"));
}

// ---------------------------------------------------------------------- scanner

#[test]
fn recognizes_supported_extensions() {
    assert_eq!(supported_language("src/main.rs"), Some("rust"));
    assert_eq!(supported_language("app.tsx"), Some("tsx"));
    assert_eq!(supported_language("image.png"), None);
}

/// A tree of files in memory: paths with their contents.
struct Tree {
    files: Vec<(&'static str, &'static str)>,
    closed: Option<&'static str>,
}

impl Tree {
    fn new(files: &[(&'static str, &'static str)]) -> Tree {
        Tree { files: files.to_vec(), closed: None }
    }

    fn entries(&self, directory: &str) -> Vec<Entry> {
        let prefix = if directory.is_empty() { String::new() } else { format!("{directory}/") };
        let mut names: Vec<(String, bool)> = Vec::new();
        for (path, _) in &self.files {
            if let Some(rest) = path.strip_prefix(prefix.as_str()) {
                let (name, is_dir) = match rest.split_once('/') {
                    Some((name, _)) => (name, true),
                    None => (rest, false),
                };
                if !names.iter().any(|(known, _)| known == name) {
                    names.push((name.to_string(), is_dir));
                }
            }
        }
        names
            .into_iter()
            .map(|(name, is_dir)| {
                let path = format!("{prefix}{name}");
                if is_dir {
                    let components = path.split('/').map(|part| part.to_string()).collect();
                    Entry::Directory { path, name, components }
                } else {
                    Entry::File { path, name }
                }
            })
            .collect()
    }

    fn facts(&self, path: &str, name: &str) -> FileFacts {
        let content = self.files.iter().find(|(p, _)| *p == path).unwrap().1;
        FileFacts {
            is_file: true,
            size_bytes: content.len() as u64,
            place: Some(FilePlace {
                absolute_path: format!("/root/{path}"),
                relative_path: path.to_string(),
                name: name.to_string(),
            }),
        }
    }

    fn scan(&self, limits: ScanLimits, cancelled: bool) -> ScanReport {
        let (mut state, mut action) = ScanState::begin(String::new(), limits, cancelled);
        loop {
            match action {
                ScanAction::Finished => return state.finish(),
                ScanAction::Continue => {}
                ScanAction::ReadDirectory { path, depth } => {
                    if self.closed == Some(path.as_str()) {
                        state.listing_failed(format!("Sin acceso a {path}"));
                    } else {
                        state.take_listing(self.entries(&path), depth);
                    }
                }
                ScanAction::Inspect { path, name } => {
                    let facts = self.facts(&path, &name);
                    state.take_facts(&name, &facts);
                }
            }
            action = state.step(cancelled);
        }
    }
}

#[test]
fn excludes_heavy_directories_and_sensitive_files() {
    let tree = Tree::new(&[
        ("src/main.rs", "fn main() {}"),
        ("target/generated.rs", "secret"),
        ("node_modules/index.js", "secret"),
        (".env", "TOKEN=x"),
        (".env.local", "sensible"),
        ("credentials.json", "sensible"),
        ("client_secret.json", "sensible"),
        ("private_key.pem", "sensible"),
        ("access_token.txt", "sensible"),
        ("id_rsa.key", "sensible"),
    ]);
    let report = tree.scan(ScanLimits::standard(), false);
    assert_eq!(report.files.len(), 1);
    assert_eq!(report.files[0].relative_path, "src/main.rs");
}

#[test]
fn scanner_rejects_a_file_outside_the_selected_root() {
    let facts = FileFacts { is_file: true, size_bytes: 4, place: None };
    assert!(matches!(
        scanned_file("outside.rs", &facts, ScanLimits::standard()),
        ScannedFile::PolicyExcluded
    ));
}

#[test]
fn excludes_browser_profiles_and_generated_logs_without_rejecting_project_json() {
    let tree = Tree::new(&[
        ("edge-cdp-profile/Default/Extensions/example/service_worker_bin_config.json", "{}"),
        ("src/config.json", "{\"real\":true}"),
    ]);
    let report = tree.scan(ScanLimits::standard(), false);
    assert_eq!(
        report.files.iter().map(|file| file.relative_path.as_str()).collect::<Vec<_>>(),
        ["src/config.json"]
    );
}

#[test]
fn cancellation_stops_scanning_without_returning_a_complete_file_set() {
    let tree = Tree::new(&[("main.rs", "fn main() {}")]);
    let report = tree.scan(ScanLimits::standard(), true);

    assert!(report.files.is_empty());
    assert!(!report.is_complete());
    assert!(matches!(
        report.completeness,
        ScanCompleteness::Partial(ref reasons) if reasons.contains(&ScanPartialReason::Cancelled)
    ));
}

#[test]
fn intentional_exclusions_do_not_make_a_scan_partial() {
    let tree = Tree::new(&[
        ("target/generated.rs", "fn generated() {}"),
        ("secret.env", "TOKEN=x"),
        ("image.png", "not code"),
    ]);
    let report = tree.scan(ScanLimits::standard(), false);

    assert!(report.is_complete());
    assert!(report.files.is_empty());
}

#[test]
fn limits_and_access_errors_return_partial_reports() {
    let mut tree = Tree::new(&[("a.rs", "fn a() {}"), ("b.rs", "fn b() {}")]);
    let one_file = ScanLimits { max_files: 1, ..ScanLimits::standard() };
    assert!(!tree.scan(one_file, false).is_complete());

    let bytes = ScanLimits { max_total_bytes: 1, ..ScanLimits::standard() };
    assert!(!tree.scan(bytes, false).is_complete());

    tree.files.push(("nested/deep.rs", "fn deep() {}"));
    let depth = ScanLimits { max_depth: 0, ..ScanLimits::standard() };
    assert!(!tree.scan(depth, false).is_complete());

    let oversized = ScanLimits { max_file_bytes: 1, ..ScanLimits::standard() };
    assert!(!tree.scan(oversized, false).is_complete());

    tree.closed = Some("nested");
    let report = tree.scan(ScanLimits::standard(), false);
    assert!(!report.is_complete());
    assert!(report.errors.iter().any(|error| error.contains("acceso")));
}

#[test]
fn files_come_in_the_order_of_their_paths() {
    let tree = Tree::new(&[("z.rs", "z"), ("a/b.py", "b"), ("m.rs", "m")]);
    let report = tree.scan(ScanLimits::standard(), false);
    assert!(report.is_complete());
    assert_eq!(
        report.files.iter().map(|f| f.relative_path.as_str()).collect::<Vec<_>>(),
        ["a/b.py", "m.rs", "z.rs"]
    );
    assert_eq!(report.files[0].language, "python");
    assert_eq!(report.files[0].extension, "py");
}

#[test]
fn a_single_file_is_scanned_by_the_same_rules() {
    let tree = Tree::new(&[("main.rs", "fn main() {}"), (".env", "TOKEN=x")]);
    let scanned = scan_single_file("main.rs", &tree.facts("main.rs", "main.rs")).unwrap();
    assert_eq!(scanned.language, "rust");
    assert_eq!(scanned.size_bytes, 12);
    assert!(scan_single_file(".env", &tree.facts(".env", ".env")).is_none());
    let large = FileFacts { size_bytes: MAX_FILE_BYTES + 1, ..tree.facts("main.rs", "main.rs") };
    assert!(scan_single_file("main.rs", &large).is_none());
}

#[test]
fn a_partial_project_becomes_ready_only_by_indexing() {
    assert_eq!(CodeProjectStatus::parse("listo"), Some(CodeProjectStatus::Ready));
    assert_eq!(CodeProjectStatus::parse("otro"), None);
    assert_eq!(CodeProjectStatus::Partial.as_str(), "partial");
    assert!(!CodeProjectStatus::Partial.can_transition_to(CodeProjectStatus::Ready));
    assert!(CodeProjectStatus::Partial.can_transition_to(CodeProjectStatus::Indexing));
    assert!(CodeProjectStatus::Indexing.can_transition_to(CodeProjectStatus::Ready));
}

#[test]
fn a_complete_scan_has_reached_no_limit() {
    let tree = Tree::new(&[("a.rs", "1"), ("b.rs", "22"), ("image.png", "x")]);
    let whole = tree.scan(ScanLimits::standard(), false);
    assert!(whole.is_complete());
    assert_eq!((whole.files.len(), whole.skipped), (2, 1));
    let limits = ScanLimits { max_files: 2, ..ScanLimits::standard() };
    let full = tree.scan(limits, false);
    assert!(!full.is_complete());
    assert_eq!(full.files.len(), 2);
    let limits = ScanLimits { max_files: 0, ..ScanLimits::standard() };
    assert!(!tree.scan(limits, false).is_complete());
}
