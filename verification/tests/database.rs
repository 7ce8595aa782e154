use kuznor::code::types::{CodeProjectStatus, ScanPartialReason, ScanReport, ScannedCodeFile};
use kuznor::db::{
    bytes_to_embedding, classify_database, confirm_preflight, delete_missing_code_files,
    embedding_to_bytes, is_searchable, mark_interrupted_code_projects, migration_steps,
    missing_files, quick_check,
    status_at_startup, transition_code_project_status, valid_library_name, validate_schema,
    ColumnInfo, DatabaseError, DatabaseState, ForeignKeyInfo, IndexInfo, MigrationStep, Preflight,
    PruneError, Schema, SchemaProblem, StatusError, TableInfo, CURRENT_SCHEMA_VERSION,
};
use rusqlite::Connection;

const CREATE_TABLES_V1: &str = r#"
    CREATE TABLE settings (key TEXT PRIMARY KEY, value TEXT NOT NULL);
    CREATE TABLE libraries (
        id INTEGER PRIMARY KEY, name TEXT NOT NULL UNIQUE, created_at TEXT NOT NULL
    );
    CREATE TABLE chats (
        id INTEGER PRIMARY KEY, title TEXT NOT NULL, profile TEXT NOT NULL,
        library_id INTEGER REFERENCES libraries(id) ON DELETE SET NULL,
        created_at TEXT NOT NULL, updated_at TEXT NOT NULL
    );
    CREATE TABLE messages (
        id INTEGER PRIMARY KEY, chat_id INTEGER NOT NULL REFERENCES chats(id) ON DELETE CASCADE,
        role TEXT NOT NULL, content TEXT NOT NULL, sources_json TEXT NOT NULL DEFAULT '[]',
        created_at TEXT NOT NULL
    );
    CREATE TABLE documents (
        id INTEGER PRIMARY KEY, library_id INTEGER NOT NULL REFERENCES libraries(id) ON DELETE CASCADE,
        name TEXT NOT NULL, original_path TEXT NOT NULL, hash TEXT NOT NULL,
        file_type TEXT NOT NULL, status TEXT NOT NULL, error TEXT, created_at TEXT NOT NULL,
        UNIQUE(library_id, hash)
    );
    CREATE TABLE document_chunks (
        id INTEGER PRIMARY KEY, document_id INTEGER NOT NULL REFERENCES documents(id) ON DELETE CASCADE,
        chunk_index INTEGER NOT NULL, content TEXT NOT NULL, page_number INTEGER,
        section TEXT, embedding BLOB NOT NULL, UNIQUE(document_id, chunk_index)
    );
    CREATE TABLE code_projects (
        id INTEGER PRIMARY KEY, name TEXT NOT NULL, root_path TEXT NOT NULL UNIQUE,
        status TEXT NOT NULL DEFAULT 'listo', last_opened TEXT NOT NULL
    );
    CREATE TABLE code_files (
        id INTEGER PRIMARY KEY, project_id INTEGER NOT NULL REFERENCES code_projects(id) ON DELETE CASCADE,
        relative_path TEXT NOT NULL, hash TEXT NOT NULL, extension TEXT NOT NULL,
        language TEXT NOT NULL, size_bytes INTEGER NOT NULL, error TEXT,
        indexed_at TEXT NOT NULL, UNIQUE(project_id, relative_path)
    );
    CREATE TABLE code_chunks (
        id INTEGER PRIMARY KEY, file_id INTEGER NOT NULL REFERENCES code_files(id) ON DELETE CASCADE,
        chunk_index INTEGER NOT NULL, line_start INTEGER NOT NULL, line_end INTEGER NOT NULL,
        content TEXT NOT NULL, embedding BLOB NOT NULL, UNIQUE(file_id, chunk_index)
    );
"#;

const CREATE_INDEXES_V1: &str = r#"
    CREATE INDEX IF NOT EXISTS idx_messages_chat ON messages(chat_id, id);
    CREATE INDEX IF NOT EXISTS idx_documents_library ON documents(library_id);
    CREATE INDEX IF NOT EXISTS idx_chunks_document ON document_chunks(document_id);
    CREATE INDEX IF NOT EXISTS idx_code_files_project ON code_files(project_id);
    CREATE INDEX IF NOT EXISTS idx_code_chunks_file ON code_chunks(file_id);
"#;

fn names(connection: &Connection, sql: &str) -> Vec<String> {
    let mut statement = connection.prepare(sql).unwrap();
    let rows = statement.query_map([], |row| row.get::<_, String>(0)).unwrap();
    rows.map(|row| row.unwrap()).collect()
}

fn index_columns(connection: &Connection, index: &str) -> Vec<String> {
    names(connection, &format!("SELECT name FROM pragma_index_info('{index}')"))
}

/// What a database says of its own tables and indexes.
fn schema(connection: &Connection) -> Schema {
    let mut tables = Vec::new();
    let mut indexes = Vec::new();
    for name in names(connection, "SELECT name FROM sqlite_schema WHERE type='table'") {
        let mut statement = connection.prepare(&format!("PRAGMA table_info({name})")).unwrap();
        let columns = statement
            .query_map([], |row| Ok(ColumnInfo { name: row.get(1)?, key_position: row.get(5)? }))
            .unwrap()
            .map(|row| row.unwrap())
            .collect();
        let mut statement = connection.prepare(&format!("PRAGMA foreign_key_list({name})")).unwrap();
        let foreign_keys = statement
            .query_map([], |row| {
                Ok(ForeignKeyInfo {
                    parent: row.get(2)?,
                    from: row.get(3)?,
                    to: row.get(4)?,
                    on_delete: row.get(6)?,
                })
            })
            .unwrap()
            .map(|row| row.unwrap())
            .collect();
        let mut statement = connection.prepare(&format!("PRAGMA index_list({name})")).unwrap();
        let own = statement
            .query_map([], |row| Ok((row.get::<_, String>(1)?, row.get::<_, i64>(2)?)))
            .unwrap()
            .map(|row| row.unwrap())
            .collect::<Vec<_>>();
        for (index, unique) in own {
            indexes.push(IndexInfo {
                columns: index_columns(connection, &index),
                name: index,
                table: name.clone(),
                unique: unique != 0,
            });
        }
        tables.push(TableInfo { name, columns, foreign_keys });
    }
    Schema { tables, indexes }
}

fn legacy() -> Connection {
    let connection = Connection::open_in_memory().unwrap();
    connection.execute_batch(CREATE_TABLES_V1).unwrap();
    connection
}

fn current() -> Connection {
    let connection = legacy();
    connection.execute_batch(CREATE_INDEXES_V1).unwrap();
    connection
}

#[test]
fn a_new_database_gets_the_current_schema() {
    let empty = Schema { tables: vec![], indexes: vec![] };
    let found = classify_database(0, true, &empty).unwrap();
    assert_eq!(found, Preflight { version: 0, state: DatabaseState::Empty });
    let steps = migration_steps(found.state);
    assert_eq!(steps[0], MigrationStep::CreateTables);
    assert_eq!(*steps.last().unwrap(), MigrationStep::Commit);

    let made = schema(&current());
    assert_eq!(validate_schema(&made, true), Ok(()));
    assert_eq!(
        classify_database(CURRENT_SCHEMA_VERSION, false, &made).unwrap().state,
        DatabaseState::CurrentV1
    );
}

#[test]
fn legacy_v0_migration_creates_missing_safe_indexes() {
    let before = schema(&legacy());
    assert_eq!(classify_database(0, false, &before).unwrap().state, DatabaseState::LegacyV0);
    assert!(matches!(validate_schema(&before, true), Err(SchemaProblem::Index(_, _, _))));
    let steps = migration_steps(DatabaseState::LegacyV0);
    assert!(!steps.contains(&MigrationStep::CreateTables));
    assert!(steps.contains(&MigrationStep::CreateIndexes));
    for index in [
        "idx_messages_chat",
        "idx_documents_library",
        "idx_chunks_document",
        "idx_code_files_project",
        "idx_code_chunks_file",
    ] {
        assert!(schema(&current()).indexes.iter().any(|i| i.name == index));
    }
}

#[test]
fn a_current_database_needs_no_migration() {
    assert!(migration_steps(DatabaseState::CurrentV1).is_empty());
}

#[test]
fn future_schema_is_rejected_without_modifying_it() {
    let error = classify_database(2, false, &schema(&current())).unwrap_err();
    assert_eq!(error, DatabaseError::Newer(2));
    assert!(error.message().contains("mas reciente"));
    let unknown = classify_database(-3, false, &schema(&current())).unwrap_err();
    assert!(unknown.message().contains("user_version=-3"));
}

#[test]
fn partial_legacy_database_is_rejected_without_schema_repair() {
    let connection = Connection::open_in_memory().unwrap();
    connection
        .execute_batch("CREATE TABLE settings (key TEXT PRIMARY KEY, value TEXT NOT NULL);")
        .unwrap();
    let error = classify_database(0, false, &schema(&connection)).unwrap_err();
    assert!(error.message().contains("esquema legacy v0.1"));
    assert_eq!(
        error,
        DatabaseError::NotLegacy(SchemaProblem::Table("libraries".to_string()))
    );
}

#[test]
fn legacy_database_missing_required_column_is_rejected() {
    let connection = legacy();
    connection.execute_batch("PRAGMA foreign_keys=OFF;").unwrap();
    connection.execute_batch("ALTER TABLE messages DROP COLUMN sources_json;").unwrap();
    let problem = validate_schema(&schema(&connection), false).unwrap_err();
    assert!(problem.message().contains("messages.sources_json"));
}

#[test]
fn a_schema_without_its_constraints_is_rejected() {
    let mut found = schema(&current());
    found.indexes.retain(|i| !(i.table == "libraries" && i.unique));
    assert_eq!(
        validate_schema(&found, true),
        Err(SchemaProblem::Unique("libraries".to_string(), vec!["name".to_string()]))
    );
    let mut found = schema(&current());
    for table in &mut found.tables {
        table.foreign_keys.retain(|k| k.parent != "chats");
    }
    let problem = validate_schema(&found, true).unwrap_err();
    assert_eq!(
        problem.message(),
        "Falta la relacion requerida messages.chat_id -> chats.id ON DELETE CASCADE"
    );
    let mut found = schema(&current());
    for table in &mut found.tables {
        for column in &mut table.columns {
            column.key_position = 0;
        }
    }
    assert_eq!(
        validate_schema(&found, true),
        Err(SchemaProblem::PrimaryKey("settings".to_string()))
    );
}

#[test]
fn a_database_that_changes_or_is_damaged_is_not_used() {
    let first = Preflight { version: 0, state: DatabaseState::LegacyV0 };
    let second = Preflight { version: 1, state: DatabaseState::CurrentV1 };
    assert_eq!(confirm_preflight(first, first), Ok(DatabaseState::LegacyV0));
    assert_eq!(confirm_preflight(first, second), Err(DatabaseError::Changed));
    assert_eq!(quick_check(vec!["OK".to_string()]), Ok(()));
    let damage = quick_check(vec!["fila rota".to_string()]).unwrap_err();
    assert!(damage.message().contains("fila rota"));
}

#[test]
fn the_version_is_set_after_all_checks() {
    for state in [DatabaseState::Empty, DatabaseState::LegacyV0] {
        let steps = migration_steps(state);
        let place = |step| steps.iter().position(|s| *s == step).unwrap();
        assert!(place(MigrationStep::ValidateSchema) < place(MigrationStep::SetVersion));
        assert!(place(MigrationStep::CheckForeignKeys) < place(MigrationStep::SetVersion));
        assert!(place(MigrationStep::QuickCheck) < place(MigrationStep::SetVersion));
    }
}

fn scan_report(paths: &[&str], complete: bool) -> ScanReport {
    let mut report = ScanReport::complete();
    report.files = paths
        .iter()
        .map(|relative_path| ScannedCodeFile {
            absolute_path: relative_path.to_string(),
            relative_path: relative_path.to_string(),
            extension: "rs".to_string(),
            language: "rust".to_string(),
            size_bytes: 1,
        })
        .collect();
    if !complete {
        report.mark_partial(ScanPartialReason::FileLimit);
    }
    report
}

#[test]
fn complete_scan_prunes_only_the_deleted_file() {
    let report = scan_report(&["kept.rs"], true);
    let known = vec!["kept.rs".to_string(), "deleted.rs".to_string()];
    let missing = missing_files(&known, &report);
    assert_eq!(missing, ["deleted.rs"]);
    assert_eq!(delete_missing_code_files(&report, &missing), Ok(()));
}

#[test]
fn partial_scan_cannot_prune_existing_files_or_other_projects() {
    let report = scan_report(&["a.rs", "new.rs"], false);
    let error = delete_missing_code_files(&report, &vec!["unobserved.rs".to_string()]).unwrap_err();
    assert_eq!(error, PruneError::PartialScan);
    assert!(error.message().contains("scan parcial"));
}

#[test]
fn complete_scan_cannot_prune_an_observed_file_even_if_the_caller_requests_it() {
    let report = scan_report(&["main.rs"], true);
    let error = delete_missing_code_files(&report, &vec!["main.rs".to_string()]).unwrap_err();
    assert_eq!(error, PruneError::Observed);
    assert!(error.message().contains("observado"));
}

#[test]
fn project_statuses_preserve_complete_partial_and_failed_outcomes() {
    let step = |from: &str, to| transition_code_project_status(&Some(from.to_string()), to);
    assert_eq!(step("indexing", CodeProjectStatus::Ready), Ok(()));
    assert_eq!(step("ready", CodeProjectStatus::Partial), Ok(()));
    assert_eq!(
        step("partial", CodeProjectStatus::Ready),
        Err(StatusError::Forbidden(CodeProjectStatus::Partial, CodeProjectStatus::Ready))
    );
    assert_eq!(step("partial", CodeProjectStatus::Failed), Ok(()));
    assert_eq!(
        step("raro", CodeProjectStatus::Ready),
        Err(StatusError::Unknown("raro".to_string()))
    );
    assert_eq!(
        transition_code_project_status(&None, CodeProjectStatus::Ready),
        Err(StatusError::Missing)
    );
}

#[test]
fn a_failed_project_is_not_searchable() {
    let ready = Some("ready".to_string());
    assert_eq!(transition_code_project_status(&ready, CodeProjectStatus::Failed), Ok(()));
    assert!(is_searchable("ready"));
    assert!(!is_searchable(CodeProjectStatus::Failed.as_str()));
}

#[test]
fn interrupted_or_cancelled_code_projects_are_never_searchable_as_ready() {
    let interrupted = status_at_startup("indexing");
    assert!(!is_searchable(&interrupted));
    let stored = Some(interrupted);
    assert!(transition_code_project_status(&stored, CodeProjectStatus::Ready).is_err());
    assert_eq!(transition_code_project_status(&stored, CodeProjectStatus::Indexing), Ok(()));
    let indexing = Some(CodeProjectStatus::Indexing.as_str().to_string());
    assert_eq!(transition_code_project_status(&indexing, CodeProjectStatus::Ready), Ok(()));
    assert!(is_searchable(CodeProjectStatus::Ready.as_str()));
    assert_eq!(status_at_startup("ready"), "ready");
}

#[test]
fn exactly_the_interrupted_projects_are_marked_once() {
    let stored = |rows: &[(i64, &str)]| -> Vec<(i64, String)> {
        rows.iter().map(|(id, status)| (*id, status.to_string())).collect()
    };
    let mut projects =
        stored(&[(1, "ready"), (2, "indexing"), (3, "failed"), (4, "escaneando"), (5, "otro")]);
    assert_eq!(mark_interrupted_code_projects(&mut projects), [2, 4]);
    let expected =
        stored(&[(1, "ready"), (2, "partial"), (3, "failed"), (4, "partial"), (5, "otro")]);
    assert_eq!(projects, expected);
    assert!(!is_searchable(&projects[1].1) && !is_searchable(&projects[3].1));
    assert!(mark_interrupted_code_projects(&mut projects).is_empty());
    assert_eq!(projects, expected);
}

#[test]
fn embedding_serialization_round_trip() {
    let v: Vec<u32> = [1.0_f32, -2.5, 0.25].iter().map(|x| x.to_bits()).collect();
    assert_eq!(bytes_to_embedding(&embedding_to_bytes(&v)).unwrap(), v);
    assert_eq!(embedding_to_bytes(&vec![1.0_f32.to_bits()]), 1.0_f32.to_le_bytes());
}

#[test]
fn an_embedding_of_a_wrong_length_is_refused() {
    assert_eq!(bytes_to_embedding(&vec![0x01]), None);
    assert_eq!(bytes_to_embedding(&vec![]), Some(vec![]));
}

#[test]
fn library_names_are_trimmed_and_empty_names_are_rejected() {
    assert_eq!(valid_library_name(""), None);
    assert_eq!(valid_library_name("  \t\n "), None);
    assert_eq!(valid_library_name("  Tumama  "), Some("Tumama".to_string()));
    assert_eq!(valid_library_name("   "), None);
    assert_eq!(valid_library_name("  Trabajo "), Some("Trabajo".to_string()));
}
