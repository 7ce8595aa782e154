//! Rules of the local database: what its schema has to be, how it is brought up to
//! date, which changes to the index are allowed, and how embeddings are stored.

use vstd::prelude::*;
use vstd::string::StringExecFns;

use crate::code::types::{CodeProjectStatus, ScanReport, ScannedView};
use crate::models::opt_text;
use crate::text::{
    ascii_lower, integer, integer_string, is_blank, join, joined, same,
    same_ignoring_ascii_case, str_views, trim, trimmed, views,
};

verus! {

/// The version of the schema that this library knows.
pub const CURRENT_SCHEMA_VERSION: i32 = 1;

/// The name of a library as it is stored; none where it is blank.
pub fn valid_library_name(name: &str) -> (r: Option<String>)
    ensures
        match r {
            Some(n) => !is_blank(name@) && n@ == trim(name@),
            None => is_blank(name@),
        },
{
    let n = trimmed(name);
    if n.as_str().is_empty() {
        None
    } else {
        Some(n)
    }
}

pub const EMPTY_LIBRARY_NAME: &'static str = "El nombre de la biblioteca no puede estar vacio";

// ----------------------------------------------------------------------- schema

/// A column of a table; `key_position` is its place in the primary key, zero where
/// it is not part of it.
#[derive(Debug, PartialEq, Eq)]
pub struct ColumnInfo {
    pub name: String,
    pub key_position: i64,
}

/// A foreign key of a table.
#[derive(Debug, PartialEq, Eq)]
pub struct ForeignKeyInfo {
    pub parent: String,
    pub from: String,
    pub to: String,
    pub on_delete: String,
}

/// What a `ForeignKeyInfo` holds.
pub struct KeyView {
    pub parent: Seq<char>,
    pub from: Seq<char>,
    pub to: Seq<char>,
    pub on_delete: Seq<char>,
}

impl View for ForeignKeyInfo {
    type V = KeyView;

    open spec fn view(&self) -> KeyView {
        KeyView {
            parent: self.parent@,
            from: self.from@,
            to: self.to@,
            on_delete: self.on_delete@,
        }
    }
}

/// A table.
#[derive(Debug, PartialEq, Eq)]
pub struct TableInfo {
    pub name: String,
    pub columns: Vec<ColumnInfo>,
    pub foreign_keys: Vec<ForeignKeyInfo>,
}

/// What a `TableInfo` holds.
pub struct TableView {
    pub name: Seq<char>,
    pub columns: Seq<(Seq<char>, i64)>,
    pub foreign_keys: Seq<KeyView>,
}

impl View for TableInfo {
    type V = TableView;

    open spec fn view(&self) -> TableView {
        TableView {
            name: self.name@,
            columns: self.columns@.map_values(|c: ColumnInfo| (c.name@, c.key_position)),
            foreign_keys: self.foreign_keys@.map_values(|k: ForeignKeyInfo| k@),
        }
    }
}

/// An index on columns of a table.
#[derive(Debug, PartialEq, Eq)]
pub struct IndexInfo {
    pub name: String,
    pub table: String,
    pub unique: bool,
    pub columns: Vec<String>,
}

/// What an `IndexInfo` holds.
pub struct IndexView {
    pub name: Seq<char>,
    pub table: Seq<char>,
    pub unique: bool,
    pub columns: Seq<Seq<char>>,
}

impl View for IndexInfo {
    type V = IndexView;

    open spec fn view(&self) -> IndexView {
        IndexView {
            name: self.name@,
            table: self.table@,
            unique: self.unique,
            columns: views(self.columns@),
        }
    }
}

/// The tables and indexes of a database.
#[derive(Debug, PartialEq, Eq)]
pub struct Schema {
    pub tables: Vec<TableInfo>,
    pub indexes: Vec<IndexInfo>,
}

/// What a `Schema` holds.
pub struct SchemaView {
    pub tables: Seq<TableView>,
    pub indexes: Seq<IndexView>,
}

impl View for Schema {
    type V = SchemaView;

    open spec fn view(&self) -> SchemaView {
        SchemaView {
            tables: self.tables@.map_values(|t: TableInfo| t@),
            indexes: self.indexes@.map_values(|i: IndexInfo| i@),
        }
    }
}

/// Something that a schema must have.
pub enum Check {
    Columns { table: String, columns: Vec<String> },
    PrimaryKey { table: String, column: String },
    Unique { table: String, columns: Vec<String> },
    ForeignKey { table: String, key: ForeignKeyInfo },
    Index { index: String, table: String, columns: Vec<String> },
}

/// What a `Check` holds.
pub enum CheckView {
    Columns { table: Seq<char>, columns: Seq<Seq<char>> },
    PrimaryKey { table: Seq<char>, column: Seq<char> },
    Unique { table: Seq<char>, columns: Seq<Seq<char>> },
    ForeignKey { table: Seq<char>, key: KeyView },
    Index { index: Seq<char>, table: Seq<char>, columns: Seq<Seq<char>> },
}

impl View for Check {
    type V = CheckView;

    open spec fn view(&self) -> CheckView {
        match self {
            Check::Columns { table, columns } => CheckView::Columns {
                table: table@,
                columns: views(columns@),
            },
            Check::PrimaryKey { table, column } => CheckView::PrimaryKey {
                table: table@,
                column: column@,
            },
            Check::Unique { table, columns } => CheckView::Unique {
                table: table@,
                columns: views(columns@),
            },
            Check::ForeignKey { table, key } => CheckView::ForeignKey { table: table@, key: key@ },
            Check::Index { index, table, columns } => CheckView::Index {
                index: index@,
                table: table@,
                columns: views(columns@),
            },
        }
    }
}

/// The views of a list of checks.
pub open spec fn check_views(v: Seq<Check>) -> Seq<CheckView> {
    v.map_values(|c: Check| c@)
}

fn add_check(r: &mut Vec<Check>, c: Check)
    ensures
        check_views(final(r)@) == check_views(old(r)@).push(c@),
{
    let ghost before = check_views(r@);
    r.push(c);
    assert(check_views(r@) =~= before.push(c@));
}

fn list(v: &[&str]) -> (r: Vec<String>)
    ensures
        views(r@) == str_views(v@),
{
    let mut r: Vec<String> = Vec::new();
    let mut i: usize = 0;
    while i < v.len()
        invariant
            i <= v.len(),
            views(r@) == str_views(v@).take(i as int),
        decreases v.len() - i,
    {
        let ghost before = views(r@);
        let s = v[i].to_owned();
        r.push(s);
        assert(views(r@) =~= before.push(s@));
        assert(views(r@) =~= str_views(v@).take(i + 1));
        i += 1;
    }
    assert(str_views(v@).take(i as int) =~= str_views(v@));
    r
}

fn key(parent: &str, from: &str, to: &str, on_delete: &str) -> (r: ForeignKeyInfo)
    ensures
        r@ == (KeyView { parent: parent@, from: from@, to: to@, on_delete: on_delete@ }),
{
    ForeignKeyInfo {
        parent: parent.to_owned(),
        from: from.to_owned(),
        to: to.to_owned(),
        on_delete: on_delete.to_owned(),
    }
}

/// The tables and the columns that they have at least.
pub open spec fn table_columns() -> Seq<CheckView> {
    seq![
        CheckView::Columns { table: "settings"@, columns: seq!["key"@, "value"@] },
        CheckView::Columns { table: "libraries"@, columns: seq!["id"@, "name"@, "created_at"@] },
        CheckView::Columns { table: "chats"@, columns: seq!["id"@, "title"@, "profile"@, "library_id"@, "created_at"@, "updated_at"@] },
        CheckView::Columns { table: "messages"@, columns: seq!["id"@, "chat_id"@, "role"@, "content"@, "sources_json"@, "created_at"@] },
        CheckView::Columns { table: "documents"@, columns: seq!["id"@, "library_id"@, "name"@, "original_path"@, "hash"@, "file_type"@, "status"@, "error"@, "created_at"@] },
        CheckView::Columns { table: "document_chunks"@, columns: seq!["id"@, "document_id"@, "chunk_index"@, "content"@, "page_number"@, "section"@, "embedding"@] },
        CheckView::Columns { table: "code_projects"@, columns: seq!["id"@, "name"@, "root_path"@, "status"@, "last_opened"@] },
        CheckView::Columns { table: "code_files"@, columns: seq!["id"@, "project_id"@, "relative_path"@, "hash"@, "extension"@, "language"@, "size_bytes"@, "error"@, "indexed_at"@] },
        CheckView::Columns { table: "code_chunks"@, columns: seq!["id"@, "file_id"@, "chunk_index"@, "line_start"@, "line_end"@, "content"@, "embedding"@] },
    ]
}

fn column_checks() -> (r: Vec<Check>)
    ensures
        check_views(r@) == table_columns(),
{
    let mut r: Vec<Check> = Vec::new();
    add_check(&mut r, Check::Columns { table: "settings".to_owned(), columns: list(&["key", "value"]) });
    add_check(&mut r, Check::Columns { table: "libraries".to_owned(), columns: list(&["id", "name", "created_at"]) });
    add_check(&mut r, Check::Columns { table: "chats".to_owned(), columns: list(&["id", "title", "profile", "library_id", "created_at", "updated_at"]) });
    add_check(&mut r, Check::Columns { table: "messages".to_owned(), columns: list(&["id", "chat_id", "role", "content", "sources_json", "created_at"]) });
    add_check(&mut r, Check::Columns { table: "documents".to_owned(), columns: list(&["id", "library_id", "name", "original_path", "hash", "file_type", "status", "error", "created_at"]) });
    add_check(&mut r, Check::Columns { table: "document_chunks".to_owned(), columns: list(&["id", "document_id", "chunk_index", "content", "page_number", "section", "embedding"]) });
    add_check(&mut r, Check::Columns { table: "code_projects".to_owned(), columns: list(&["id", "name", "root_path", "status", "last_opened"]) });
    add_check(&mut r, Check::Columns { table: "code_files".to_owned(), columns: list(&["id", "project_id", "relative_path", "hash", "extension", "language", "size_bytes", "error", "indexed_at"]) });
    add_check(&mut r, Check::Columns { table: "code_chunks".to_owned(), columns: list(&["id", "file_id", "chunk_index", "line_start", "line_end", "content", "embedding"]) });
    assert(str_views(["key", "value"]@) =~= seq!["key"@, "value"@]);
    assert(str_views(["id", "name", "created_at"]@) =~= seq!["id"@, "name"@, "created_at"@]);
    assert(str_views(["id", "title", "profile", "library_id", "created_at", "updated_at"]@) =~= seq!["id"@, "title"@, "profile"@, "library_id"@, "created_at"@, "updated_at"@]);
    assert(str_views(["id", "chat_id", "role", "content", "sources_json", "created_at"]@) =~= seq!["id"@, "chat_id"@, "role"@, "content"@, "sources_json"@, "created_at"@]);
    assert(str_views(["id", "library_id", "name", "original_path", "hash", "file_type", "status", "error", "created_at"]@) =~= seq!["id"@, "library_id"@, "name"@, "original_path"@, "hash"@, "file_type"@, "status"@, "error"@, "created_at"@]);
    assert(str_views(["id", "document_id", "chunk_index", "content", "page_number", "section", "embedding"]@) =~= seq!["id"@, "document_id"@, "chunk_index"@, "content"@, "page_number"@, "section"@, "embedding"@]);
    assert(str_views(["id", "name", "root_path", "status", "last_opened"]@) =~= seq!["id"@, "name"@, "root_path"@, "status"@, "last_opened"@]);
    assert(str_views(["id", "project_id", "relative_path", "hash", "extension", "language", "size_bytes", "error", "indexed_at"]@) =~= seq!["id"@, "project_id"@, "relative_path"@, "hash"@, "extension"@, "language"@, "size_bytes"@, "error"@, "indexed_at"@]);
    assert(str_views(["id", "file_id", "chunk_index", "line_start", "line_end", "content", "embedding"]@) =~= seq!["id"@, "file_id"@, "chunk_index"@, "line_start"@, "line_end"@, "content"@, "embedding"@]);
    assert(check_views(r@) =~= table_columns());
    r
}

/// The primary keys.
pub open spec fn primary_keys() -> Seq<CheckView> {
    seq![
        CheckView::PrimaryKey { table: "settings"@, column: "key"@ },
        CheckView::PrimaryKey { table: "libraries"@, column: "id"@ },
        CheckView::PrimaryKey { table: "chats"@, column: "id"@ },
        CheckView::PrimaryKey { table: "messages"@, column: "id"@ },
        CheckView::PrimaryKey { table: "documents"@, column: "id"@ },
        CheckView::PrimaryKey { table: "document_chunks"@, column: "id"@ },
        CheckView::PrimaryKey { table: "code_projects"@, column: "id"@ },
        CheckView::PrimaryKey { table: "code_files"@, column: "id"@ },
        CheckView::PrimaryKey { table: "code_chunks"@, column: "id"@ },
    ]
}

fn primary_key_checks() -> (r: Vec<Check>)
    ensures
        check_views(r@) == primary_keys(),
{
    let mut r: Vec<Check> = Vec::new();
    add_check(&mut r, Check::PrimaryKey { table: "settings".to_owned(), column: "key".to_owned() });
    add_check(&mut r, Check::PrimaryKey { table: "libraries".to_owned(), column: "id".to_owned() });
    add_check(&mut r, Check::PrimaryKey { table: "chats".to_owned(), column: "id".to_owned() });
    add_check(&mut r, Check::PrimaryKey { table: "messages".to_owned(), column: "id".to_owned() });
    add_check(&mut r, Check::PrimaryKey { table: "documents".to_owned(), column: "id".to_owned() });
    add_check(&mut r, Check::PrimaryKey { table: "document_chunks".to_owned(), column: "id".to_owned() });
    add_check(&mut r, Check::PrimaryKey { table: "code_projects".to_owned(), column: "id".to_owned() });
    add_check(&mut r, Check::PrimaryKey { table: "code_files".to_owned(), column: "id".to_owned() });
    add_check(&mut r, Check::PrimaryKey { table: "code_chunks".to_owned(), column: "id".to_owned() });
    assert(check_views(r@) =~= primary_keys());
    r
}

/// The columns that are unique together.
pub open spec fn unique_columns() -> Seq<CheckView> {
    seq![
        CheckView::Unique { table: "libraries"@, columns: seq!["name"@] },
        CheckView::Unique { table: "documents"@, columns: seq!["library_id"@, "hash"@] },
        CheckView::Unique { table: "document_chunks"@, columns: seq!["document_id"@, "chunk_index"@] },
        CheckView::Unique { table: "code_projects"@, columns: seq!["root_path"@] },
        CheckView::Unique { table: "code_files"@, columns: seq!["project_id"@, "relative_path"@] },
        CheckView::Unique { table: "code_chunks"@, columns: seq!["file_id"@, "chunk_index"@] },
    ]
}

fn unique_checks() -> (r: Vec<Check>)
    ensures
        check_views(r@) == unique_columns(),
{
    let mut r: Vec<Check> = Vec::new();
    add_check(&mut r, Check::Unique { table: "libraries".to_owned(), columns: list(&["name"]) });
    add_check(&mut r, Check::Unique { table: "documents".to_owned(), columns: list(&["library_id", "hash"]) });
    add_check(&mut r, Check::Unique { table: "document_chunks".to_owned(), columns: list(&["document_id", "chunk_index"]) });
    add_check(&mut r, Check::Unique { table: "code_projects".to_owned(), columns: list(&["root_path"]) });
    add_check(&mut r, Check::Unique { table: "code_files".to_owned(), columns: list(&["project_id", "relative_path"]) });
    add_check(&mut r, Check::Unique { table: "code_chunks".to_owned(), columns: list(&["file_id", "chunk_index"]) });
    assert(str_views(["name"]@) =~= seq!["name"@]);
    assert(str_views(["library_id", "hash"]@) =~= seq!["library_id"@, "hash"@]);
    assert(str_views(["document_id", "chunk_index"]@) =~= seq!["document_id"@, "chunk_index"@]);
    assert(str_views(["root_path"]@) =~= seq!["root_path"@]);
    assert(str_views(["project_id", "relative_path"]@) =~= seq!["project_id"@, "relative_path"@]);
    assert(str_views(["file_id", "chunk_index"]@) =~= seq!["file_id"@, "chunk_index"@]);
    assert(check_views(r@) =~= unique_columns());
    r
}

/// The relations between tables.
pub open spec fn foreign_keys() -> Seq<CheckView> {
    seq![
        CheckView::ForeignKey {
            table: "chats"@,
            key: KeyView { parent: "libraries"@, from: "library_id"@, to: "id"@, on_delete: "SET NULL"@ },
        },
        CheckView::ForeignKey {
            table: "messages"@,
            key: KeyView { parent: "chats"@, from: "chat_id"@, to: "id"@, on_delete: "CASCADE"@ },
        },
        CheckView::ForeignKey {
            table: "documents"@,
            key: KeyView { parent: "libraries"@, from: "library_id"@, to: "id"@, on_delete: "CASCADE"@ },
        },
        CheckView::ForeignKey {
            table: "document_chunks"@,
            key: KeyView { parent: "documents"@, from: "document_id"@, to: "id"@, on_delete: "CASCADE"@ },
        },
        CheckView::ForeignKey {
            table: "code_files"@,
            key: KeyView { parent: "code_projects"@, from: "project_id"@, to: "id"@, on_delete: "CASCADE"@ },
        },
        CheckView::ForeignKey {
            table: "code_chunks"@,
            key: KeyView { parent: "code_files"@, from: "file_id"@, to: "id"@, on_delete: "CASCADE"@ },
        },
    ]
}

fn foreign_key_checks() -> (r: Vec<Check>)
    ensures
        check_views(r@) == foreign_keys(),
{
    let mut r: Vec<Check> = Vec::new();
    add_check(&mut r, Check::ForeignKey { table: "chats".to_owned(), key: key("libraries", "library_id", "id", "SET NULL") });
    add_check(&mut r, Check::ForeignKey { table: "messages".to_owned(), key: key("chats", "chat_id", "id", "CASCADE") });
    add_check(&mut r, Check::ForeignKey { table: "documents".to_owned(), key: key("libraries", "library_id", "id", "CASCADE") });
    add_check(&mut r, Check::ForeignKey { table: "document_chunks".to_owned(), key: key("documents", "document_id", "id", "CASCADE") });
    add_check(&mut r, Check::ForeignKey { table: "code_files".to_owned(), key: key("code_projects", "project_id", "id", "CASCADE") });
    add_check(&mut r, Check::ForeignKey { table: "code_chunks".to_owned(), key: key("code_files", "file_id", "id", "CASCADE") });
    assert(check_views(r@) =~= foreign_keys());
    r
}

/// The indexes by name.
pub open spec fn named_indexes() -> Seq<CheckView> {
    seq![
        CheckView::Index { index: "idx_messages_chat"@, table: "messages"@, columns: seq!["chat_id"@, "id"@] },
        CheckView::Index { index: "idx_documents_library"@, table: "documents"@, columns: seq!["library_id"@] },
        CheckView::Index { index: "idx_chunks_document"@, table: "document_chunks"@, columns: seq!["document_id"@] },
        CheckView::Index { index: "idx_code_files_project"@, table: "code_files"@, columns: seq!["project_id"@] },
        CheckView::Index { index: "idx_code_chunks_file"@, table: "code_chunks"@, columns: seq!["file_id"@] },
    ]
}

fn index_checks() -> (r: Vec<Check>)
    ensures
        check_views(r@) == named_indexes(),
{
    let mut r: Vec<Check> = Vec::new();
    add_check(&mut r, Check::Index { index: "idx_messages_chat".to_owned(), table: "messages".to_owned(), columns: list(&["chat_id", "id"]) });
    add_check(&mut r, Check::Index { index: "idx_documents_library".to_owned(), table: "documents".to_owned(), columns: list(&["library_id"]) });
    add_check(&mut r, Check::Index { index: "idx_chunks_document".to_owned(), table: "document_chunks".to_owned(), columns: list(&["document_id"]) });
    add_check(&mut r, Check::Index { index: "idx_code_files_project".to_owned(), table: "code_files".to_owned(), columns: list(&["project_id"]) });
    add_check(&mut r, Check::Index { index: "idx_code_chunks_file".to_owned(), table: "code_chunks".to_owned(), columns: list(&["file_id"]) });
    assert(str_views(["chat_id", "id"]@) =~= seq!["chat_id"@, "id"@]);
    assert(str_views(["library_id"]@) =~= seq!["library_id"@]);
    assert(str_views(["document_id"]@) =~= seq!["document_id"@]);
    assert(str_views(["project_id"]@) =~= seq!["project_id"@]);
    assert(str_views(["file_id"]@) =~= seq!["file_id"@]);
    assert(check_views(r@) =~= named_indexes());
    r
}

/// All that a schema must have, in the order in which it is checked; the indexes by
/// name only where they are wanted.
pub open spec fn all_checks(require_indexes: bool) -> Seq<CheckView> {
    let always = table_columns() + primary_keys() + unique_columns() + foreign_keys();
    if require_indexes {
        always + named_indexes()
    } else {
        always
    }
}

fn checks(require_indexes: bool) -> (r: Vec<Check>)
    ensures
        check_views(r@) == all_checks(require_indexes),
{
    let mut r = column_checks();
    let mut more = primary_key_checks();
    join_checks(&mut r, &mut more);
    let mut more = unique_checks();
    join_checks(&mut r, &mut more);
    let mut more = foreign_key_checks();
    join_checks(&mut r, &mut more);
    if require_indexes {
        let mut more = index_checks();
        join_checks(&mut r, &mut more);
    }
    r
}

fn join_checks(r: &mut Vec<Check>, more: &mut Vec<Check>)
    ensures
        check_views(final(r)@) == check_views(old(r)@) + check_views(old(more)@),
{
    let ghost before = check_views(r@);
    let ghost added = check_views(more@);
    r.append(more);
    assert(check_views(r@) =~= before + added);
}

// ----------------------------------------------------------------------- checks

/// The table with a name.
pub open spec fn table_named(s: SchemaView, name: Seq<char>) -> Option<TableView>
    decreases s.tables.len(),
{
    if s.tables.len() == 0 {
        None
    } else if s.tables[0].name == name {
        Some(s.tables[0])
    } else {
        table_named(SchemaView { tables: s.tables.skip(1), ..s }, name)
    }
}

/// The table has the column.
pub open spec fn has_column(t: TableView, column: Seq<char>) -> bool {
    exists|i: int| 0 <= i < t.columns.len() && (#[trigger] t.columns[i]).0 == column
}

/// The table has all of the columns.
pub open spec fn has_columns(t: TableView, columns: Seq<Seq<char>>) -> bool {
    forall|i: int| 0 <= i < columns.len() ==> has_column(t, #[trigger] columns[i])
}

/// The columns of the primary key, with their places in it.
pub open spec fn key_columns(c: Seq<(Seq<char>, i64)>) -> Seq<(Seq<char>, i64)> {
    c.filter(|p: (Seq<char>, i64)| p.1 > 0)
}

/// Two keys say the same; case does not matter in what happens on deletion.
pub open spec fn same_key(a: KeyView, b: KeyView) -> bool {
    a.parent == b.parent && a.from == b.from && a.to == b.to && ascii_lower(a.on_delete)
        == ascii_lower(b.on_delete)
}

/// The table has the foreign key.
pub open spec fn has_key(t: TableView, key: KeyView) -> bool {
    exists|i: int| 0 <= i < t.foreign_keys.len() && same_key(#[trigger] t.foreign_keys[i], key)
}

/// Some unique index of the table is on exactly these columns.
pub open spec fn has_unique(s: SchemaView, table: Seq<char>, columns: Seq<Seq<char>>) -> bool {
    exists|i: int|
        0 <= i < s.indexes.len() && (#[trigger] s.indexes[i]).table == table && s.indexes[i].unique
            && s.indexes[i].columns == columns
}

/// Some index of that name is on exactly these columns of the table.
pub open spec fn has_index(
    s: SchemaView,
    index: Seq<char>,
    table: Seq<char>,
    columns: Seq<Seq<char>>,
) -> bool {
    exists|i: int|
        0 <= i < s.indexes.len() && (#[trigger] s.indexes[i]).name == index && s.indexes[i].table
            == table && s.indexes[i].columns == columns
}

/// The schema has what the check asks for.
pub open spec fn passes(s: SchemaView, c: CheckView) -> bool {
    match c {
        CheckView::Columns { table, columns } => match table_named(s, table) {
            Some(t) => has_columns(t, columns),
            None => false,
        },
        CheckView::PrimaryKey { table, column } => match table_named(s, table) {
            Some(t) => key_columns(t.columns) == seq![(column, 1i64)],
            None => false,
        },
        CheckView::Unique { table, columns } => has_unique(s, table, columns),
        CheckView::ForeignKey { table, key } => match table_named(s, table) {
            Some(t) => has_key(t, key),
            None => false,
        },
        CheckView::Index { index, table, columns } => has_index(s, index, table, columns),
    }
}

/// What a schema lacks.
#[derive(Debug, PartialEq, Eq)]
pub enum SchemaProblem {
    /// A table: its name.
    Table(String),
    /// A column: its table and its name.
    Column(String, String),
    /// The primary key of a table.
    PrimaryKey(String),
    /// A unique constraint: its table and its columns.
    Unique(String, Vec<String>),
    /// A relation: its table and the key.
    ForeignKey(String, ForeignKeyInfo),
    /// An index: its name, its table and its columns.
    Index(String, String, Vec<String>),
}

/// The first of the columns that the table lacks.
pub open spec fn first_lacking(t: TableView, columns: Seq<Seq<char>>) -> Option<Seq<char>>
    decreases columns.len(),
{
    if columns.len() == 0 {
        None
    } else if !has_column(t, columns[0]) {
        Some(columns[0])
    } else {
        first_lacking(t, columns.skip(1))
    }
}

/// The problem says what the schema lacks of what the check asks for.
pub open spec fn describes(p: SchemaProblem, s: SchemaView, c: CheckView) -> bool {
    match c {
        CheckView::Columns { table, columns } => match table_named(s, table) {
            None => p matches SchemaProblem::Table(t) && t@ == table,
            Some(found) => p matches SchemaProblem::Column(t, n) && t@ == table && first_lacking(
                found,
                columns,
            ) == Some(n@),
        },
        CheckView::PrimaryKey { table, column } => p matches SchemaProblem::PrimaryKey(t) && t@
            == table,
        CheckView::Unique { table, columns } => p matches SchemaProblem::Unique(t, k) && t@
            == table && views(k@) == columns,
        CheckView::ForeignKey { table, key } => p matches SchemaProblem::ForeignKey(t, k) && t@
            == table && k@ == key,
        CheckView::Index { index, table, columns } => p matches SchemaProblem::Index(i, t, k) && i@
            == index && t@ == table && views(k@) == columns,
    }
}

impl SchemaProblem {
    pub open spec fn spec_message(self) -> Seq<char> {
        match self {
            SchemaProblem::Table(table) => "Falta la tabla requerida "@ + table@,
            SchemaProblem::Column(table, column) => "Falta la columna requerida "@ + table@ + "."@
                + column@,
            SchemaProblem::PrimaryKey(table) => "La clave primaria de "@ + table@
                + " no coincide con el esquema esperado"@,
            SchemaProblem::Unique(table, columns) => {
                "Falta la restriccion UNIQUE requerida en "@ + table@ + "("@ + join(
                    views(columns@),
                    ", "@,
                ) + ")"@
            },
            SchemaProblem::ForeignKey(table, key) => "Falta la relacion requerida "@ + table@ + "."@
                + key@.from + " -> "@ + key@.parent + "."@ + key@.to + " ON DELETE "@
                + key@.on_delete,
            SchemaProblem::Index(index, table, columns) => {
                "Falta o es incompatible el indice requerido "@ + index@ + " sobre "@ + table@
                    + "("@ + join(views(columns@), ", "@) + ")"@
            },
        }
    }

    /// The problem in words.
    pub fn message(&self) -> (r: String)
        ensures
            r@ == self.spec_message(),
    {
        match self {
            SchemaProblem::Table(table) => {
                let mut r = "Falta la tabla requerida ".to_owned();
                r.append(table.as_str());
                r
            },
            SchemaProblem::Column(table, column) => {
                let mut r = "Falta la columna requerida ".to_owned();
                r.append(table.as_str());
                r.append(".");
                r.append(column.as_str());
                r
            },
            SchemaProblem::PrimaryKey(table) => {
                let mut r = "La clave primaria de ".to_owned();
                r.append(table.as_str());
                r.append(" no coincide con el esquema esperado");
                r
            },
            SchemaProblem::Unique(table, columns) => {
                let mut r = "Falta la restriccion UNIQUE requerida en ".to_owned();
                r.append(table.as_str());
                r.append("(");
                r.append(joined(columns, ", ").as_str());
                r.append(")");
                r
            },
            SchemaProblem::ForeignKey(table, key) => {
                let mut r = "Falta la relacion requerida ".to_owned();
                r.append(table.as_str());
                r.append(".");
                r.append(key.from.as_str());
                r.append(" -> ");
                r.append(key.parent.as_str());
                r.append(".");
                r.append(key.to.as_str());
                r.append(" ON DELETE ");
                r.append(key.on_delete.as_str());
                r
            },
            SchemaProblem::Index(index, table, columns) => {
                let mut r = "Falta o es incompatible el indice requerido ".to_owned();
                r.append(index.as_str());
                r.append(" sobre ");
                r.append(table.as_str());
                r.append("(");
                r.append(joined(columns, ", ").as_str());
                r.append(")");
                r
            },
        }
    }
}

fn find_table<'a>(schema: &'a Schema, name: &str) -> (r: Option<&'a TableInfo>)
    ensures
        match r {
            Some(t) => table_named(schema@, name@) == Some(t@),
            None => table_named(schema@, name@) is None,
        },
{
    let ghost all = schema@.tables;
    let mut i: usize = 0;
    assert(all.skip(0) =~= all);
    while i < schema.tables.len()
        invariant
            i <= schema.tables.len(),
            all == schema@.tables,
            table_named(schema@, name@) == table_named(
                SchemaView { tables: all.skip(i as int), ..schema@ },
                name@,
            ),
        decreases schema.tables.len() - i,
    {
        assert(all.skip(i as int)[0] == schema.tables@[i as int]@);
        assert(all.skip(i as int).skip(1) =~= all.skip(i + 1));
        if same(schema.tables[i].name.as_str(), name) {
            return Some(&schema.tables[i]);
        }
        i += 1;
    }
    None
}

fn column_is_there(t: &TableInfo, column: &str) -> (r: bool)
    ensures
        r == has_column(t@, column@),
{
    let ghost all = t@.columns;
    let mut i: usize = 0;
    while i < t.columns.len()
        invariant
            i <= t.columns.len(),
            all == t@.columns,
            forall|j: int| 0 <= j < i ==> (#[trigger] all[j]).0 != column@,
        decreases t.columns.len() - i,
    {
        assert(all[i as int].0 == t.columns@[i as int].name@);
        if same(t.columns[i].name.as_str(), column) {
            return true;
        }
        i += 1;
    }
    false
}

fn lacking_column(t: &TableInfo, columns: &Vec<String>) -> (r: Option<String>)
    ensures
        opt_text(r) == first_lacking(t@, views(columns@)),
        r is None <==> has_columns(t@, views(columns@)),
{
    let ghost all = views(columns@);
    let mut i: usize = 0;
    assert(all.skip(0) =~= all);
    while i < columns.len()
        invariant
            i <= columns.len(),
            all == views(columns@),
            first_lacking(t@, all) == first_lacking(t@, all.skip(i as int)),
            forall|j: int| 0 <= j < i ==> has_column(t@, #[trigger] all[j]),
        decreases columns.len() - i,
    {
        assert(all.skip(i as int)[0] == columns@[i as int]@);
        assert(all[i as int] == columns@[i as int]@);
        assert(all.skip(i as int).skip(1) =~= all.skip(i + 1));
        if !column_is_there(t, columns[i].as_str()) {
            return Some(columns[i].clone());
        }
        i += 1;
    }
    None
}

fn only_key_column(t: &TableInfo, column: &str) -> (r: bool)
    ensures
        r == (key_columns(t@.columns) == seq![(column@, 1i64)]),
{
    let ghost all = t@.columns;
    let ghost keep = |p: (Seq<char>, i64)| p.1 > 0;
    let mut found: usize = 0;
    let mut right: bool = false;
    let mut i: usize = 0;
    while i < t.columns.len()
        invariant
            found <= i <= t.columns.len(),
            all == t@.columns,
            keep == (|p: (Seq<char>, i64)| p.1 > 0),
            found == all.take(i as int).filter(keep).len(),
            found == 1 ==> right == (all.take(i as int).filter(keep)[0] == (column@, 1i64)),
        decreases t.columns.len() - i,
    {
        proof {
            assert(all.take(i + 1).drop_last() =~= all.take(i as int));
            reveal_with_fuel(Seq::filter, 2);
        }
        let position = t.columns[i].key_position;
        assert(all[i as int] == (t.columns@[i as int].name@, position));
        if position > 0 {
            if found == 0 {
                right = position == 1 && same(t.columns[i].name.as_str(), column);
            }
            found += 1;
        }
        i += 1;
    }
    assert(all.take(i as int) =~= all);
    proof {
        let k = key_columns(all);
        if k.len() == 1 && k[0] == (column@, 1i64) {
            assert(k =~= seq![(column@, 1i64)]);
        }
        if k == seq![(column@, 1i64)] {
            assert(k[0] == (column@, 1i64));
        }
    }
    found == 1 && right
}

fn key_is_there(t: &TableInfo, key: &ForeignKeyInfo) -> (r: bool)
    ensures
        r == has_key(t@, key@),
{
    let ghost all = t@.foreign_keys;
    let mut i: usize = 0;
    while i < t.foreign_keys.len()
        invariant
            i <= t.foreign_keys.len(),
            all == t@.foreign_keys,
            forall|j: int| 0 <= j < i ==> !same_key(#[trigger] all[j], key@),
        decreases t.foreign_keys.len() - i,
    {
        let k = &t.foreign_keys[i];
        assert(all[i as int] == k@);
        if same(k.parent.as_str(), key.parent.as_str()) && same(
            k.from.as_str(),
            key.from.as_str(),
        ) && same(k.to.as_str(), key.to.as_str()) && same_ignoring_ascii_case(
            k.on_delete.as_str(),
            key.on_delete.as_str(),
        ) {
            return true;
        }
        i += 1;
    }
    false
}

fn same_texts(a: &Vec<String>, b: &Vec<String>) -> (r: bool)
    ensures
        r == (views(a@) == views(b@)),
{
    let ghost x = views(a@);
    let ghost y = views(b@);
    assert(x.len() == a@.len());
    assert(y.len() == b@.len());
    if a.len() != b.len() {
        return false;
    }
    let mut i: usize = 0;
    while i < a.len()
        invariant
            i <= a.len() == b.len(),
            x == views(a@),
            y == views(b@),
            forall|j: int| 0 <= j < i ==> x[j] == y[j],
        decreases a.len() - i,
    {
        assert(x[i as int] == a@[i as int]@);
        assert(y[i as int] == b@[i as int]@);
        if !same(a[i].as_str(), b[i].as_str()) {
            return false;
        }
        i += 1;
    }
    assert(x =~= y);
    true
}

fn unique_is_there(schema: &Schema, table: &str, columns: &Vec<String>) -> (r: bool)
    ensures
        r == has_unique(schema@, table@, views(columns@)),
{
    let ghost all = schema@.indexes;
    let mut i: usize = 0;
    while i < schema.indexes.len()
        invariant
            i <= schema.indexes.len(),
            all == schema@.indexes,
            forall|j: int|
                0 <= j < i ==> !((#[trigger] all[j]).table == table@ && all[j].unique
                    && all[j].columns == views(columns@)),
        decreases schema.indexes.len() - i,
    {
        let x = &schema.indexes[i];
        assert(all[i as int] == x@);
        if same(x.table.as_str(), table) && x.unique && same_texts(&x.columns, columns) {
            return true;
        }
        i += 1;
    }
    false
}

fn index_is_there(schema: &Schema, index: &str, table: &str, columns: &Vec<String>) -> (r: bool)
    ensures
        r == has_index(schema@, index@, table@, views(columns@)),
{
    let ghost all = schema@.indexes;
    let mut i: usize = 0;
    while i < schema.indexes.len()
        invariant
            i <= schema.indexes.len(),
            all == schema@.indexes,
            forall|j: int|
                0 <= j < i ==> !((#[trigger] all[j]).name == index@ && all[j].table == table@
                    && all[j].columns == views(columns@)),
        decreases schema.indexes.len() - i,
    {
        let x = &schema.indexes[i];
        assert(all[i as int] == x@);
        if same(x.name.as_str(), index) && same(x.table.as_str(), table) && same_texts(
            &x.columns,
            columns,
        ) {
            return true;
        }
        i += 1;
    }
    false
}

fn run_check(schema: &Schema, check: Check) -> (r: Result<(), SchemaProblem>)
    ensures
        match r {
            Ok(()) => passes(schema@, check@),
            Err(p) => !passes(schema@, check@) && describes(p, schema@, check@),
        },
{
    match check {
        Check::Columns { table, columns } => {
            match find_table(schema, table.as_str()) {
                None => Err(SchemaProblem::Table(table)),
                Some(t) => {
                    match lacking_column(t, &columns) {
                        None => Ok(()),
                        Some(column) => Err(SchemaProblem::Column(table, column)),
                    }
                },
            }
        },
        Check::PrimaryKey { table, column } => {
            match find_table(schema, table.as_str()) {
                None => Err(SchemaProblem::PrimaryKey(table)),
                Some(t) => {
                    if only_key_column(t, column.as_str()) {
                        Ok(())
                    } else {
                        Err(SchemaProblem::PrimaryKey(table))
                    }
                },
            }
        },
        Check::Unique { table, columns } => {
            if unique_is_there(schema, table.as_str(), &columns) {
                Ok(())
            } else {
                Err(SchemaProblem::Unique(table, columns))
            }
        },
        Check::ForeignKey { table, key } => {
            match find_table(schema, table.as_str()) {
                None => Err(SchemaProblem::ForeignKey(table, key)),
                Some(t) => {
                    if key_is_there(t, &key) {
                        Ok(())
                    } else {
                        Err(SchemaProblem::ForeignKey(table, key))
                    }
                },
            }
        },
        Check::Index { index, table, columns } => {
            if index_is_there(schema, index.as_str(), table.as_str(), &columns) {
                Ok(())
            } else {
                Err(SchemaProblem::Index(index, table, columns))
            }
        },
    }
}

/// The schema has all that it must have.
pub open spec fn is_expected(s: SchemaView, require_indexes: bool) -> bool {
    forall|i: int|
        0 <= i < all_checks(require_indexes).len() ==> passes(
            s,
            #[trigger] all_checks(require_indexes)[i],
        )
}

/// The problem is the first that the schema has.
pub open spec fn is_first_problem(s: SchemaView, require_indexes: bool, p: SchemaProblem) -> bool {
    exists|i: int|
        {
            &&& 0 <= i < all_checks(require_indexes).len()
            &&& !passes(s, #[trigger] all_checks(require_indexes)[i])
            &&& describes(p, s, all_checks(require_indexes)[i])
            &&& forall|j: int|
                0 <= j < i ==> passes(s, #[trigger] all_checks(require_indexes)[j])
        }
}

/// The table with a name is the first that bears it.
pub proof fn law_table_named(s: SchemaView, name: Seq<char>)
    ensures
        match table_named(s, name) {
            Some(t) => t.name == name && s.tables.contains(t),
            None => forall|i: int| 0 <= i < s.tables.len() ==> (#[trigger] s.tables[i]).name != name,
        },
    decreases s.tables.len(),
{
    if s.tables.len() > 0 {
        if s.tables[0].name == name {
            assert(s.tables.contains(s.tables[0]));
        } else {
            let rest = SchemaView { tables: s.tables.skip(1), ..s };
            law_table_named(rest, name);
            match table_named(s, name) {
                Some(t) => {
                    let i = choose|i: int| 0 <= i < rest.tables.len() && rest.tables[i] == t;
                    assert(s.tables[i + 1] == t);
                },
                None => {
                    assert forall|i: int| 0 <= i < s.tables.len() implies (
                    #[trigger] s.tables[i]).name != name by {
                        if i > 0 {
                            assert(rest.tables[i - 1] == s.tables[i]);
                        }
                    }
                },
            }
        }
    }
}

/// A table refers to another by a column, and what happens to its rows when what they
/// refer to is deleted.
pub open spec fn refers(
    s: SchemaView,
    child: Seq<char>,
    column: Seq<char>,
    parent: Seq<char>,
    on_delete: Seq<char>,
) -> bool {
    exists|i: int, k: int|
        {
            &&& 0 <= i < s.tables.len()
            &&& 0 <= k < s.tables[i].foreign_keys.len()
            &&& s.tables[i].name == child
            &&& (#[trigger] s.tables[i].foreign_keys[k]).parent == parent
            &&& s.tables[i].foreign_keys[k].from == column
            &&& s.tables[i].foreign_keys[k].to == "id"@
            &&& ascii_lower(s.tables[i].foreign_keys[k].on_delete) == ascii_lower(on_delete)
        }
}

proof fn lemma_refers(s: SchemaView, require_indexes: bool, n: int)
    requires
        is_expected(s, require_indexes),
        0 <= n < foreign_keys().len(),
    ensures
        foreign_keys()[n] matches CheckView::ForeignKey { table, key } && refers(
            s,
            table,
            key.from,
            key.parent,
            key.on_delete,
        ),
{
    let c = all_checks(require_indexes)[24 + n];
    assert(c == foreign_keys()[n]);
    assert(passes(s, c));
    if let CheckView::ForeignKey { table, key } = c {
        law_table_named(s, table);
        let t = table_named(s, table).unwrap();
        let i = choose|i: int| 0 <= i < s.tables.len() && s.tables[i] == t;
        let k = choose|k: int|
            0 <= k < t.foreign_keys.len() && same_key(#[trigger] t.foreign_keys[k], key);
        assert(s.tables[i].foreign_keys[k].parent == key.parent);
    }
}

/// In a schema that has all it must have, the documents go with their library, the chunks
/// with their document, the messages with their chat, the files with their project and
/// the chunks with their file; a chat outlives its library.
pub proof fn law_what_goes_together(s: SchemaView, require_indexes: bool)
    requires
        is_expected(s, require_indexes),
    ensures
        refers(s, "documents"@, "library_id"@, "libraries"@, "CASCADE"@),
        refers(s, "document_chunks"@, "document_id"@, "documents"@, "CASCADE"@),
        refers(s, "messages"@, "chat_id"@, "chats"@, "CASCADE"@),
        refers(s, "code_files"@, "project_id"@, "code_projects"@, "CASCADE"@),
        refers(s, "code_chunks"@, "file_id"@, "code_files"@, "CASCADE"@),
        refers(s, "chats"@, "library_id"@, "libraries"@, "SET NULL"@),
{
    lemma_refers(s, require_indexes, 0);
    lemma_refers(s, require_indexes, 1);
    lemma_refers(s, require_indexes, 2);
    lemma_refers(s, require_indexes, 3);
    lemma_refers(s, require_indexes, 4);
    lemma_refers(s, require_indexes, 5);
}

/// In a schema that has all it must have, no library holds a document twice, no project a
/// file, and no document or file a chunk with the same number; names of libraries and
/// roots of projects are unique.
pub proof fn law_what_is_unique(s: SchemaView, require_indexes: bool)
    requires
        is_expected(s, require_indexes),
    ensures
        has_unique(s, "libraries"@, seq!["name"@]),
        has_unique(s, "documents"@, seq!["library_id"@, "hash"@]),
        has_unique(s, "document_chunks"@, seq!["document_id"@, "chunk_index"@]),
        has_unique(s, "code_projects"@, seq!["root_path"@]),
        has_unique(s, "code_files"@, seq!["project_id"@, "relative_path"@]),
        has_unique(s, "code_chunks"@, seq!["file_id"@, "chunk_index"@]),
{
    let all = all_checks(require_indexes);
    assert(all[18] == unique_columns()[0] && passes(s, all[18]));
    assert(all[19] == unique_columns()[1] && passes(s, all[19]));
    assert(all[20] == unique_columns()[2] && passes(s, all[20]));
    assert(all[21] == unique_columns()[3] && passes(s, all[21]));
    assert(all[22] == unique_columns()[4] && passes(s, all[22]));
    assert(all[23] == unique_columns()[5] && passes(s, all[23]));
}

/// A check whose table has columns of its own check, the column of its key among them.
pub open spec fn has_its_columns(n: int) -> bool {
    match (table_columns()[n], primary_keys()[n]) {
        (
            CheckView::Columns { table, columns },
            CheckView::PrimaryKey { table: keyed, column },
        ) => table == keyed && columns.contains(column),
        _ => false,
    }
}

/// Every table that must be there must have its primary key, which is one of its columns.
pub proof fn law_every_table_has_a_key()
    ensures
        table_columns().len() == primary_keys().len(),
        forall|n: int| 0 <= n < table_columns().len() ==> #[trigger] has_its_columns(n),
{
    assert forall|n: int| 0 <= n < table_columns().len() implies #[trigger] has_its_columns(n) by {
        if let CheckView::Columns { table, columns } = table_columns()[n] {
            assert(columns[0] == columns[0] && columns.contains(columns[0]));
        }
    }
}

/// A schema is never both as it must be and lacking; one with the indexes is one without;
/// and what is said to be lacking is lacking.
pub proof fn law_problems_are_real(s: SchemaView, require_indexes: bool, p: SchemaProblem)
    ensures
        is_expected(s, true) ==> is_expected(s, false),
        is_first_problem(s, require_indexes, p) ==> !is_expected(s, require_indexes),
        is_first_problem(s, require_indexes, p) ==> match p {
            SchemaProblem::Table(t) => forall|i: int|
                0 <= i < s.tables.len() ==> (#[trigger] s.tables[i]).name != t@,
            SchemaProblem::Column(t, c) => exists|i: int|
                0 <= i < s.tables.len() && (#[trigger] s.tables[i]).name == t@ && !has_column(
                    s.tables[i],
                    c@,
                ),
            SchemaProblem::Unique(t, c) => !has_unique(s, t@, views(c@)),
            SchemaProblem::Index(n, t, c) => require_indexes && !has_index(s, n@, t@, views(c@)),
            _ => true,
        },
{
    if is_expected(s, true) {
        assert forall|i: int| 0 <= i < all_checks(false).len() implies passes(
            s,
            #[trigger] all_checks(false)[i],
        ) by {
            assert(all_checks(true)[i] == all_checks(false)[i]);
        }
    }
    if is_first_problem(s, require_indexes, p) {
        let all = all_checks(require_indexes);
        let i = choose|i: int|
            {
                &&& 0 <= i < all.len()
                &&& !passes(s, #[trigger] all[i])
                &&& describes(p, s, all[i])
                &&& forall|j: int| 0 <= j < i ==> passes(s, #[trigger] all[j])
            };
        match all[i] {
            CheckView::Columns { table, columns } => {
                law_table_named(s, table);
                if let Some(t) = table_named(s, table) {
                    lemma_first_lacking_lacks(t, columns);
                    let k = choose|k: int| 0 <= k < s.tables.len() && s.tables[k] == t;
                    assert(s.tables[k].name == table);
                }
            },
            _ => {},
        }
    }
}

proof fn lemma_first_lacking_lacks(t: TableView, columns: Seq<Seq<char>>)
    ensures
        first_lacking(t, columns) matches Some(c) ==> !has_column(t, c),
    decreases columns.len(),
{
    if columns.len() > 0 {
        lemma_first_lacking_lacks(t, columns.skip(1));
    }
}

/// Checks that the schema has all that it must have.
pub fn validate_schema(schema: &Schema, require_indexes: bool) -> (r: Result<(), SchemaProblem>)
    ensures
        match r {
            Ok(()) => is_expected(schema@, require_indexes),
            Err(p) => is_first_problem(schema@, require_indexes, p),
        },
{
    let mut todo = checks(require_indexes);
    let ghost all = all_checks(require_indexes);
    assert(all.len() == todo@.len());
    let ghost n = all.len() as int;
    let mut done: usize = 0;
    while todo.len() > 0
        invariant
            all == all_checks(require_indexes),
            n == all.len(),
            done + todo@.len() == n,
            check_views(todo@) == all.skip(done as int),
            forall|j: int| 0 <= j < done ==> passes(schema@, #[trigger] all[j]),
        decreases todo@.len(),
    {
        let ghost before = check_views(todo@);
        assert(before[0] == todo@[0]@);
        let check = todo.remove(0);
        assert(check@ == all[done as int]);
        assert(check_views(todo@) =~= before.skip(1));
        assert(before.skip(1) =~= all.skip(done + 1));
        match run_check(schema, check) {
            Err(p) => {
                return Err(p);
            },
            Ok(()) => {},
        }
        done += 1;
    }
    Ok(())
}

// --------------------------------------------------------------- initialization

/// What a database file is.
#[derive(Debug, Clone, Copy, PartialEq, Eq, Structural)]
pub enum DatabaseState {
    Empty,
    LegacyV0,
    CurrentV1,
}

/// What was found out about a database file before anything is done to it.
#[derive(Debug, Clone, Copy, PartialEq, Eq, Structural)]
pub struct Preflight {
    pub version: i32,
    pub state: DatabaseState,
}

/// Why a database file is not used.
#[derive(Debug, PartialEq, Eq)]
pub enum DatabaseError {
    /// It is of the first version but not as that was.
    NotLegacy(SchemaProblem),
    /// It is of the current version but not as that is.
    NotCurrent(SchemaProblem),
    /// It is of a later version.
    Newer(i32),
    /// Its version is unknown.
    Unknown(i32),
    /// It changed while it was examined.
    Changed,
    /// It is damaged, in the words of the database.
    Damaged(Vec<String>),
}

impl DatabaseError {
    pub open spec fn spec_message(self) -> Seq<char> {
        match self {
            DatabaseError::NotLegacy(_) => {
                "La base local con user_version=0 no coincide con el esquema legacy v0.1 esperado"@
            },
            DatabaseError::NotCurrent(_) => {
                "La base local no coincide con el esquema Kuznor v1 esperado"@
            },
            DatabaseError::Newer(version) => "La base de datos local usa el esquema "@ + integer(
                version as int,
            ) + ", mas reciente que el esquema "@ + integer(CURRENT_SCHEMA_VERSION as int)
                + " soportado por esta version de Kuznor. Actualice Kuznor; la base no fue modificada."@,
            DatabaseError::Unknown(version) => "La base de datos local tiene user_version="@
                + integer(version as int)
                + ", que Kuznor no reconoce. La base no fue modificada."@,
            DatabaseError::Changed => {
                "La base de datos local cambio mientras Kuznor la verificaba; cierre otras instancias e intente de nuevo"@
            },
            DatabaseError::Damaged(results) => {
                "La base de datos local no supero PRAGMA quick_check: "@ + join(
                    views(results@),
                    "; "@,
                ) + ". El archivo fue preservado."@
            },
        }
    }

    /// The error in words.
    pub fn message(&self) -> (r: String)
        ensures
            r@ == self.spec_message(),
    {
        match self {
            DatabaseError::NotLegacy(_) => {
                "La base local con user_version=0 no coincide con el esquema legacy v0.1 esperado".to_owned()
            },
            DatabaseError::NotCurrent(_) => {
                "La base local no coincide con el esquema Kuznor v1 esperado".to_owned()
            },
            DatabaseError::Newer(version) => {
                let mut r = "La base de datos local usa el esquema ".to_owned();
                r.append(integer_string(*version as i64).as_str());
                r.append(", mas reciente que el esquema ");
                r.append(integer_string(CURRENT_SCHEMA_VERSION as i64).as_str());
                r.append(
                    " soportado por esta version de Kuznor. Actualice Kuznor; la base no fue modificada.",
                );
                r
            },
            DatabaseError::Unknown(version) => {
                let mut r = "La base de datos local tiene user_version=".to_owned();
                r.append(integer_string(*version as i64).as_str());
                r.append(", que Kuznor no reconoce. La base no fue modificada.");
                r
            },
            DatabaseError::Changed => {
                "La base de datos local cambio mientras Kuznor la verificaba; cierre otras instancias e intente de nuevo".to_owned()
            },
            DatabaseError::Damaged(results) => {
                let mut r = "La base de datos local no supero PRAGMA quick_check: ".to_owned();
                r.append(joined(results, "; ").as_str());
                r.append(". El archivo fue preservado.");
                r
            },
        }
    }
}

/// Checks what the database says of its own health: nothing but `ok`.
pub fn quick_check(results: Vec<String>) -> (r: Result<(), DatabaseError>)
    ensures
        ({
            let healthy = forall|i: int|
                0 <= i < results@.len() ==> ascii_lower((#[trigger] results@[i])@) == ascii_lower(
                    "ok"@,
                );
            match r {
                Ok(()) => healthy,
                Err(e) => !healthy && e == DatabaseError::Damaged(results),
            }
        }),
{
    let mut i: usize = 0;
    while i < results.len()
        invariant
            i <= results.len(),
            forall|j: int|
                0 <= j < i ==> ascii_lower((#[trigger] results@[j])@) == ascii_lower("ok"@),
        decreases results.len() - i,
    {
        if !same_ignoring_ascii_case(results[i].as_str(), "ok") {
            assert(ascii_lower(results@[i as int]@) != ascii_lower("ok"@));
            return Err(DatabaseError::Damaged(results));
        }
        i += 1;
    }
    Ok(())
}

/// What a database file is, by its version, by whether it is empty, and by its
/// schema; files that are not as their version demands, or of versions not known
/// here, are refused.
pub fn classify_database(version: i32, is_empty: bool, schema: &Schema) -> (r: Result<
    Preflight,
    DatabaseError,
>)
    ensures
        match r {
            Ok(p) => p.version == version && match p.state {
                DatabaseState::Empty => version == 0 && is_empty,
                DatabaseState::LegacyV0 => version == 0 && !is_empty && is_expected(
                    schema@,
                    false,
                ),
                DatabaseState::CurrentV1 => version == CURRENT_SCHEMA_VERSION && is_expected(
                    schema@,
                    true,
                ),
            },
            Err(DatabaseError::NotLegacy(p)) => version == 0 && !is_empty && is_first_problem(
                schema@,
                false,
                p,
            ),
            Err(DatabaseError::NotCurrent(p)) => version == CURRENT_SCHEMA_VERSION
                && is_first_problem(schema@, true, p),
            Err(DatabaseError::Newer(v)) => v == version && version > CURRENT_SCHEMA_VERSION,
            Err(DatabaseError::Unknown(v)) => v == version && version < 0,
            Err(_) => false,
        },
{
    if version == 0 {
        if is_empty {
            return Ok(Preflight { version, state: DatabaseState::Empty });
        }
        match validate_schema(schema, false) {
            Ok(()) => Ok(Preflight { version, state: DatabaseState::LegacyV0 }),
            Err(p) => Err(DatabaseError::NotLegacy(p)),
        }
    } else if version == CURRENT_SCHEMA_VERSION {
        match validate_schema(schema, true) {
            Ok(()) => Ok(Preflight { version, state: DatabaseState::CurrentV1 }),
            Err(p) => Err(DatabaseError::NotCurrent(p)),
        }
    } else if version > CURRENT_SCHEMA_VERSION {
        Err(DatabaseError::Newer(version))
    } else {
        Err(DatabaseError::Unknown(version))
    }
}

/// Something that is done to a database file before it is used.
#[derive(Debug, Clone, Copy, PartialEq, Eq, Structural)]
pub enum MigrationStep {
    CreateTables,
    CreateIndexes,
    ValidateSchema,
    CheckForeignKeys,
    QuickCheck,
    SetVersion,
    Commit,
}

/// What is done, in one transaction, to a database file in a state; a file of the
/// current version is left as it is.
pub open spec fn migration(state: DatabaseState) -> Seq<MigrationStep> {
    let finish = seq![
        MigrationStep::CreateIndexes,
        MigrationStep::ValidateSchema,
        MigrationStep::CheckForeignKeys,
        MigrationStep::QuickCheck,
        MigrationStep::SetVersion,
        MigrationStep::Commit,
    ];
    match state {
        DatabaseState::CurrentV1 => seq![],
        DatabaseState::LegacyV0 => finish,
        DatabaseState::Empty => seq![MigrationStep::CreateTables] + finish,
    }
}

/// What is done to a database file in a state.
pub fn migration_steps(state: DatabaseState) -> (r: Vec<MigrationStep>)
    ensures
        r@ == migration(state),
{
    let mut r: Vec<MigrationStep> = Vec::new();
    match state {
        DatabaseState::CurrentV1 => {
            return r;
        },
        DatabaseState::LegacyV0 => {},
        DatabaseState::Empty => {
            r.push(MigrationStep::CreateTables);
        },
    }
    r.push(MigrationStep::CreateIndexes);
    r.push(MigrationStep::ValidateSchema);
    r.push(MigrationStep::CheckForeignKeys);
    r.push(MigrationStep::QuickCheck);
    r.push(MigrationStep::SetVersion);
    r.push(MigrationStep::Commit);
    assert(r@ =~= migration(state));
    r
}

/// A file is marked with the new version only after everything was checked, and only
/// committed then; the tables of a file that has some are never created anew.
pub proof fn law_migration_checks_first(state: DatabaseState, i: int)
    requires
        0 <= i < migration(state).len(),
    ensures
        migration(state)[i] == MigrationStep::SetVersion ==> migration(state).take(i).contains(
            MigrationStep::ValidateSchema,
        ) && migration(state).take(i).contains(MigrationStep::CheckForeignKeys) && migration(
            state,
        ).take(i).contains(MigrationStep::QuickCheck),
        migration(state)[i] == MigrationStep::Commit ==> i == migration(state).len() - 1,
        migration(state)[i] == MigrationStep::CreateTables ==> state == DatabaseState::Empty,
{
    let m = migration(state);
    if m[i] == MigrationStep::SetVersion {
        let t = m.take(i);
        assert(t[i - 3] == MigrationStep::ValidateSchema);
        assert(t[i - 2] == MigrationStep::CheckForeignKeys);
        assert(t[i - 1] == MigrationStep::QuickCheck);
    }
}

/// What to do to a database file that was there, given what it was at the first look
/// and what it is at the second.
pub fn confirm_preflight(first: Preflight, second: Preflight) -> (r: Result<
    DatabaseState,
    DatabaseError,
>)
    ensures
        match r {
            Ok(state) => first == second && state == first.state,
            Err(e) => first != second && e is Changed,
        },
{
    if first.version != second.version || first.state != second.state {
        Err(DatabaseError::Changed)
    } else {
        Ok(first.state)
    }
}

// -------------------------------------------------------------- project statuses

/// Why the status of a project is not changed.
#[derive(Debug, PartialEq, Eq)]
pub enum StatusError {
    /// The project is gone.
    Missing,
    /// Its stored status is unknown.
    Unknown(String),
    /// The change is not allowed.
    Forbidden(CodeProjectStatus, CodeProjectStatus),
}

impl StatusError {
    pub open spec fn spec_message(self) -> Seq<char> {
        match self {
            StatusError::Missing => "El proyecto de codigo ya no existe"@,
            StatusError::Unknown(status) => "Estado de proyecto de codigo no reconocido: "@
                + status@,
            StatusError::Forbidden(from, to) => "Transicion de estado de codigo no permitida: "@
                + from.spec_as_str() + " -> "@ + to.spec_as_str(),
        }
    }

    /// The error in words.
    pub fn message(&self) -> (r: String)
        ensures
            r@ == self.spec_message(),
    {
        match self {
            StatusError::Missing => "El proyecto de codigo ya no existe".to_owned(),
            StatusError::Unknown(status) => {
                let mut r = "Estado de proyecto de codigo no reconocido: ".to_owned();
                r.append(status.as_str());
                r
            },
            StatusError::Forbidden(from, to) => {
                let mut r = "Transicion de estado de codigo no permitida: ".to_owned();
                r.append(from.as_str());
                r.append(" -> ");
                r.append(to.as_str());
                r
            },
        }
    }
}

/// Checks a change of a project's status, given the stored one, if the project is
/// there.
pub fn transition_code_project_status(current: &Option<String>, next: CodeProjectStatus) -> (r:
    Result<(), StatusError>)
    ensures
        match opt_text(*current) {
            None => r matches Err(e) && e is Missing,
            Some(stored) => match CodeProjectStatus::parsed(stored) {
                None => r matches Err(e) && e matches StatusError::Unknown(s) && s@ == stored,
                Some(from) => if from.may_become(next) {
                    r is Ok
                } else {
                    r matches Err(e) && e == StatusError::Forbidden(from, next)
                },
            },
        },
{
    match current {
        None => Err(StatusError::Missing),
        Some(stored) => {
            match CodeProjectStatus::parse(stored.as_str()) {
                None => Err(StatusError::Unknown(stored.clone())),
                Some(from) => {
                    if from.can_transition_to(next) {
                        Ok(())
                    } else {
                        Err(StatusError::Forbidden(from, next))
                    }
                },
            }
        },
    }
}

/// The status of a project when the application starts: work that was under way has
/// been interrupted.
pub open spec fn startup_status(stored: Seq<char>) -> Seq<char> {
    if CodeProjectStatus::parsed(stored) == Some(CodeProjectStatus::Indexing) {
        CodeProjectStatus::Partial.spec_as_str()
    } else {
        stored
    }
}

/// The status of a project when the application starts.
pub fn status_at_startup(stored: &str) -> (r: String)
    ensures
        r@ == startup_status(stored@),
{
    match CodeProjectStatus::parse(stored) {
        Some(status) => {
            if status == CodeProjectStatus::Indexing {
                return CodeProjectStatus::Partial.as_str().to_owned();
            }
        },
        None => {},
    }
    stored.to_owned()
}

/// Whether the chunks of a project with this status are searched.
pub fn is_searchable(stored: &str) -> (r: bool)
    ensures
        r == (CodeProjectStatus::parsed(stored@) == Some(CodeProjectStatus::Ready)),
{
    match CodeProjectStatus::parse(stored) {
        Some(status) => status == CodeProjectStatus::Ready,
        None => false,
    }
}

/// A project whose indexing was interrupted is not searched after the next start,
/// and none is still being indexed then.
pub proof fn law_interrupted_is_not_searchable(stored: Seq<char>)
    ensures
        CodeProjectStatus::parsed(startup_status(stored)) != Some(CodeProjectStatus::Indexing),
        CodeProjectStatus::parsed(stored) == Some(CodeProjectStatus::Indexing)
            ==> CodeProjectStatus::parsed(startup_status(stored)) != Some(CodeProjectStatus::Ready),
{
    crate::code::types::law_status_round_trip(CodeProjectStatus::Partial);
}

/// The numbers and statuses of stored projects.
pub open spec fn status_views(v: Seq<(i64, String)>) -> Seq<(i64, Seq<char>)> {
    v.map_values(|p: (i64, String)| (p.0, p.1@))
}

/// The indexing of a project with this status was interrupted.
pub open spec fn is_interrupted(stored: Seq<char>) -> bool {
    stored == "indexing"@ || stored == "escaneando"@
}

/// The numbers of the projects whose indexing was interrupted, in their order.
pub open spec fn interrupted(projects: Seq<(i64, Seq<char>)>) -> Seq<i64>
    decreases projects.len(),
{
    if projects.len() == 0 {
        seq![]
    } else {
        let before = interrupted(projects.drop_last());
        if is_interrupted(projects.last().1) {
            before.push(projects.last().0)
        } else {
            before
        }
    }
}

/// The projects after the interrupted ones are marked.
pub open spec fn marked(projects: Seq<(i64, Seq<char>)>) -> Seq<(i64, Seq<char>)> {
    projects.map_values(
        |p: (i64, Seq<char>)|
            if is_interrupted(p.1) {
                (p.0, "partial"@)
            } else {
                p
            },
    )
}

/// Marks the projects whose indexing was interrupted as partial; the numbers of those
/// that were marked.
pub fn mark_interrupted_code_projects(projects: &mut Vec<(i64, String)>) -> (r: Vec<i64>)
    ensures
        r@ == interrupted(status_views(old(projects)@)),
        status_views(final(projects)@) == marked(status_views(old(projects)@)),
{
    let ghost all = status_views(projects@);
    let mut r: Vec<i64> = Vec::new();
    let mut done: Vec<(i64, String)> = Vec::new();
    let mut i: usize = 0;
    assert(status_views(done@) =~= marked(all).take(0));
    while i < projects.len()
        invariant
            i <= projects.len(),
            projects@ == old(projects)@,
            all == status_views(projects@),
            r@ == interrupted(all.take(i as int)),
            status_views(done@) == marked(all).take(i as int),
        decreases projects.len() - i,
    {
        let id = projects[i].0;
        let ghost before = status_views(done@);
        let stored = projects[i].1.as_str();
        let next = status_at_startup(stored);
        proof {
            assert(all[i as int] == (id, stored@));
            assert(all.take(i + 1).drop_last() =~= all.take(i as int));
            assert(all.take(i + 1).last() == all[i as int]);
            lemma_startup(stored@);
        }
        if same(stored, "indexing") || same(stored, "escaneando") {
            r.push(id);
        }
        done.push((id, next));
        proof {
            assert(status_views(done@) =~= before.push((id, next@)));
            assert(marked(all)[i as int] == (id, next@));
            assert(status_views(done@) =~= marked(all).take(i + 1));
        }
        i += 1;
    }
    assert(all.take(i as int) =~= all);
    assert(marked(all).take(i as int) =~= marked(all));
    *projects = done;
    r
}

proof fn lemma_startup(stored: Seq<char>)
    ensures
        startup_status(stored) == if is_interrupted(stored) {
            "partial"@
        } else {
            stored
        },
{
}

/// Marking the interrupted projects changes exactly those whose status was one of
/// indexing: each is partial then and not searched, the others stay as they were, and so
/// does the order. There are as many as were told, and a second time there is none and
/// nothing changes.
pub proof fn law_marking_interrupted_projects(projects: Seq<(i64, Seq<char>)>)
    ensures
        marked(projects).len() == projects.len(),
        interrupted(projects).len() == projects.filter(
            |p: (i64, Seq<char>)| is_interrupted(p.1),
        ).len(),
        forall|i: int|
            0 <= i < projects.len() ==> {
                let p = projects[i];
                let q = #[trigger] marked(projects)[i];
                &&& q.0 == p.0
                &&& q.1 == startup_status(p.1)
                &&& is_interrupted(p.1) ==> q.1 == "partial"@ && CodeProjectStatus::parsed(q.1)
                    == Some(CodeProjectStatus::Partial)
                &&& !is_interrupted(p.1) ==> q == p
            },
        interrupted(marked(projects)).len() == 0,
        marked(marked(projects)) == marked(projects),
    decreases projects.len(),
{
    let keep = |p: (i64, Seq<char>)| is_interrupted(p.1);
    let m = marked(projects);
    lemma_partial_is_no_indexing();
    assert forall|i: int| 0 <= i < projects.len() implies {
        let p = projects[i];
        let q = #[trigger] m[i];
        &&& q.0 == p.0
        &&& q.1 == startup_status(p.1)
        &&& is_interrupted(p.1) ==> q.1 == "partial"@ && CodeProjectStatus::parsed(q.1) == Some(
            CodeProjectStatus::Partial,
        )
        &&& !is_interrupted(p.1) ==> q == p
        &&& !is_interrupted(q.1)
    } by {
        lemma_startup(projects[i].1);
        crate::code::types::law_status_round_trip(CodeProjectStatus::Partial);
    }
    assert(marked(m) =~= m);
    reveal_with_fuel(Seq::filter, 2);
    if projects.len() > 0 {
        let p = projects.drop_last();
        law_marking_interrupted_projects(p);
        assert(m.drop_last() =~= marked(p));
        assert(!is_interrupted(m[m.len() - 1].1));
    }
}

proof fn lemma_partial_is_no_indexing()
    ensures
        !is_interrupted("partial"@),
{
    reveal_strlit("partial");
    reveal_strlit("indexing");
    reveal_strlit("escaneando");
    assert("partial"@[0] == 'p');
    assert("indexing"@[0] == 'i');
    assert("escaneando"@[0] == 'e');
}

// ------------------------------------------------------------------ missing files

/// Why files are not removed from the index.
#[derive(Debug, Clone, Copy, PartialEq, Eq, Structural)]
pub enum PruneError {
    /// The scan has not seen everything.
    PartialScan,
    /// The scan has seen one of the files.
    Observed,
}

impl PruneError {
    pub open spec fn spec_message(self) -> Seq<char> {
        match self {
            PruneError::PartialScan => {
                "Kuznor no puede eliminar archivos del indice tras un scan parcial o fallido"@
            },
            PruneError::Observed => {
                "Kuznor no puede eliminar un archivo observado durante el mismo scan"@
            },
        }
    }

    /// The error in words.
    pub fn message(self) -> (r: &'static str)
        ensures
            r@ == self.spec_message(),
    {
        match self {
            PruneError::PartialScan => {
                "Kuznor no puede eliminar archivos del indice tras un scan parcial o fallido"
            },
            PruneError::Observed => {
                "Kuznor no puede eliminar un archivo observado durante el mismo scan"
            },
        }
    }
}

/// The scan has seen a file at this path.
pub open spec fn is_observed(files: Seq<ScannedView>, path: Seq<char>) -> bool {
    exists|i: int| 0 <= i < files.len() && (#[trigger] files[i]).relative_path == path
}

/// The scan has seen a file at one of these paths.
pub open spec fn any_observed(files: Seq<ScannedView>, paths: Seq<Seq<char>>) -> bool {
    exists|i: int| 0 <= i < paths.len() && is_observed(files, #[trigger] paths[i])
}

fn saw(report: &ScanReport, path: &str) -> (r: bool)
    ensures
        r == is_observed(report@.files, path@),
{
    let ghost all = report@.files;
    let mut i: usize = 0;
    while i < report.files.len()
        invariant
            i <= report.files.len(),
            all == report@.files,
            forall|j: int| 0 <= j < i ==> (#[trigger] all[j]).relative_path != path@,
        decreases report.files.len() - i,
    {
        assert(all[i as int] == report.files@[i as int]@);
        if same(report.files[i].relative_path.as_str(), path) {
            return true;
        }
        i += 1;
    }
    false
}

/// Checks that files may be removed from the index: only after a scan that has seen
/// everything, and only files that it has not seen.
pub fn delete_missing_code_files(report: &ScanReport, confirmed_missing: &Vec<String>) -> (r: Result<
    (),
    PruneError,
>)
    ensures
        match r {
            Ok(()) => report@.complete && !any_observed(
                report@.files,
                views(confirmed_missing@),
            ),
            Err(PruneError::PartialScan) => !report@.complete,
            Err(PruneError::Observed) => report@.complete && any_observed(
                report@.files,
                views(confirmed_missing@),
            ),
        },
{
    if !report.is_complete() {
        return Err(PruneError::PartialScan);
    }
    let ghost paths = views(confirmed_missing@);
    let mut i: usize = 0;
    while i < confirmed_missing.len()
        invariant
            i <= confirmed_missing.len(),
            paths == views(confirmed_missing@),
            report@.complete,
            forall|j: int| 0 <= j < i ==> !is_observed(report@.files, #[trigger] paths[j]),
        decreases confirmed_missing.len() - i,
    {
        assert(paths[i as int] == confirmed_missing@[i as int]@);
        if saw(report, confirmed_missing[i].as_str()) {
            return Err(PruneError::Observed);
        }
        i += 1;
    }
    assert(paths.len() == confirmed_missing@.len());
    Ok(())
}

/// The files of the index that a complete scan has not seen, in their order; none
/// after a scan that is partial.
pub open spec fn missing(indexed: Seq<Seq<char>>, files: Seq<ScannedView>, complete: bool) -> Seq<
    Seq<char>,
> {
    indexed.filter(|p: Seq<char>| complete && !is_observed(files, p))
}

/// The files of the index that a complete scan has not seen.
pub fn missing_files(indexed: &Vec<String>, report: &ScanReport) -> (r: Vec<String>)
    ensures
        views(r@) == missing(views(indexed@), report@.files, report@.complete),
{
    let ghost all = views(indexed@);
    let ghost complete = report@.complete;
    let ghost files = report@.files;
    let ghost keep = |p: Seq<char>| complete && !is_observed(files, p);
    let whole = report.is_complete();
    let mut r: Vec<String> = Vec::new();
    let mut i: usize = 0;
    while i < indexed.len()
        invariant
            i <= indexed.len(),
            all == views(indexed@),
            whole == complete,
            complete == report@.complete,
            files == report@.files,
            keep == (|p: Seq<char>| complete && !is_observed(files, p)),
            views(r@) == all.take(i as int).filter(keep),
        decreases indexed.len() - i,
    {
        proof {
            assert(all.take(i + 1).drop_last() =~= all.take(i as int));
            reveal_with_fuel(Seq::filter, 2);
        }
        if whole && !saw(report, indexed[i].as_str()) {
            let ghost before = views(r@);
            r.push(indexed[i].clone());
            assert(views(r@) =~= before.push(indexed@[i as int]@));
        }
        i += 1;
    }
    assert(all.take(i as int) =~= all);
    r
}

/// What a scan is found to miss may always be removed; a partial scan misses
/// nothing.
pub proof fn law_missing_may_be_removed(
    indexed: Seq<Seq<char>>,
    files: Seq<ScannedView>,
    complete: bool,
)
    ensures
        !any_observed(files, missing(indexed, files, complete)),
        !complete ==> missing(indexed, files, complete).len() == 0,
        forall|p: Seq<char>| #[trigger]
            missing(indexed, files, complete).contains(p) ==> indexed.contains(p),
{
    let keep = |p: Seq<char>| complete && !is_observed(files, p);
    let m = missing(indexed, files, complete);
    assert forall|i: int| 0 <= i < m.len() implies !is_observed(files, #[trigger] m[i]) by {
        indexed.lemma_filter_pred(keep, i);
    }
    assert forall|p: Seq<char>| #[trigger] m.contains(p) implies indexed.contains(p) by {
        indexed.lemma_filter_contains_rev(keep, p);
    }
    if !complete && m.len() > 0 {
        indexed.lemma_filter_pred(keep, 0);
    }
}

// -------------------------------------------------------------------- embeddings

/// The four bytes of a number, the lowest first.
pub open spec fn le_bytes(x: u32) -> Seq<u8> {
    seq![
        (x % 256) as u8,
        (x / 256 % 256) as u8,
        (x / 65536 % 256) as u8,
        (x / 16777216) as u8,
    ]
}

/// The number of four bytes, the lowest first.
pub open spec fn le_number(b: Seq<u8>) -> u32 {
    (b[0] + b[1] * 256 + b[2] * 65536 + b[3] * 16777216) as u32
}

/// An embedding as it is stored: the bytes of its components, one after the other.
pub open spec fn stored_bytes(v: Seq<u32>) -> Seq<u8>
    decreases v.len(),
{
    if v.len() == 0 {
        seq![]
    } else {
        stored_bytes(v.drop_last()) + le_bytes(v.last())
    }
}

/// The components that stored bytes hold.
pub open spec fn components(b: Seq<u8>) -> Seq<u32> {
    Seq::new((b.len() / 4) as nat, |i: int| le_number(b.subrange(4 * i, 4 * i + 4)))
}

/// An embedding as it is stored.
pub fn embedding_to_bytes(values: &Vec<u32>) -> (r: Vec<u8>)
    ensures
        r@ == stored_bytes(values@),
{
    let mut r: Vec<u8> = Vec::new();
    let mut i: usize = 0;
    while i < values.len()
        invariant
            i <= values.len(),
            r@ == stored_bytes(values@.take(i as int)),
        decreases values.len() - i,
    {
        assert(values@.take(i + 1).drop_last() =~= values@.take(i as int));
        let ghost before = r@;
        let x = values[i];
        r.push((x % 256) as u8);
        r.push((x / 256 % 256) as u8);
        r.push((x / 65536 % 256) as u8);
        r.push((x / 16777216) as u8);
        assert(r@ =~= before + le_bytes(x));
        i += 1;
    }
    assert(values@.take(i as int) =~= values@);
    r
}

/// The embedding that stored bytes hold; none where they are no whole number of
/// components.
pub fn bytes_to_embedding(bytes: &Vec<u8>) -> (r: Option<Vec<u32>>)
    ensures
        match r {
            Some(v) => bytes@.len() % 4 == 0 && v@ == components(bytes@),
            None => bytes@.len() % 4 != 0,
        },
{
    if bytes.len() % 4 != 0 {
        return None;
    }
    let n = bytes.len() / 4;
    let mut r: Vec<u32> = Vec::new();
    let mut i: usize = 0;
    while i < n
        invariant
            i <= n,
            n == bytes@.len() / 4,
            4 * n == bytes@.len(),
            n <= usize::MAX / 4,
            r@ == components(bytes@).take(i as int),
        decreases n - i,
    {
        let a = bytes[4 * i] as u32;
        let b = bytes[4 * i + 1] as u32;
        let c = bytes[4 * i + 2] as u32;
        let d = bytes[4 * i + 3] as u32;
        let ghost part = bytes@.subrange(4 * i as int, 4 * i + 4);
        assert(part[0] == a && part[1] == b && part[2] == c && part[3] == d);
        r.push(a + b * 256 + c * 65536 + d * 16777216);
        assert(r@ =~= components(bytes@).take(i + 1));
        i += 1;
    }
    assert(components(bytes@).take(i as int) =~= components(bytes@));
    Some(r)
}

proof fn lemma_le_round_trip(x: u32)
    ensures
        le_number(le_bytes(x)) == x,
{
    let b = le_bytes(x);
    let q = x / 256;
    let r = q / 256;
    assert(x / 65536 == r) by (nonlinear_arith)
        requires
            q == x / 256,
            r == q / 256,
            x >= 0,
    ;
    assert(x / 16777216 == r / 256) by (nonlinear_arith)
        requires
            q == x / 256,
            r == q / 256,
            x >= 0,
    ;
    assert(x == x % 256 + 256 * q);
    assert(q == q % 256 + 256 * r);
    assert(r == r % 256 + 256 * (r / 256));
}

/// Reading a stored embedding gives the embedding back.
pub proof fn law_embedding_round_trip(v: Seq<u32>)
    ensures
        stored_bytes(v).len() == 4 * v.len(),
        components(stored_bytes(v)) == v,
    decreases v.len(),
{
    if v.len() > 0 {
        let p = v.drop_last();
        law_embedding_round_trip(p);
        let a = stored_bytes(p);
        let s = stored_bytes(v);
        lemma_le_round_trip(v.last());
        assert forall|i: int| 0 <= i < v.len() implies components(s)[i] == v[i] by {
            if i < p.len() {
                assert(s.subrange(4 * i, 4 * i + 4) =~= a.subrange(4 * i, 4 * i + 4));
                assert(components(a)[i] == p[i]);
            } else {
                assert(s.subrange(4 * i, 4 * i + 4) =~= le_bytes(v.last()));
            }
        }
        assert(components(s) =~= v);
    } else {
        assert(components(stored_bytes(v)) =~= v);
    }
}

} // verus!
