//! Documents: which files are accepted, and the text that is read from them.

use vstd::prelude::*;
use vstd::string::StringExecFns;

use std::collections::HashMap;
use std::sync::atomic::AtomicBool;
use std::time::Instant;

use lopdf::{Document as PdfFile, Object};

use crate::clock::{is_past, is_raised, may_be_past, may_show};
use crate::code::indexer::{
    has_nul, metadata_changed, string_from_utf8, strip_mark, without_mark, FileStamp,
};
use crate::code::scanner::{extension, extension_of, key_extensions};
use crate::models::{opt_text};
use crate::text::{
    ascii_lower, ascii_upper, blank, char_count, contains, contains_any, decimal, decimal_string, has_any,
    is_blank, is_one_of, same, starts_with, str_views, to_ascii_lower, to_ascii_upper, trim, trimmed,
};

verus! {

pub const MAX_TEXT_FILE_BYTES: u64 = 10_485_760;

pub const MAX_PDF_FILE_BYTES: u64 = 26_214_400;

pub const MAX_PDF_PAGES: usize = 500;

pub const MAX_TEXT_PER_PDF_PAGE_CHARS: usize = 250_000;

pub const MAX_NORMALIZED_TEXT_CHARS: usize = 5_000_000;

pub const MAX_CHUNK_BYTES: usize = 12_288;

pub const MAX_DOCUMENT_CHUNKS: usize = 2_000;

pub const EMBEDDING_BATCH_SIZE: usize = 8;

/// The seconds that the processing of a document may take.
pub const DOCUMENT_PROCESSING_SECONDS: u64 = 600;

/// The number of characters that a PDF must at least have to count as text.
pub const MIN_PDF_TEXT_CHARS: usize = 20;

// ------------------------------------------------------------------------ types

/// A part of a document.
#[derive(Debug, PartialEq, Eq)]
pub struct ParsedSection {
    pub text: String,
    pub page_number: Option<u32>,
    pub title: Option<String>,
}

/// What a `ParsedSection` holds.
pub struct SectionView {
    pub text: Seq<char>,
    pub page_number: Option<u32>,
    pub title: Option<Seq<char>>,
}

impl View for ParsedSection {
    type V = SectionView;

    open spec fn view(&self) -> SectionView {
        SectionView {
            text: self.text@,
            page_number: self.page_number,
            title: opt_text(self.title),
        }
    }
}

/// The views of a list of sections.
pub open spec fn section_views(v: Seq<ParsedSection>) -> Seq<SectionView> {
    v.map_values(|s: ParsedSection| s@)
}

/// The text of a document.
#[derive(Debug, PartialEq, Eq)]
pub struct ParsedDocument {
    pub title: String,
    pub sections: Vec<ParsedSection>,
    /// What else is known of the document.
    pub metadata: HashMap<String, String>,
}

/// What a `ParsedDocument` holds.
pub struct DocumentView {
    pub title: Seq<char>,
    pub sections: Seq<SectionView>,
    pub metadata: Map<String, String>,
}

impl View for ParsedDocument {
    type V = DocumentView;

    open spec fn view(&self) -> DocumentView {
        DocumentView {
            title: self.title@,
            sections: section_views(self.sections@),
            metadata: self.metadata@,
        }
    }
}

/// Why a document is not accepted or not read.
#[derive(Debug, PartialEq, Eq)]
pub enum DocumentError {
    /// It may hold secrets.
    Sensitive,
    /// It is gone: its path.
    Missing(String),
    /// It may not be read: its path.
    Denied(String),
    /// It cannot be reached: its path and the reason.
    Inaccessible(String, String),
    /// It is a link: its path.
    Link(String),
    /// It is no regular file: its path.
    NotRegular(String),
    /// It is no longer a regular file: its path.
    NoLongerRegular(String),
    /// Its path cannot be stored.
    LossyPath,
    /// It is of no known kind.
    Unsupported,
    /// It has too many bytes for its kind: the kind.
    TooLarge(String),
    /// It has changed since it was accepted: its path.
    Changed(String),
    /// It grew beyond the limit while it was read: the limit.
    OverLimit(u64),
    /// It holds zero bytes.
    Binary,
    /// It is not UTF-8.
    InvalidUtf8,
    /// Its text is too long.
    TextLimit,
    /// Its text is blank.
    Empty,
    /// The PDF cannot be read.
    PdfUnreadable,
    /// The PDF has too many pages: their number.
    PdfPages(usize),
    /// The text of a page of the PDF cannot be read: its number.
    PdfPageText(u32),
    /// A page of the PDF has too much text: its number.
    PdfPageLimit(u32),
    /// The PDF has hardly any text.
    PdfWithoutText,
    /// The user has cancelled the work.
    Cancelled,
    /// The work took too long.
    Expired,
}

/// The number of bytes that a file of a kind may have.
pub open spec fn size_limit(kind: Seq<char>) -> u64 {
    if kind == "pdf"@ {
        MAX_PDF_FILE_BYTES
    } else {
        MAX_TEXT_FILE_BYTES
    }
}

fn size_limit_of(kind: &str) -> (r: u64)
    ensures
        r == size_limit(kind@),
{
    if same(kind, "pdf") {
        MAX_PDF_FILE_BYTES
    } else {
        MAX_TEXT_FILE_BYTES
    }
}

fn two(a: &str, b: &str) -> (r: String)
    ensures
        r@ == a@ + b@,
{
    let mut r = a.to_owned();
    r.append(b);
    r
}

fn with_number(a: &str, n: u128, b: &str) -> (r: String)
    ensures
        r@ == a@ + decimal(n as nat) + b@,
{
    let mut r = a.to_owned();
    r.append(decimal_string(n).as_str());
    r.append(b);
    r
}

impl DocumentError {
    pub open spec fn spec_message(self) -> Seq<char> {
        match self {
            DocumentError::Sensitive => {
                "El archivo fue excluido por contener datos potencialmente sensibles"@
            },
            DocumentError::Missing(path) => "El archivo desaparecio: "@ + path@,
            DocumentError::Denied(path) => "Acceso denegado al archivo: "@ + path@,
            DocumentError::Inaccessible(path, reason) => "No se pudo acceder a "@ + path@ + ": "@
                + reason@,
            DocumentError::Link(path) => {
                "No se permiten enlaces simbolicos o puntos de reparacion: "@ + path@
            },
            DocumentError::NotRegular(path) => {
                "El elemento seleccionado no es un archivo regular: "@ + path@
            },
            DocumentError::NoLongerRegular(path) => {
                "El elemento seleccionado ya no es un archivo regular: "@ + path@
            },
            DocumentError::LossyPath => {
                "La ruta del archivo no puede guardarse sin conversion con perdida"@
            },
            DocumentError::Unsupported => "Formato no soportado. Usa TXT, Markdown o PDF."@,
            DocumentError::TooLarge(kind) => "El archivo supera el limite de "@ + decimal(
                (size_limit(kind@) / 1048576) as nat,
            ) + " MiB para "@ + ascii_upper(kind@) + " ("@ + decimal(size_limit(kind@) as nat)
                + " bytes)."@,
            DocumentError::Changed(path) => "El archivo cambio mientras se procesaba: "@ + path@,
            DocumentError::OverLimit(limit) => "El archivo supera el limite de "@ + decimal(
                limit as nat,
            ) + " bytes."@,
            DocumentError::Binary => "El archivo parece binario; contiene bytes NUL."@,
            DocumentError::InvalidUtf8 => "El archivo no contiene UTF-8 valido."@,
            DocumentError::TextLimit => "El texto extraido supera el limite de "@ + decimal(
                MAX_NORMALIZED_TEXT_CHARS as nat,
            ) + " caracteres."@,
            DocumentError::Empty => "El documento esta vacio."@,
            DocumentError::PdfUnreadable => {
                "El PDF esta danado, es invalido o no puede leerse"@
            },
            DocumentError::PdfPages(pages) => "El PDF tiene "@ + decimal(pages as nat)
                + " paginas y supera el limite de "@ + decimal(MAX_PDF_PAGES as nat)
                + " paginas."@,
            DocumentError::PdfPageText(page) => "No se pudo extraer texto de la pagina "@ + decimal(
                page as nat,
            ) + " del PDF"@,
            DocumentError::PdfPageLimit(page) => "La pagina "@ + decimal(page as nat)
                + " del PDF supera el limite de "@ + decimal(MAX_TEXT_PER_PDF_PAGE_CHARS as nat)
                + " caracteres extraidos."@,
            DocumentError::PdfWithoutText => {
                "No se encontro texto extraible. OCR no esta disponible en esta version."@
            },
            DocumentError::Cancelled => "Indexacion de documento cancelada"@,
            DocumentError::Expired => "La ingesta supero el presupuesto maximo de 10 minutos"@,
        }
    }

    /// The error in words.
    pub fn message(&self) -> (r: String)
        ensures
            r@ == self.spec_message(),
    {
        match self {
            DocumentError::Sensitive => {
                "El archivo fue excluido por contener datos potencialmente sensibles".to_owned()
            },
            DocumentError::Missing(path) => two("El archivo desaparecio: ", path.as_str()),
            DocumentError::Denied(path) => two("Acceso denegado al archivo: ", path.as_str()),
            DocumentError::Inaccessible(path, reason) => {
                let mut r = two("No se pudo acceder a ", path.as_str());
                r.append(": ");
                r.append(reason.as_str());
                r
            },
            DocumentError::Link(path) => {
                two("No se permiten enlaces simbolicos o puntos de reparacion: ", path.as_str())
            },
            DocumentError::NotRegular(path) => {
                two("El elemento seleccionado no es un archivo regular: ", path.as_str())
            },
            DocumentError::NoLongerRegular(path) => {
                two("El elemento seleccionado ya no es un archivo regular: ", path.as_str())
            },
            DocumentError::LossyPath => {
                "La ruta del archivo no puede guardarse sin conversion con perdida".to_owned()
            },
            DocumentError::Unsupported => {
                "Formato no soportado. Usa TXT, Markdown o PDF.".to_owned()
            },
            DocumentError::TooLarge(kind) => {
                let limit = size_limit_of(kind.as_str());
                let mut r = with_number(
                    "El archivo supera el limite de ",
                    (limit / 1048576) as u128,
                    " MiB para ",
                );
                r.append(to_ascii_upper(kind.as_str()).as_str());
                r.append(" (");
                r.append(decimal_string(limit as u128).as_str());
                r.append(" bytes).");
                r
            },
            DocumentError::Changed(path) => {
                two("El archivo cambio mientras se procesaba: ", path.as_str())
            },
            DocumentError::OverLimit(limit) => {
                with_number("El archivo supera el limite de ", *limit as u128, " bytes.")
            },
            DocumentError::Binary => "El archivo parece binario; contiene bytes NUL.".to_owned(),
            DocumentError::InvalidUtf8 => "El archivo no contiene UTF-8 valido.".to_owned(),
            DocumentError::TextLimit => {
                with_number(
                    "El texto extraido supera el limite de ",
                    MAX_NORMALIZED_TEXT_CHARS as u128,
                    " caracteres.",
                )
            },
            DocumentError::Empty => "El documento esta vacio.".to_owned(),
            DocumentError::PdfUnreadable => {
                "El PDF esta danado, es invalido o no puede leerse".to_owned()
            },
            DocumentError::PdfPages(pages) => {
                let mut r = with_number(
                    "El PDF tiene ",
                    *pages as u128,
                    " paginas y supera el limite de ",
                );
                r.append(decimal_string(MAX_PDF_PAGES as u128).as_str());
                r.append(" paginas.");
                r
            },
            DocumentError::PdfPageText(page) => {
                with_number(
                    "No se pudo extraer texto de la pagina ",
                    *page as u128,
                    " del PDF",
                )
            },
            DocumentError::PdfPageLimit(page) => {
                let mut r = with_number(
                    "La pagina ",
                    *page as u128,
                    " del PDF supera el limite de ",
                );
                r.append(decimal_string(MAX_TEXT_PER_PDF_PAGE_CHARS as u128).as_str());
                r.append(" caracteres extraidos.");
                r
            },
            DocumentError::PdfWithoutText => {
                "No se encontro texto extraible. OCR no esta disponible en esta version.".to_owned()
            },
            DocumentError::Cancelled => "Indexacion de documento cancelada".to_owned(),
            DocumentError::Expired => {
                "La ingesta supero el presupuesto maximo de 10 minutos".to_owned()
            },
        }
    }
}

// --------------------------------------------------------------- accepted files

/// What the names of documents with secrets hold.
pub open spec fn document_markers() -> Seq<Seq<char>> {
    seq![
        "credential"@,
        "credentials"@,
        "secret"@,
        "secrets"@,
        "private_key"@,
        "api_key"@,
        "access_token"@,
        "auth_token"@,
        "password"@,
        "passwd"@,
    ]
}

/// The document may hold secrets, by its file name.
pub open spec fn is_sensitive_name(name: Seq<char>) -> bool {
    let small = ascii_lower(name);
    ||| small == ".env"@
    ||| ".env."@.is_prefix_of(small)
    ||| contains_any(small, document_markers())
    ||| extension(name) matches Some(e) && key_extensions().contains(ascii_lower(e))
}

/// Whether a document may hold secrets, by its file name.
pub fn is_sensitive_path(name: &str) -> (r: bool)
    ensures
        r == is_sensitive_name(name@),
{
    let markers = [
        "credential",
        "credentials",
        "secret",
        "secrets",
        "private_key",
        "api_key",
        "access_token",
        "auth_token",
        "password",
        "passwd",
    ];
    assert(str_views(markers@) =~= document_markers());
    let keys = ["pem", "key", "p12", "pfx", "crt", "cer", "der", "jks", "keystore"];
    assert(str_views(keys@) =~= key_extensions());
    let small = to_ascii_lower(name);
    if same(small.as_str(), ".env") || starts_with(small.as_str(), ".env.") || has_any(
        small.as_str(),
        &markers,
    ) {
        return true;
    }
    match extension_of(name) {
        Some(e) => {
            let kind = to_ascii_lower(e.as_str());
            is_one_of(kind.as_str(), &keys)
        },
        None => false,
    }
}

/// Refuses a document that may hold secrets.
pub fn reject_sensitive(name: &str) -> (r: Result<(), DocumentError>)
    ensures
        if is_sensitive_name(name@) {
            r matches Err(e) && e is Sensitive
        } else {
            r is Ok
        },
{
    if is_sensitive_path(name) {
        Err(DocumentError::Sensitive)
    } else {
        Ok(())
    }
}

/// The kind of a document, by its file name: its extension in small letters.
pub open spec fn kind_of_name(name: Seq<char>) -> Seq<char> {
    match extension(name) {
        Some(e) => ascii_lower(e),
        None => seq![],
    }
}

/// The kind is one that is read.
pub open spec fn is_known_kind(kind: Seq<char>) -> bool {
    kind == "txt"@ || kind == "md"@ || kind == "pdf"@
}

/// The kind of a document, where it is one that is read.
pub fn document_kind(name: &str) -> (r: Result<String, DocumentError>)
    ensures
        match r {
            Ok(kind) => kind@ == kind_of_name(name@) && is_known_kind(kind@),
            Err(e) => e is Unsupported && !is_known_kind(kind_of_name(name@)),
        },
{
    let kind = match extension_of(name) {
        Some(e) => to_ascii_lower(e.as_str()),
        None => String::new(),
    };
    if same(kind.as_str(), "txt") || same(kind.as_str(), "md") || same(kind.as_str(), "pdf") {
        Ok(kind)
    } else {
        Err(DocumentError::Unsupported)
    }
}

/// Refuses a document with too many bytes for its kind.
pub fn ensure_file_limit(size_bytes: u64, kind: &str) -> (r: Result<(), DocumentError>)
    ensures
        if size_bytes > size_limit(kind@) {
            r matches Err(e) && e matches DocumentError::TooLarge(k) && k@ == kind@
        } else {
            r is Ok
        },
{
    if size_bytes > size_limit_of(kind) {
        Err(DocumentError::TooLarge(kind.to_owned()))
    } else {
        Ok(())
    }
}

/// How reaching for a file failed.
#[derive(Debug, PartialEq, Eq)]
pub enum AccessFailure {
    NotFound,
    PermissionDenied,
    Other(String),
}

/// The error for a file that could not be reached.
pub fn path_access_error(path: &str, failure: &AccessFailure) -> (r: DocumentError)
    ensures
        match *failure {
            AccessFailure::NotFound => r matches DocumentError::Missing(p) && p@ == path@,
            AccessFailure::PermissionDenied => r matches DocumentError::Denied(p) && p@ == path@,
            AccessFailure::Other(reason) => r matches DocumentError::Inaccessible(p, why) && p@
                == path@ && why@ == reason@,
        },
{
    match failure {
        AccessFailure::NotFound => DocumentError::Missing(path.to_owned()),
        AccessFailure::PermissionDenied => DocumentError::Denied(path.to_owned()),
        AccessFailure::Other(reason) => DocumentError::Inaccessible(
            path.to_owned(),
            reason.clone(),
        ),
    }
}

/// What was found out about the path of a document.
#[derive(Debug, PartialEq, Eq)]
pub enum PathFacts {
    /// Looking at it, or at what it resolves to, failed: the path that was tried.
    Failed { path: String, failure: AccessFailure },
    /// It is a link.
    Link,
    /// It is no regular file.
    NotRegular,
    /// What it resolves to is no regular file.
    NoLongerRegular,
    /// What it resolves to is a file whose path cannot be written as text.
    Lossy,
    /// What it resolves to is a regular file with this path and stamp.
    Regular { canonical_path: String, stamp: FileStamp },
}

/// A document that was accepted.
#[derive(Debug, PartialEq, Eq)]
pub struct ValidatedDocumentPath {
    pub canonical_path: String,
    pub persistent_path: String,
    pub kind: String,
    pub fingerprint: FileStamp,
}

impl ValidatedDocumentPath {
    /// Accepted as a document of a known kind within its size limit.
    pub open spec fn wf(self) -> bool {
        &&& is_known_kind(self.kind@)
        &&& self.fingerprint.size_bytes <= size_limit(self.kind@)
        &&& self.persistent_path@ == self.canonical_path@
    }

    /// Where the document stands.
    pub fn path(&self) -> (r: &str)
        ensures
            r@ == self.canonical_path@,
    {
        self.canonical_path.as_str()
    }

    /// The path under which the document is remembered.
    pub fn persistent_path(&self) -> (r: &str)
        ensures
            r@ == self.persistent_path@,
    {
        self.persistent_path.as_str()
    }

    /// The kind of the document.
    pub fn kind(&self) -> (r: &str)
        ensures
            r@ == self.kind@,
    {
        self.kind.as_str()
    }

    /// Checks, with a fresh look at the path, that the document is still the one
    /// that was accepted.
    pub fn revalidate(&self, facts: &PathFacts) -> (r: Result<(), DocumentError>)
        ensures
            match *facts {
                PathFacts::Regular { canonical_path, stamp } => if canonical_path@
                    == self.canonical_path@ && stamp == self.fingerprint {
                    r is Ok
                } else {
                    r matches Err(e) && e matches DocumentError::Changed(p) && p@
                        == self.canonical_path@
                },
                _ => r matches Err(e) && path_error(*facts, self.canonical_path@, e),
            },
    {
        match regular_file(facts, self.canonical_path.as_str()) {
            Err(e) => Err(e),
            Ok((path, stamp)) => {
                if !same(path.as_str(), self.canonical_path.as_str()) || metadata_changed(
                    stamp,
                    self.fingerprint,
                ) {
                    Err(DocumentError::Changed(self.canonical_path.clone()))
                } else {
                    Ok(())
                }
            },
        }
    }
}

/// The error says what was found out about a path that is no regular file.
pub open spec fn path_error(facts: PathFacts, shown: Seq<char>, e: DocumentError) -> bool {
    match facts {
        PathFacts::Failed { path, failure } => match failure {
            AccessFailure::NotFound => e matches DocumentError::Missing(p) && p@ == path@,
            AccessFailure::PermissionDenied => e matches DocumentError::Denied(p) && p@ == path@,
            AccessFailure::Other(reason) => e matches DocumentError::Inaccessible(p, why) && p@
                == path@ && why@ == reason@,
        },
        PathFacts::Link => e matches DocumentError::Link(p) && p@ == shown,
        PathFacts::NotRegular => e matches DocumentError::NotRegular(p) && p@ == shown,
        PathFacts::NoLongerRegular => e matches DocumentError::NoLongerRegular(p) && p@ == shown,
        PathFacts::Lossy => e is LossyPath,
        PathFacts::Regular { canonical_path, stamp } => false,
    }
}

fn regular_file(facts: &PathFacts, shown: &str) -> (r: Result<(String, FileStamp), DocumentError>)
    ensures
        match r {
            Ok((path, stamp)) => *facts matches PathFacts::Regular { canonical_path, stamp: s }
                && path@ == canonical_path@ && stamp == s,
            Err(e) => path_error(*facts, shown@, e),
        },
{
    match facts {
        PathFacts::Failed { path, failure } => Err(path_access_error(path.as_str(), failure)),
        PathFacts::Link => Err(DocumentError::Link(shown.to_owned())),
        PathFacts::NotRegular => Err(DocumentError::NotRegular(shown.to_owned())),
        PathFacts::NoLongerRegular => Err(DocumentError::NoLongerRegular(shown.to_owned())),
        PathFacts::Lossy => Err(DocumentError::LossyPath),
        PathFacts::Regular { canonical_path, stamp } => Ok((canonical_path.clone(), *stamp)),
    }
}

/// Accepts a document, or says why not: its name may not hint at secrets, its path
/// must lead to a regular file, its kind must be known, and its size within the
/// limit of the kind, in this order.
pub fn validate_document_path(name: &str, shown: &str, facts: &PathFacts) -> (r: Result<
    ValidatedDocumentPath,
    DocumentError,
>)
    ensures
        if is_sensitive_name(name@) {
            r matches Err(e) && e is Sensitive
        } else {
            match *facts {
                PathFacts::Regular { canonical_path, stamp } => {
                    let kind = kind_of_name(name@);
                    if !is_known_kind(kind) {
                        r matches Err(e) && e is Unsupported
                    } else if stamp.size_bytes > size_limit(kind) {
                        r matches Err(e) && e matches DocumentError::TooLarge(k) && k@ == kind
                    } else {
                        r matches Ok(d) && d.canonical_path@ == canonical_path@
                            && d.persistent_path@ == canonical_path@ && d.kind@ == kind
                            && d.fingerprint == stamp
                    }
                },
                _ => r matches Err(e) && path_error(*facts, shown@, e),
            }
        },
        r matches Ok(d) ==> d.wf(),
{
    match reject_sensitive(name) {
        Err(e) => {
            return Err(e);
        },
        Ok(()) => {},
    }
    let (path, stamp) = match regular_file(facts, shown) {
        Err(e) => {
            return Err(e);
        },
        Ok(found) => found,
    };
    let kind = match document_kind(name) {
        Err(e) => {
            return Err(e);
        },
        Ok(kind) => kind,
    };
    match ensure_file_limit(stamp.size_bytes, kind.as_str()) {
        Err(e) => {
            return Err(e);
        },
        Ok(()) => {},
    }
    let persistent = path.clone();
    Ok(
        ValidatedDocumentPath {
            canonical_path: path,
            persistent_path: persistent,
            kind,
            fingerprint: stamp,
        },
    )
}

// --------------------------------------------------------------------- stopping

/// Whether work goes on, given what the user and the clock say.
pub fn activity(cancelled: bool, expired: bool) -> (r: Result<(), DocumentError>)
    ensures
        if cancelled {
            r matches Err(e) && e is Cancelled
        } else if expired {
            r matches Err(e) && e is Expired
        } else {
            r is Ok
        },
{
    if cancelled {
        Err(DocumentError::Cancelled)
    } else if expired {
        Err(DocumentError::Expired)
    } else {
        Ok(())
    }
}

/// The flag and the clock can stop work in this way: the flag was seen raised, or it was
/// seen down and the deadline was past.
pub open spec fn may_stop(cancelled: &AtomicBool, deadline: Instant, e: DocumentError) -> bool {
    match e {
        DocumentError::Cancelled => may_show(cancelled, true),
        DocumentError::Expired => may_show(cancelled, false) && may_be_past(deadline, true),
        _ => false,
    }
}

/// The flag and the clock can let work go on: the flag was seen down and the deadline
/// was not past.
pub open spec fn may_go_on(cancelled: &AtomicBool, deadline: Instant) -> bool {
    may_show(cancelled, false) && may_be_past(deadline, false)
}

/// The error says that work was stopped from outside.
pub open spec fn is_stop(e: DocumentError) -> bool {
    e is Cancelled || e is Expired
}

/// Asks the user's flag and the clock whether work goes on.
pub fn ensure_active(cancelled: &AtomicBool, deadline: &Instant) -> (r: Result<(), DocumentError>)
    ensures
        match r {
            Ok(()) => may_go_on(cancelled, *deadline),
            Err(e) => may_stop(cancelled, *deadline, e),
        },
{
    if is_raised(cancelled) {
        return activity(true, false);
    }
    let late = is_past(deadline);
    activity(false, late)
}

// ------------------------------------------------------------------ reading text

/// Adds what was read of a file to the bytes that were read before, unless that
/// makes more than the limit.
pub fn append_bounded(bytes: &mut Vec<u8>, piece: &[u8], limit: u64) -> (r: Result<
    (),
    DocumentError,
>)
    ensures
        if old(bytes)@.len() + piece@.len() > limit {
            &&& r matches Err(e) && e matches DocumentError::OverLimit(l) && l == limit
            &&& final(bytes)@ == old(bytes)@
        } else {
            r is Ok && final(bytes)@ == old(bytes)@ + piece@
        },
{
    if bytes.len() as u128 + piece.len() as u128 > limit as u128 {
        return Err(DocumentError::OverLimit(limit));
    }
    let ghost before = bytes@;
    let mut i: usize = 0;
    while i < piece.len()
        invariant
            i <= piece.len(),
            bytes@ == before + piece@.take(i as int),
        decreases piece.len() - i,
    {
        bytes.push(piece[i]);
        assert(bytes@ =~= before + piece@.take(i + 1));
        i += 1;
    }
    assert(piece@.take(i as int) =~= piece@);
    Ok(())
}

/// Refuses a text that is too long.
pub fn ensure_text_limit(characters: usize) -> (r: Result<(), DocumentError>)
    ensures
        if characters > MAX_NORMALIZED_TEXT_CHARS {
            r matches Err(e) && e is TextLimit
        } else {
            r is Ok
        },
{
    if characters > MAX_NORMALIZED_TEXT_CHARS {
        Err(DocumentError::TextLimit)
    } else {
        Ok(())
    }
}

/// The title of a document: its file name or, where it has none, the fallback.
pub open spec fn title(name: Option<Seq<char>>, fallback: Seq<char>) -> Seq<char> {
    match name {
        Some(n) => n,
        None => fallback,
    }
}

/// The title of a document.
pub fn document_title(name: &Option<String>, fallback: &str) -> (r: String)
    ensures
        r@ == title(opt_text(*name), fallback@),
{
    match name {
        Some(n) => n.clone(),
        None => fallback.to_owned(),
    }
}

/// The outcome of reading plain text is the one that its bytes give.
pub open spec fn is_text_outcome(
    bytes: Seq<u8>,
    name: Option<Seq<char>>,
    r: Result<ParsedDocument, DocumentError>,
) -> bool {
    let text = without_mark(vstd::utf8::decode_utf8(bytes));
    if bytes.contains(0u8) {
        r matches Err(e) && e is Binary
    } else if !vstd::utf8::valid_utf8(bytes) {
        r matches Err(e) && e is InvalidUtf8
    } else if text.len() > MAX_NORMALIZED_TEXT_CHARS {
        r matches Err(e) && e is TextLimit
    } else if is_blank(text) {
        r matches Err(e) && e is Empty
    } else {
        r matches Ok(d) && d@ == (DocumentView {
            title: title(name, "documento"@),
            sections: seq![SectionView { text, page_number: None, title: None }],
            metadata: Map::empty(),
        })
    }
}

/// The text of a document of plain text.
pub fn parse_text(bytes: Vec<u8>, name: &Option<String>) -> (r: Result<
    ParsedDocument,
    DocumentError,
>)
    ensures
        is_text_outcome(bytes@, opt_text(*name), r),
{
    if has_nul(&bytes) {
        return Err(DocumentError::Binary);
    }
    let text = match string_from_utf8(bytes) {
        None => {
            return Err(DocumentError::InvalidUtf8);
        },
        Some(s) => strip_mark(s),
    };
    match ensure_text_limit(char_count(text.as_str())) {
        Err(e) => {
            return Err(e);
        },
        Ok(()) => {},
    }
    if blank(text.as_str()) {
        return Err(DocumentError::Empty);
    }
    let mut sections: Vec<ParsedSection> = Vec::new();
    sections.push(ParsedSection { text, page_number: None, title: None });
    let d = ParsedDocument {
        title: document_title(name, "documento"),
        sections,
        metadata: HashMap::new(),
    };
    assert(d@.sections =~= seq![SectionView { text: text@, page_number: None, title: None }]);
    Ok(d)
}

// ------------------------------------------------------------------- reading PDF

/// A PDF document.
#[verifier::external_type_specification]
#[verifier::external_body]
pub struct ExPdf(PdfFile);

/// The bytes of a file can be read as a PDF document.
pub uninterp spec fn is_pdf(bytes: Seq<u8>) -> bool;

/// The pages of a PDF document: the text of each, where it can be extracted.
pub uninterp spec fn pages_of(pdf: PdfFile) -> Seq<Option<Seq<char>>>;

/// The numbers and generations of the objects of a PDF document.
pub uninterp spec fn objects_of(pdf: PdfFile) -> Seq<(u32, u16)>;

/// The count that an object of a PDF document declares, where it is a dictionary that
/// declares one.
pub uninterp spec fn declared_by(pdf: PdfFile, number: u32, generation: u16) -> Option<i64>;

/// `lopdf::Document::load_mem`: whether the bytes can be read depends on the bytes alone.
/// The document that is read is not named after them: of an encrypted file the crate
/// puts the parts together in the order of a hash map. What a file may ask for of memory
/// and stack is not stated: the crate unpacks streams of any size, and it follows the
/// lengths of streams from object to object.
#[verifier::external_body]
pub(crate) fn load_pdf(bytes: &[u8]) -> (r: Option<PdfFile>)
    ensures
        r is Some == is_pdf(bytes@),
{
    PdfFile::load_mem(bytes).ok()
}

/// `lopdf::Document::page_iter`, walked to its end: one item for each page.
#[verifier::external_body]
pub(crate) fn count_pages(pdf: &PdfFile) -> (r: usize)
    ensures
        r == pages_of(*pdf).len(),
{
    pdf.page_iter().count()
}

/// The keys of `lopdf::Document::objects`: a number and a generation for each object.
#[verifier::external_body]
pub(crate) fn object_ids(pdf: &PdfFile) -> (r: Vec<(u32, u16)>)
    ensures
        r@ == objects_of(*pdf),
{
    pdf.objects.keys().copied().collect()
}

/// `lopdf::Document::get_dictionary` and, in what it gives, `lopdf::Dictionary::get_deref`
/// for the key `Count`: the number that stands there, where the object is a dictionary
/// and a whole number stands there.
#[verifier::external_body]
pub(crate) fn declared_count(pdf: &PdfFile, number: u32, generation: u16) -> (r: Option<i64>)
    ensures
        r == declared_by(*pdf, number, generation),
{
    let dictionary = pdf.get_dictionary((number, generation)).ok()?;
    dictionary.get_deref(b"Count", pdf).ok()?.as_i64().ok()
}

/// `lopdf::Document::get_object_mut` and, in the dictionary that it gives,
/// `lopdf::Dictionary::remove` for the key `Count`: the object declares no count any
/// more, nor does another that stands for the same dictionary, and nothing else is
/// changed. The pages stay, and their text: the crate finds them by the lists of the page
/// tree and not by counts, and a whole number under that key is no font.
#[verifier::external_body]
pub(crate) fn remove_count(pdf: &mut PdfFile, number: u32, generation: u16)
    requires
        declared_by(*old(pdf), number, generation) is Some,
    ensures
        declared_by(*final(pdf), number, generation) is None,
        forall|n: u32, g: u16|
            #![trigger declared_by(*final(pdf), n, g)]
            declared_by(*final(pdf), n, g) is None || declared_by(*final(pdf), n, g) == declared_by(
                *old(pdf),
                n,
                g,
            ),
        objects_of(*final(pdf)) == objects_of(*old(pdf)),
        pages_of(*final(pdf)) == pages_of(*old(pdf)),
{
    if let Ok(dictionary) = pdf.get_object_mut((number, generation)).and_then(Object::as_dict_mut) {
        dictionary.remove(b"Count");
    }
}

/// An object declares no count.
pub open spec fn is_silent(pdf: PdfFile, id: (u32, u16)) -> bool {
    declared_by(pdf, id.0, id.1) is None
}

/// No object declares a count.
pub open spec fn declares_nothing(pdf: PdfFile) -> bool {
    forall|i: int|
        0 <= i < objects_of(pdf).len() ==> #[trigger] is_silent(pdf, objects_of(pdf)[i])
}

/// Takes out all counts that a PDF document declares; its pages stay.
pub fn forget_counts(pdf: &mut PdfFile)
    ensures
        declares_nothing(*final(pdf)),
        pages_of(*final(pdf)) == pages_of(*old(pdf)),
{
    let ids = object_ids(pdf);
    let mut i: usize = 0;
    while i < ids.len()
        invariant
            i <= ids.len(),
            ids@ == objects_of(*pdf),
            pages_of(*pdf) == pages_of(*old(pdf)),
            forall|k: int| 0 <= k < i ==> #[trigger] is_silent(*pdf, objects_of(*pdf)[k]),
        decreases ids.len() - i,
    {
        let id = ids[i];
        let ghost before = *pdf;
        match declared_count(pdf, id.0, id.1) {
            Some(_) => {
                remove_count(pdf, id.0, id.1);
            },
            None => {},
        }
        proof {
            assert forall|k: int| 0 <= k < i + 1 implies #[trigger] is_silent(
                *pdf,
                objects_of(*pdf)[k],
            ) by {
                if k < i {
                    assert(is_silent(before, objects_of(before)[k]));
                }
            }
        }
        i += 1;
    }
}

/// `lopdf::Document::extract_text` for one page: its text, where it can be extracted.
/// The crate first makes room for the pages that the parts of the page tree declare,
/// whether it has them or not, and panics where there is no room for so many: hence none
/// may be declared. It then makes room for the entries of the lists alone.
#[verifier::external_body]
pub(crate) fn page_text(pdf: &PdfFile, page: u32) -> (r: Option<String>)
    requires
        1 <= page <= pages_of(*pdf).len(),
        declares_nothing(*pdf),
    ensures
        opt_text(r) == pages_of(*pdf)[page - 1],
{
    pdf.extract_text(&[page]).ok()
}

/// A PDF file can be read as this document, or cannot be read.
pub closed spec fn may_load(bytes: &[u8], loaded: Option<PdfFile>) -> bool {
    call_ensures(load_pdf, (bytes,), loaded)
}

/// The pages of a document that was read.
pub open spec fn readable_pages(loaded: Option<PdfFile>) -> Option<Seq<Option<Seq<char>>>> {
    match loaded {
        Some(pdf) => Some(pages_of(pdf)),
        None => None,
    }
}

/// Whether a file can be read as a PDF document depends on its bytes alone.
pub proof fn law_bytes_decide_reading(bytes: &[u8], loaded: Option<PdfFile>)
    requires
        may_load(bytes, loaded),
    ensures
        loaded is Some == is_pdf(bytes@),
{
}

/// Text that is gathered page by page.
pub struct PdfText {
    pub sections: Vec<ParsedSection>,
    pub characters: usize,
}

/// What a `PdfText` holds.
pub struct PdfView {
    pub sections: Seq<SectionView>,
    pub characters: nat,
}

impl View for PdfText {
    type V = PdfView;

    open spec fn view(&self) -> PdfView {
        PdfView { sections: section_views(self.sections@), characters: self.characters as nat }
    }
}

/// The gathered text with one more page; blank pages make no section.
pub open spec fn with_page(t: PdfView, page: u32, text: Seq<char>) -> PdfView {
    PdfView {
        sections: if is_blank(text) {
            t.sections
        } else {
            t.sections.push(SectionView { text, page_number: Some(page), title: None })
        },
        characters: t.characters + text.len(),
    }
}

/// What comes of gathering the first `n` pages: the text, or the first page that
/// stops it and how.
pub enum Gathered {
    Text(PdfView),
    NoText(u32),
    PageLimit(u32),
    TextLimit,
}

/// Gathering the first `n` pages of a PDF.
pub open spec fn gathered(pages: Seq<Option<Seq<char>>>, n: int) -> Gathered
    decreases n,
{
    if n <= 0 {
        Gathered::Text(PdfView { sections: seq![], characters: 0 })
    } else {
        match gathered(pages, n - 1) {
            Gathered::Text(t) => match pages[n - 1] {
                None => Gathered::NoText(n as u32),
                Some(text) => if text.len() > MAX_TEXT_PER_PDF_PAGE_CHARS {
                    Gathered::PageLimit(n as u32)
                } else if t.characters + text.len() > MAX_NORMALIZED_TEXT_CHARS {
                    Gathered::TextLimit
                } else {
                    Gathered::Text(with_page(t, n as u32, text))
                },
            },
            stopped => stopped,
        }
    }
}

impl PdfText {
    /// Nothing gathered yet.
    pub fn new() -> (r: PdfText)
        ensures
            r@ == (PdfView { sections: seq![], characters: 0 }),
    {
        let r = PdfText { sections: Vec::new(), characters: 0 };
        assert(r@.sections =~= seq![]);
        r
    }

    /// Adds the text of a page, unless a limit forbids it.
    pub fn add_page(&mut self, page: u32, text: String) -> (r: Result<(), DocumentError>)
        requires
            old(self).characters <= MAX_NORMALIZED_TEXT_CHARS,
        ensures
            if text@.len() > MAX_TEXT_PER_PDF_PAGE_CHARS {
                &&& r matches Err(e) && e matches DocumentError::PdfPageLimit(p) && p == page
                &&& final(self)@ == old(self)@
            } else if old(self)@.characters + text@.len() > MAX_NORMALIZED_TEXT_CHARS {
                &&& r matches Err(e) && e is TextLimit
                &&& final(self)@ == old(self)@
            } else {
                r is Ok && final(self)@ == with_page(old(self)@, page, text@)
            },
    {
        let count = char_count(text.as_str());
        if count > MAX_TEXT_PER_PDF_PAGE_CHARS {
            return Err(DocumentError::PdfPageLimit(page));
        }
        match ensure_text_limit(self.characters + count) {
            Err(e) => {
                return Err(e);
            },
            Ok(()) => {},
        }
        let ghost before = self@;
        self.characters = self.characters + count;
        if !blank(text.as_str()) {
            let section = ParsedSection { text, page_number: Some(page), title: None };
            self.sections.push(section);
            assert(self@.sections =~= before.sections.push(section@));
        }
        Ok(())
    }
}

/// The characters of sections, white space at their ends aside.
pub open spec fn text_chars(sections: Seq<SectionView>) -> nat
    decreases sections.len(),
{
    if sections.len() == 0 {
        0
    } else {
        text_chars(sections.drop_last()) + trim(sections.last().text).len()
    }
}

/// Whether sections have enough characters to count as text.
pub fn has_enough_text(sections: &Vec<ParsedSection>) -> (r: bool)
    ensures
        r == (text_chars(section_views(sections@)) >= MIN_PDF_TEXT_CHARS),
{
    let ghost all = section_views(sections@);
    let mut n: usize = 0;
    let mut i: usize = 0;
    assert(all.take(0).len() == 0);
    while i < sections.len()
        invariant
            i <= sections.len(),
            all == section_views(sections@),
            n < MIN_PDF_TEXT_CHARS,
            n == text_chars(all.take(i as int)),
        decreases sections.len() - i,
    {
        assert(all.take(i + 1).drop_last() =~= all.take(i as int));
        let t = trimmed(sections[i].text.as_str());
        let count = char_count(t.as_str());
        if count >= MIN_PDF_TEXT_CHARS || n + count >= MIN_PDF_TEXT_CHARS {
            proof {
                lemma_text_grows(all, i + 1);
            }
            return true;
        }
        n = n + count;
        i += 1;
    }
    assert(all.take(i as int) =~= all);
    false
}

proof fn lemma_text_grows(sections: Seq<SectionView>, n: int)
    requires
        0 <= n <= sections.len(),
    ensures
        text_chars(sections.take(n)) <= text_chars(sections),
    decreases sections.len(),
{
    if n < sections.len() {
        assert(sections.take(n) =~= sections.drop_last().take(n));
        lemma_text_grows(sections.drop_last(), n);
    } else {
        assert(sections.take(n) =~= sections);
    }
}

/// The outcome of reading a PDF is the one that its pages give.
pub open spec fn is_pdf_outcome(
    pages: Option<Seq<Option<Seq<char>>>>,
    name: Option<Seq<char>>,
    r: Result<ParsedDocument, DocumentError>,
) -> bool {
    match pages {
        None => r matches Err(e) && e is PdfUnreadable,
        Some(p) => if p.len() > MAX_PDF_PAGES {
            r matches Err(e) && e matches DocumentError::PdfPages(n) && n == p.len()
        } else {
            match gathered(p, p.len() as int) {
                Gathered::NoText(n) => r matches Err(e) && e matches DocumentError::PdfPageText(
                    m,
                ) && n == m,
                Gathered::PageLimit(n) => r matches Err(e) && e
                    matches DocumentError::PdfPageLimit(m) && n == m,
                Gathered::TextLimit => r matches Err(e) && e is TextLimit,
                Gathered::Text(t) => if text_chars(t.sections) < MIN_PDF_TEXT_CHARS {
                    r matches Err(e) && e is PdfWithoutText
                } else {
                    r matches Ok(d) && d@ == (DocumentView {
                        title: title(name, "documento.pdf"@),
                        sections: t.sections,
                        metadata: Map::empty(),
                    })
                },
            }
        },
    }
}

proof fn lemma_gathering_stops(pages: Seq<Option<Seq<char>>>, n: int, m: int)
    requires
        n <= m,
        !(gathered(pages, n) is Text),
    ensures
        gathered(pages, m) == gathered(pages, n),
    decreases m - n,
{
    if n < m {
        lemma_gathering_stops(pages, n, m - 1);
    }
}

/// The characters of the first pages, all of which have text.
pub open spec fn characters_of(pages: Seq<Option<Seq<char>>>, n: int) -> nat
    decreases n,
{
    if n <= 0 {
        0
    } else {
        characters_of(pages, n - 1) + pages[n - 1].unwrap().len()
    }
}

/// The page can be added to the first ones: it has a text, of at most 250,000 characters,
/// and together they have at most 5,000,000.
pub open spec fn is_readable_page(pages: Seq<Option<Seq<char>>>, i: int) -> bool {
    &&& pages[i] is Some
    &&& pages[i].unwrap().len() <= 250_000
    &&& characters_of(pages, i + 1) <= 5_000_000
}

/// The text of a PDF is that of its pages: every page with something on it is a section, as
/// it stands and with its number, in their order and nothing else. Reading stops at the
/// first page without a text or with too much of it, and says which.
pub proof fn law_every_page_is_read(pages: Seq<Option<Seq<char>>>, n: int)
    requires
        0 <= n <= pages.len() <= u32::MAX,
    ensures
        match gathered(pages, n) {
            Gathered::Text(t) => {
                &&& forall|i: int| 0 <= i < n ==> #[trigger] is_readable_page(pages, i)
                &&& t.characters == characters_of(pages, n)
                &&& forall|i: int|
                    0 <= i < n && !is_blank((#[trigger] pages[i]).unwrap())
                        ==> t.sections.contains(
                        SectionView {
                            text: pages[i].unwrap(),
                            page_number: Some((i + 1) as u32),
                            title: None,
                        },
                    )
                &&& forall|j: int|
                    0 <= j < t.sections.len() ==> {
                        let s = #[trigger] t.sections[j];
                        &&& s.page_number matches Some(p) && 1 <= p <= n && pages[p - 1] == Some(
                            s.text,
                        )
                        &&& s.title is None
                        &&& !is_blank(s.text)
                    }
                &&& forall|i: int, j: int|
                    0 <= i < j < t.sections.len() ==> (#[trigger] t.sections[i]).page_number.unwrap()
                        < (#[trigger] t.sections[j]).page_number.unwrap()
            },
            Gathered::NoText(p) => {
                &&& 1 <= p <= n
                &&& pages[p - 1] is None
                &&& forall|i: int| 0 <= i < p - 1 ==> #[trigger] is_readable_page(pages, i)
            },
            Gathered::PageLimit(p) => {
                &&& 1 <= p <= n
                &&& pages[p - 1] matches Some(text) && text.len() > 250_000
                &&& forall|i: int| 0 <= i < p - 1 ==> #[trigger] is_readable_page(pages, i)
            },
            Gathered::TextLimit => exists|p: int|
                {
                    &&& 0 <= p < n
                    &&& #[trigger] pages[p] is Some
                    &&& characters_of(pages, p + 1) > 5_000_000
                    &&& forall|i: int| 0 <= i < p ==> #[trigger] is_readable_page(pages, i)
                },
        },
    decreases n,
{
    if n > 0 {
        law_every_page_is_read(pages, n - 1);
        if let Gathered::Text(t) = gathered(pages, n - 1) {
            if let Gathered::Text(u) = gathered(pages, n) {
                let text = pages[n - 1].unwrap();
                assert(is_readable_page(pages, n - 1));
                assert forall|i: int|
                    0 <= i < n && !is_blank((#[trigger] pages[i]).unwrap()) implies u.sections.contains(
                    SectionView {
                        text: pages[i].unwrap(),
                        page_number: Some((i + 1) as u32),
                        title: None,
                    },
                ) by {
                    let s = SectionView {
                        text: pages[i].unwrap(),
                        page_number: Some((i + 1) as u32),
                        title: None,
                    };
                    if i < n - 1 {
                        assert(t.sections.contains(s));
                        let j = choose|j: int| 0 <= j < t.sections.len() && t.sections[j] == s;
                        assert(u.sections[j] == s);
                    } else {
                        assert(u.sections[u.sections.len() - 1] == s);
                    }
                }
                assert forall|j: int| 0 <= j < t.sections.len() implies #[trigger] u.sections[j]
                    == t.sections[j] by {}
            } else if gathered(pages, n) is TextLimit {
                assert(pages[n - 1] is Some);
            }
        }
    }
}

/// A file may hold secrets where its name is `.env` or begins with it and a dot, holds a
/// word for secrets, or is that of a key, letter case aside.
pub proof fn law_secrets_are_refused(name: Seq<char>)
    ensures
        ({
            let small = ascii_lower(name);
            &&& small == ".env"@ || ".env."@.is_prefix_of(small) ==> is_sensitive_name(name)
            &&& contains(small, "credential"@) || contains(small, "secret"@) || contains(
                small,
                "private_key"@,
            ) || contains(small, "api_key"@) || contains(small, "access_token"@) || contains(
                small,
                "auth_token"@,
            ) || contains(small, "password"@) || contains(small, "passwd"@) ==> is_sensitive_name(
                name,
            )
            &&& (extension(name) matches Some(e) && (ascii_lower(e) == "pem"@ || ascii_lower(e)
                == "key"@ || ascii_lower(e) == "p12"@ || ascii_lower(e) == "pfx"@ || ascii_lower(e)
                == "crt"@ || ascii_lower(e) == "cer"@ || ascii_lower(e) == "der"@ || ascii_lower(e)
                == "jks"@ || ascii_lower(e) == "keystore"@)) ==> is_sensitive_name(name)
        }),
{
    let m = document_markers();
    assert(m[0] == "credential"@ && m[2] == "secret"@ && m[4] == "private_key"@ && m[5]
        == "api_key"@ && m[6] == "access_token"@ && m[7] == "auth_token"@ && m[8] == "password"@
        && m[9] == "passwd"@);
    let k = key_extensions();
    assert(k[0] == "pem"@ && k[1] == "key"@ && k[2] == "p12"@ && k[3] == "pfx"@ && k[4] == "crt"@
        && k[5] == "cer"@ && k[6] == "der"@ && k[7] == "jks"@ && k[8] == "keystore"@);
}

/// The text of a PDF document, page by page, unless the work is stopped.
pub fn parse_pdf(
    bytes: &[u8],
    name: &Option<String>,
    cancelled: &AtomicBool,
    deadline: &Instant,
) -> (r: Result<ParsedDocument, DocumentError>)
    ensures
        (r matches Err(e) && may_stop(cancelled, *deadline, e)) || exists|
            loaded: Option<PdfFile>,
        | #[trigger]
            may_load(bytes, loaded) && is_pdf_outcome(readable_pages(loaded), opt_text(*name), r),
        !is_pdf(bytes@) ==> (r matches Err(e) && e is PdfUnreadable),
        is_pdf(bytes@) && !(r matches Err(e) && is_stop(e)) ==> may_go_on(cancelled, *deadline),
{
    let loaded = load_pdf(bytes);
    let ghost source = loaded;
    assert(may_load(bytes, source));
    let mut pdf = match loaded {
        None => {
            return Err(DocumentError::PdfUnreadable);
        },
        Some(pdf) => pdf,
    };
    match ensure_active(cancelled, deadline) {
        Err(e) => {
            return Err(e);
        },
        Ok(()) => {},
    }
    forget_counts(&mut pdf);
    let ghost pages = pages_of(pdf);
    assert(readable_pages(source) == Some(pages));
    let count = count_pages(&pdf);
    if count > MAX_PDF_PAGES {
        return Err(DocumentError::PdfPages(count));
    }
    let mut text = PdfText::new();
    let mut page: u32 = 1;
    while page as usize <= count
        invariant
            1 <= page <= count + 1 <= MAX_PDF_PAGES + 1,
            pages == pages_of(pdf),
            count == pages.len(),
            declares_nothing(pdf),
            may_load(bytes, source),
            readable_pages(source) == Some(pages),
            text.characters <= MAX_NORMALIZED_TEXT_CHARS,
            gathered(pages, page - 1) == Gathered::Text(text@),
            may_go_on(cancelled, *deadline),
        decreases count + 1 - page,
    {
        match ensure_active(cancelled, deadline) {
            Err(e) => {
                return Err(e);
            },
            Ok(()) => {},
        }
        let extracted = match page_text(&pdf, page) {
            None => {
                proof {
                    lemma_gathering_stops(pages, page as int, count as int);
                }
                return Err(DocumentError::PdfPageText(page));
            },
            Some(s) => s,
        };
        match text.add_page(page, extracted) {
            Err(e) => {
                proof {
                    lemma_gathering_stops(pages, page as int, count as int);
                }
                return Err(e);
            },
            Ok(()) => {},
        }
        page += 1;
    }
    if !has_enough_text(&text.sections) {
        return Err(DocumentError::PdfWithoutText);
    }
    Ok(
        ParsedDocument {
            title: document_title(name, "documento.pdf"),
            sections: text.sections,
            metadata: HashMap::new(),
        },
    )
}

/// The text of a document of a kind, given its bytes.
pub fn parse_validated_document(
    kind: &str,
    bytes: Vec<u8>,
    name: &Option<String>,
    cancelled: &AtomicBool,
    deadline: &Instant,
) -> (r: Result<ParsedDocument, DocumentError>)
    ensures
        (r matches Err(e) && may_stop(cancelled, *deadline, e)) || if kind@ == "pdf"@ {
            exists|file: &[u8], loaded: Option<PdfFile>|
                file@ == bytes@ && #[trigger] may_load(file, loaded) && is_pdf_outcome(
                    readable_pages(loaded),
                    opt_text(*name),
                    r,
                )
        } else if kind@ == "txt"@ || kind@ == "md"@ {
            is_text_outcome(bytes@, opt_text(*name), r)
        } else {
            r matches Err(e) && e is Unsupported
        },
        !(r matches Err(e) && is_stop(e)) ==> may_go_on(cancelled, *deadline),
{
    proof {
        reveal_strlit("txt");
        reveal_strlit("md");
        reveal_strlit("pdf");
        assert("txt"@[0] == 't');
        assert("md"@[0] == 'm');
        assert("pdf"@[0] == 'p');
    }
    match ensure_active(cancelled, deadline) {
        Err(e) => {
            return Err(e);
        },
        Ok(()) => {},
    }
    let parsed = if same(kind, "txt") || same(kind, "md") {
        parse_text(bytes, name)
    } else if same(kind, "pdf") {
        parse_pdf(&bytes, name, cancelled, deadline)
    } else {
        Err(DocumentError::Unsupported)
    };
    match parsed {
        Err(e) => Err(e),
        Ok(document) => match ensure_active(cancelled, deadline) {
            Err(e) => Err(e),
            Ok(()) => Ok(document),
        },
    }
}

/// A document is read where its name ends in a dot and one of three extensions, whatever
/// their case.
pub proof fn law_kinds(stem: Seq<char>, e: Seq<char>)
    requires
        stem.len() > 0,
        !e.contains('.'),
    ensures
        stem + seq!['.'] + e != ".."@ ==> kind_of_name(stem + seq!['.'] + e) == ascii_lower(e),
        is_known_kind(ascii_lower(e)) <==> seq!["txt"@, "md"@, "pdf"@].contains(ascii_lower(e)),
        size_limit("pdf"@) >= size_limit("txt"@) && size_limit("txt"@) == size_limit("md"@),
{
    reveal_strlit("txt");
    reveal_strlit("md");
    reveal_strlit("pdf");
    assert("txt"@[0] == 't');
    assert("md"@[0] == 'm');
    assert("pdf"@[0] == 'p');
    let name = stem + seq!['.'] + e;
    crate::code::scanner::law_extension(name);
    if name != ".."@ {
        assert(name[stem.len() as int] == '.');
        assert(extension(name) is Some);
        let found = extension(name).unwrap();
        let other = choose|other: Seq<char>| #[trigger]
            crate::code::scanner::is_named(name, other, found);
        if other.len() < stem.len() {
            let k = stem.len() - other.len() - 1;
            assert((other + seq!['.'] + found)[other.len() + 1 + k] == found[k]);
            assert(found[k] == '.');
            assert(found.contains('.'));
        } else if stem.len() < other.len() {
            let k = other.len() - stem.len() - 1;
            assert((other + seq!['.'] + found)[other.len() as int] == '.');
            assert((stem + seq!['.'] + e)[stem.len() + 1 + k] == e[k]);
            assert(e[k] == '.');
            assert(e.contains('.'));
        }
        assert(other.len() == stem.len());
        assert(found =~= (other + seq!['.'] + found).skip(other.len() as int + 1));
        assert(e =~= (stem + seq!['.'] + e).skip(stem.len() as int + 1));
    }
    let known = seq!["txt"@, "md"@, "pdf"@];
    assert(known[0] == "txt"@ && known[1] == "md"@ && known[2] == "pdf"@);
}

/// Plain text that is read is one section: the text of the bytes, which are whole and have
/// no zero among them, without the mark at its beginning; it is neither blank nor too
/// long.
pub proof fn law_text_is_read(
    bytes: Seq<u8>,
    name: Option<Seq<char>>,
    r: Result<ParsedDocument, DocumentError>,
)
    requires
        is_text_outcome(bytes, name, r),
        r is Ok,
    ensures
        !bytes.contains(0u8),
        vstd::utf8::valid_utf8(bytes),
        r.unwrap()@.sections.len() == 1,
        ({
            let text = r.unwrap()@.sections[0].text;
            let whole = vstd::utf8::decode_utf8(bytes);
            &&& whole == text || whole == seq!['\u{feff}'] + text
            &&& !is_blank(text)
            &&& text.len() <= MAX_NORMALIZED_TEXT_CHARS
        }),
{
    let whole = vstd::utf8::decode_utf8(bytes);
    if whole.len() > 0 && whole[0] == '\u{feff}' {
        assert(whole =~= seq!['\u{feff}'] + whole.skip(1));
    }
}

} // verus!
