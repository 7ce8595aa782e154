//! Reading source files and cutting them into chunks.

use vstd::prelude::*;
use vstd::string::StringExecFns;

use std::sync::atomic::AtomicBool;

use crate::code::types::{code_chunk_views, CodeChunk, CodeChunkView};
use crate::clock::{is_raised, may_show};
use crate::models::{chunk_views, copy_bits, opt_text, Chunk, ChunkView};
use crate::rag::embeddings::{
    all_letters, chunk_contents, embed_chunks_with_retry, embedded, is_cut_of, is_part_of,
    lemma_all_letters_add, lemma_cut_add, letters, may_embed,
    may_give, same_place, Embedded, EmbeddingError, EmbeddingProvider,
};
use crate::text::{
    all_digits, decimal, decimal_string, is_free_of, join, joined, law_decimal_round_trip,
    law_split_of_joined, lemma_lines, lines, on_one_line, run_together, same, split, strip_prefix,
    text_lines, views, CharClass,
};

verus! {

/// The number of lines of a chunk.
pub const MAX_CHUNK_LINES: usize = 80;

/// The number of characters of a chunk, line ends counted, unless its first line
/// alone is longer.
pub const MAX_CHUNK_CHARS: usize = 1_200;

/// The number of lines that a chunk repeats of the one before it.
pub const OVERLAP_LINES: usize = 6;

// -------------------------------------------------------------- reading sources

/// Why a source file is not read.
#[derive(Debug, Clone, Copy, PartialEq, Eq, Structural)]
pub enum SourceReadErrorKind {
    TooLarge,
    InvalidUtf8,
    Binary,
    Changed,
    UnsafePath,
}

/// Why a source file is not read, in words.
#[derive(Debug, PartialEq, Eq)]
pub struct SourceReadError {
    pub kind: SourceReadErrorKind,
    pub message: String,
}

/// Why a file is not indexed.
#[derive(Debug, PartialEq, Eq)]
pub enum IndexError {
    /// Its source is not read.
    Source(SourceReadError),
    /// The user has cancelled the work.
    Cancelled,
    /// Its chunks have no embeddings.
    Embedding(EmbeddingError),
    /// Anything else.
    Other(String),
}

impl IndexError {
    pub open spec fn spec_message(self) -> Seq<char> {
        match self {
            IndexError::Source(e) => e.message@,
            IndexError::Cancelled => "Indexacion cancelada"@,
            IndexError::Embedding(e) => e.spec_message(),
            IndexError::Other(text) => text@,
        }
    }

    /// The error in words.
    pub fn message(&self) -> (r: String)
        ensures
            r@ == self.spec_message(),
    {
        match self {
            IndexError::Source(e) => e.message.clone(),
            IndexError::Cancelled => "Indexacion cancelada".to_owned(),
            IndexError::Embedding(e) => e.message(),
            IndexError::Other(text) => text.clone(),
        }
    }
}

/// The kind of an error about a source; none for other errors.
pub fn source_read_error_kind(error: &IndexError) -> (r: Option<SourceReadErrorKind>)
    ensures
        r == match *error {
            IndexError::Source(e) => Some(e.kind),
            _ => None,
        },
{
    match error {
        IndexError::Source(e) => Some(e.kind),
        _ => None,
    }
}

/// The size of a file and the time of its last change, in nanoseconds, where the
/// system knows it.
#[derive(Debug, Clone, Copy, PartialEq, Eq, Structural)]
pub struct FileStamp {
    pub size_bytes: u64,
    pub modified: Option<i128>,
}

/// The text of a source file, and the stamp that it was read under.
#[derive(Debug, PartialEq, Eq)]
pub struct SourceContent {
    pub content: String,
    pub size_bytes: u64,
    pub modified: Option<i128>,
}

fn same_time(a: Option<i128>, b: Option<i128>) -> (r: bool)
    ensures
        r == (a == b),
{
    match (a, b) {
        (Some(x), Some(y)) => x == y,
        (None, None) => true,
        _ => false,
    }
}

/// Whether the file has changed between two looks at it.
pub fn metadata_changed(before: FileStamp, after: FileStamp) -> (r: bool)
    ensures
        r == (before != after),
{
    before.size_bytes != after.size_bytes || !same_time(before.modified, after.modified)
}

/// Whether the file is still the one that was read.
pub fn source_unchanged(source: &SourceContent, now: FileStamp) -> (r: bool)
    ensures
        r == (now == (FileStamp { size_bytes: source.size_bytes, modified: source.modified })),
{
    now.size_bytes == source.size_bytes && same_time(now.modified, source.modified)
}

fn source_error(kind: SourceReadErrorKind, text: &str, path: &str) -> (r: SourceReadError)
    ensures
        r.kind == kind,
        r.message@ == text@ + ": "@ + path@,
{
    let mut message = text.to_owned();
    message.append(": ");
    message.append(path);
    SourceReadError { kind, message }
}

/// What was found out about the path of a source before it is opened.
#[derive(Debug, Clone, Copy)]
pub struct SourcePathFacts {
    /// It is a symbolic link or the like.
    pub is_link: bool,
    /// It is a regular file.
    pub is_file: bool,
    /// Resolved, it lies below the authorized root.
    pub inside_root: bool,
}

/// Why the path of a source is unsafe, in words.
pub open spec fn path_objection(facts: SourcePathFacts) -> Option<Seq<char>> {
    if facts.is_link {
        Some("La fuente se convirtio en un enlace"@)
    } else if !facts.is_file {
        Some("La fuente ya no es un archivo regular"@)
    } else if !facts.inside_root {
        Some("La fuente queda fuera del root autorizado"@)
    } else {
        None
    }
}

/// Checks the path of a source before it is opened.
pub fn validate_source_path(facts: SourcePathFacts, path: &str) -> (r: Result<(), SourceReadError>)
    ensures
        match path_objection(facts) {
            None => r is Ok,
            Some(text) => r matches Err(e) && e.kind == SourceReadErrorKind::UnsafePath
                && e.message@ == text + ": "@ + path@,
        },
{
    if facts.is_link {
        return Err(
            source_error(
                SourceReadErrorKind::UnsafePath,
                "La fuente se convirtio en un enlace",
                path,
            ),
        );
    }
    if !facts.is_file {
        return Err(
            source_error(
                SourceReadErrorKind::UnsafePath,
                "La fuente ya no es un archivo regular",
                path,
            ),
        );
    }
    if !facts.inside_root {
        return Err(
            source_error(
                SourceReadErrorKind::UnsafePath,
                "La fuente queda fuera del root autorizado",
                path,
            ),
        );
    }
    Ok(())
}

/// Checks that a file stayed the same while it was read: the path that it resolves
/// to, its size and the time of its last change.
pub fn confirm_reading(same_path: bool, before: FileStamp, after: FileStamp, path: &str) -> (r:
    Result<(), SourceReadError>)
    ensures
        if !same_path {
            r matches Err(e) && e.kind == SourceReadErrorKind::UnsafePath && e.message@
                == "La ruta cambio mientras se leia"@ + ": "@ + path@
        } else if before != after {
            r matches Err(e) && e.kind == SourceReadErrorKind::Changed && e.message@
                == "El archivo cambio mientras se leia"@ + ": "@ + path@
        } else {
            r is Ok
        },
{
    if !same_path {
        return Err(
            source_error(
                SourceReadErrorKind::UnsafePath,
                "La ruta cambio mientras se leia",
                path,
            ),
        );
    }
    if metadata_changed(before, after) {
        return Err(
            source_error(SourceReadErrorKind::Changed, "El archivo cambio mientras se leia", path),
        );
    }
    Ok(())
}

/// The bytes that were read of a file, where they are no more than allowed.
pub fn read_bounded(bytes: Vec<u8>, max_file_bytes: u64) -> (r: Result<Vec<u8>, SourceReadError>)
    ensures
        match r {
            Ok(b) => bytes@.len() <= max_file_bytes && b@ == bytes@,
            Err(e) => bytes@.len() > max_file_bytes && e.kind == SourceReadErrorKind::TooLarge
                && e.message@ == "El archivo supera el limite de "@ + decimal(
                max_file_bytes as nat,
            ) + " bytes"@,
        },
{
    if bytes.len() as u64 > max_file_bytes {
        let mut message = "El archivo supera el limite de ".to_owned();
        message.append(decimal_string(max_file_bytes as u128).as_str());
        message.append(" bytes");
        return Err(SourceReadError { kind: SourceReadErrorKind::TooLarge, message });
    }
    Ok(bytes)
}

/// `String::from_utf8`: the bytes are a string exactly if they are valid UTF-8,
/// and then it is the string that they encode.
#[verifier::external_body]
pub(crate) fn string_from_utf8(bytes: Vec<u8>) -> (r: Option<String>)
    ensures
        match r {
            Some(s) => vstd::utf8::valid_utf8(bytes@) && s@ == vstd::utf8::decode_utf8(bytes@),
            None => !vstd::utf8::valid_utf8(bytes@),
        },
{
    String::from_utf8(bytes).ok()
}

/// Whether some byte is zero.
pub fn has_nul(bytes: &Vec<u8>) -> (r: bool)
    ensures
        r == bytes@.contains(0u8),
{
    let mut i: usize = 0;
    while i < bytes.len()
        invariant
            i <= bytes.len(),
            forall|j: int| 0 <= j < i ==> bytes@[j] != 0,
        decreases bytes.len() - i,
    {
        if bytes[i] == 0 {
            return true;
        }
        i += 1;
    }
    false
}

/// The text without the byte order mark at its beginning.
pub open spec fn without_mark(s: Seq<char>) -> Seq<char> {
    if s.len() > 0 && s[0] == '\u{feff}' {
        s.skip(1)
    } else {
        s
    }
}

/// The text without the byte order mark at its beginning.
pub fn strip_mark(s: String) -> (r: String)
    ensures
        r@ == without_mark(s@),
{
    proof {
        reveal_strlit("\u{feff}");
        crate::text::lemma_one_char_prefix(s@, "\u{feff}"@);
    }
    match strip_prefix(s.as_str(), "\u{feff}") {
        Some(rest) => rest,
        None => s,
    }
}

/// The text of a source file: bytes with zeros among them are binary, and nothing
/// but UTF-8 is read; a byte order mark is dropped.
pub fn decode_source(bytes: Vec<u8>, path: &str, stamp: FileStamp) -> (r: Result<
    SourceContent,
    SourceReadError,
>)
    ensures
        if bytes@.contains(0u8) {
            r matches Err(e) && e.kind == SourceReadErrorKind::Binary && e.message@
                == "El archivo contiene bytes NUL y se trato como binario"@ + ": "@ + path@
        } else if !vstd::utf8::valid_utf8(bytes@) {
            r matches Err(e) && e.kind == SourceReadErrorKind::InvalidUtf8 && e.message@
                == "El archivo no contiene texto UTF-8 valido"@ + ": "@ + path@
        } else {
            r matches Ok(s) && s.content@ == without_mark(vstd::utf8::decode_utf8(bytes@))
                && s.size_bytes == stamp.size_bytes && s.modified == stamp.modified
        },
{
    if has_nul(&bytes) {
        return Err(
            source_error(
                SourceReadErrorKind::Binary,
                "El archivo contiene bytes NUL y se trato como binario",
                path,
            ),
        );
    }
    match string_from_utf8(bytes) {
        None => Err(
            source_error(
                SourceReadErrorKind::InvalidUtf8,
                "El archivo no contiene texto UTF-8 valido",
                path,
            ),
        ),
        Some(text) => Ok(
            SourceContent {
                content: strip_mark(text),
                size_bytes: stamp.size_bytes,
                modified: stamp.modified,
            },
        ),
    }
}

// ----------------------------------------------------------------------- hashes

/// The SHA-256 digest of a message.
pub uninterp spec fn sha256(message: Seq<u8>) -> Seq<u8>;

/// `sha2::Sha256::digest`: the digest depends on the message alone and has 32
/// bytes.
#[verifier::external_body]
pub(crate) fn sha256_digest(message: &[u8]) -> (r: Vec<u8>)
    ensures
        r@ == sha256(message@),
        r@.len() == 32,
{
    <sha2::Sha256 as sha2::Digest>::digest(message).to_vec()
}

/// The digit of a number below sixteen.
pub open spec fn hex_digit(d: u8) -> char {
    if d < 10 {
        (d + 48) as u8 as char
    } else {
        (d + 87) as u8 as char
    }
}

/// Bytes in hexadecimal: two digits for each, the higher one first.
pub open spec fn hex_text(bytes: Seq<u8>) -> Seq<char> {
    Seq::new(
        2 * bytes.len(),
        |i: int|
            if i % 2 == 0 {
                hex_digit(bytes[i / 2] / 16)
            } else {
                hex_digit(bytes[i / 2] % 16)
            },
    )
}

/// `hex::encode`: two digits in lower case for each byte.
#[verifier::external_body]
pub(crate) fn hex_encode(bytes: &[u8]) -> (r: String)
    ensures
        r@ == hex_text(bytes@),
{
    hex::encode(bytes)
}

/// The hash of bytes: their SHA-256 digest in hexadecimal.
pub fn bytes_hash(bytes: &[u8]) -> (r: String)
    ensures
        r@ == hex_text(sha256(bytes@)),
        r@.len() == 64,
{
    let digest = sha256_digest(bytes);
    hex_encode(&digest)
}

/// The hash of a text: that of its bytes in UTF-8.
pub fn content_hash(content: &str) -> (r: String)
    ensures
        r@ == hex_text(sha256(vstd::utf8::encode_utf8(content@))),
        r@.len() == 64,
{
    bytes_hash(content.as_bytes())
}

/// Whether a file has to be indexed again: it was not indexed before, or its hash
/// has changed.
pub fn needs_reindex(previous_hash: Option<&str>, current_hash: &str) -> (r: bool)
    ensures
        r == match previous_hash {
            Some(h) => h@ != current_hash@,
            None => true,
        },
{
    match previous_hash {
        Some(h) => !same(h, current_hash),
        None => true,
    }
}

// ----------------------------------------------------------------------- chunks

/// The characters of lines `start` to `end`, line ends counted.
pub open spec fn chars_between(l: Seq<Seq<char>>, start: int, end: int) -> int
    decreases end - start,
{
    if start >= end {
        0
    } else {
        chars_between(l, start, end - 1) + l[end - 1].len() + 1
    }
}

/// Lines `start` to `end` make a chunk: they are not too many, and not too long
/// unless it is one line.
pub open spec fn fits(l: Seq<Seq<char>>, start: int, end: int) -> bool {
    &&& end - start <= MAX_CHUNK_LINES
    &&& end - start <= 1 || chars_between(l, start, end) <= MAX_CHUNK_CHARS
}

/// Where the chunk that begins at `start` ends, if it reaches `end` at least.
pub open spec fn chunk_end_from(l: Seq<Seq<char>>, start: int, end: int) -> int
    decreases l.len() - end,
{
    if end >= l.len() || !fits(l, start, end + 1) {
        end
    } else {
        chunk_end_from(l, start, end + 1)
    }
}

/// Where the chunk that begins at `start` ends: behind the last line that fits.
pub open spec fn chunk_end(l: Seq<Seq<char>>, start: int) -> int {
    chunk_end_from(l, start, start)
}

/// Where the chunk after the one from `start` to `end` begins.
pub open spec fn next_start(start: int, end: int) -> int {
    if end - OVERLAP_LINES > start {
        end - OVERLAP_LINES
    } else {
        start + 1
    }
}

/// A text with blanks before it up to five characters.
pub open spec fn padded(s: Seq<char>) -> Seq<char>
    decreases 5 - s.len(),
{
    if s.len() < 5 {
        padded(seq![' '] + s)
    } else {
        s
    }
}

/// A line with its number.
pub open spec fn numbered(number: nat, line: Seq<char>) -> Seq<char> {
    padded(decimal(number)) + " | "@ + line
}

/// The lines from `start` to `end` with their numbers.
pub open spec fn numbered_lines(l: Seq<Seq<char>>, start: int, end: int) -> Seq<Seq<char>> {
    Seq::new((end - start) as nat, |i: int| numbered((start + i + 1) as nat, l[start + i]))
}

/// What all chunks of a file have in common.
pub struct FileOfChunks {
    pub project_id: i64,
    pub file_id: i64,
    pub relative_path: Seq<char>,
    pub extension: Seq<char>,
    pub language: Seq<char>,
}

/// The chunk of the lines from `start` to `end`.
pub open spec fn line_chunk(
    file: FileOfChunks,
    l: Seq<Seq<char>>,
    start: int,
    end: int,
    index: int,
) -> CodeChunkView {
    CodeChunkView {
        id: 0,
        project_id: file.project_id,
        file_id: file.file_id,
        relative_path: file.relative_path,
        extension: file.extension,
        language: file.language,
        chunk_index: index as usize,
        line_start: (start + 1) as usize,
        line_end: end as usize,
        content: join(numbered_lines(l, start, end), "\n"@),
        embedding: seq![],
    }
}

proof fn lemma_chunk_end(l: Seq<Seq<char>>, start: int, end: int)
    requires
        0 <= start <= end <= l.len(),
        start < l.len(),
        end - start <= MAX_CHUNK_LINES,
    ensures
        end <= chunk_end_from(l, start, end) <= l.len(),
        end == start ==> chunk_end_from(l, start, end) > start,
        chunk_end_from(l, start, end) - start <= MAX_CHUNK_LINES,
    decreases l.len() - end,
{
    if end < l.len() && fits(l, start, end + 1) {
        lemma_chunk_end(l, start, end + 1);
    }
}

/// The chunks of a file from line `start` on, the first with the given index.
pub open spec fn chunks_from(
    file: FileOfChunks,
    l: Seq<Seq<char>>,
    start: int,
    index: int,
) -> Seq<CodeChunkView>
    decreases l.len() - start,
{
    if start < 0 || start >= l.len() {
        seq![]
    } else {
        let end = chunk_end(l, start);
        let chunk = line_chunk(file, l, start, end, index);
        if end >= l.len() {
            seq![chunk]
        } else {
            seq![chunk] + chunks_from(file, l, next_start(start, end), index + 1)
        }
    }
}

/// The chunks of a file: as many lines as fit, each chunk repeating the last lines
/// of the one before it.
pub open spec fn code_chunks(file: FileOfChunks, content: Seq<char>) -> Seq<CodeChunkView> {
    chunks_from(file, lines(content), 0, 0)
}

fn pad(s: String) -> (r: String)
    ensures
        r@ == padded(s@),
    decreases 5 - s@.len(),
{
    if crate::text::char_count(s.as_str()) < 5 {
        let mut longer = String::new();
        longer.push(' ');
        longer.append(s.as_str());
        assert(longer@ =~= seq![' '] + s@);
        pad(longer)
    } else {
        s
    }
}

fn end_of_chunk(l: &Vec<String>, start: usize) -> (r: usize)
    requires
        start < l@.len(),
    ensures
        r == chunk_end(views(l@), start as int),
        start < r <= l@.len(),
{
    let ghost all = views(l@);
    assert(all.len() == l@.len());
    let mut end: usize = start;
    let mut characters: u128 = 0;
    proof {
        lemma_chunk_end(all, start as int, start as int);
    }
    while end < l.len() && end - start < MAX_CHUNK_LINES
        invariant
            all == views(l@),
            all.len() == l@.len(),
            start <= end <= l.len(),
            end - start <= MAX_CHUNK_LINES,
            characters == chars_between(all, start as int, end as int),
            characters <= (end - start) * (usize::MAX + 1),
            chunk_end(all, start as int) == chunk_end_from(all, start as int, end as int),
            chunk_end(all, start as int) > start,
        decreases l.len() - end,
    {
        assert(all[end as int] == l@[end as int]@);
        let next: u128 = crate::text::char_count(l[end].as_str()) as u128 + 1;
        assert((end - start) * (usize::MAX + 1) + usize::MAX + 1 == (end + 1 - start) * (usize::MAX
            + 1)) by (nonlinear_arith);
        assert((end + 1 - start) * (usize::MAX + 1) <= 80 * (u64::MAX + 1)) by (nonlinear_arith)
            requires
                0 <= end + 1 - start <= 80,
                usize::MAX <= u64::MAX,
        ;
        if end > start && characters + next > MAX_CHUNK_CHARS as u128 {
            return end;
        }
        characters = characters + next;
        end += 1;
    }
    end
}

/// The chunks of a source file.
pub fn chunk_code(
    project_id: i64,
    file_id: i64,
    relative_path: &str,
    extension: &str,
    language: &str,
    content: &str,
) -> (r: Vec<CodeChunk>)
    ensures
        code_chunk_views(r@) == code_chunks(
            FileOfChunks {
                project_id,
                file_id,
                relative_path: relative_path@,
                extension: extension@,
                language: language@,
            },
            content@,
        ),
{
    let l = text_lines(content);
    let ghost all = lines(content@);
    assert(all.len() == l@.len());
    let ghost file = FileOfChunks {
        project_id,
        file_id,
        relative_path: relative_path@,
        extension: extension@,
        language: language@,
    };
    let ghost want = code_chunks(file, content@);
    let mut r: Vec<CodeChunk> = Vec::new();
    let mut start: usize = 0;
    assert(code_chunk_views(r@) + chunks_from(file, all, 0, 0) =~= want);
    while start < l.len()
        invariant
            all == views(l@),
            all.len() == l@.len(),
            file == (FileOfChunks {
                project_id,
                file_id,
                relative_path: relative_path@,
                extension: extension@,
                language: language@,
            }),
            start <= l.len(),
            r.len() <= start,
            want == code_chunks(file, content@),
            code_chunk_views(r@) + chunks_from(file, all, start as int, r@.len() as int) == want,
        decreases l.len() - start,
    {
        let end = end_of_chunk(&l, start);
        let mut text: Vec<String> = Vec::new();
        let mut i: usize = start;
        let ghost shown = numbered_lines(all, start as int, end as int);
        while i < end
            invariant
                all == views(l@),
                all.len() == l@.len(),
                start <= i <= end <= l.len(),
                shown == numbered_lines(all, start as int, end as int),
                views(text@) == shown.take(i - start),
            decreases end - i,
        {
            assert(all[i as int] == l@[i as int]@);
            let mut line = pad(decimal_string(i as u128 + 1));
            line.append(" | ");
            line.append(l[i].as_str());
            assert(line@ == numbered((i + 1) as nat, all[i as int]));
            let ghost had = views(text@);
            text.push(line);
            assert(views(text@) =~= had.push(line@));
            assert(views(text@) =~= shown.take(i + 1 - start));
            i += 1;
        }
        assert(shown.take(end - start) =~= shown);
        let chunk = CodeChunk {
            id: 0,
            project_id,
            file_id,
            relative_path: relative_path.to_owned(),
            extension: extension.to_owned(),
            language: language.to_owned(),
            chunk_index: r.len(),
            line_start: start + 1,
            line_end: end,
            content: joined(&text, "\n"),
            embedding: Vec::new(),
        };
        let ghost had = code_chunk_views(r@);
        let ghost n = r@.len() as int;
        assert(chunk@.embedding =~= seq![]);
        assert(chunk@ == line_chunk(file, all, start as int, end as int, n));
        r.push(chunk);
        assert(code_chunk_views(r@) =~= had.push(chunk@));
        if end == l.len() {
            assert(had + seq![chunk@] =~= had.push(chunk@));
            return r;
        }
        let ghost rest = chunks_from(
            file,
            all,
            next_start(start as int, end as int),
            n + 1,
        );
        assert(had + (seq![chunk@] + rest) =~= had.push(chunk@) + rest);
        start = if end > OVERLAP_LINES && end - OVERLAP_LINES > start {
            end - OVERLAP_LINES
        } else {
            start + 1
        };
    }
    assert(code_chunk_views(r@) + seq![] =~= code_chunk_views(r@));
    r
}

/// The chunks from line `start` on begin there, leave no line out, end with the
/// last line, and each begins behind the beginning of the one before it.
pub proof fn law_chunks_cover_lines(
    file: FileOfChunks,
    l: Seq<Seq<char>>,
    start: int,
    index: int,
)
    requires
        0 <= start < l.len() <= usize::MAX,
    ensures
        ({
            let c = chunks_from(file, l, start, index);
            &&& c.len() > 0
            &&& c[0].line_start == start + 1
            &&& c.last().line_end == l.len()
            &&& forall|i: int|
                0 <= i < c.len() ==> (#[trigger] c[i]).line_start <= c[i].line_end <= l.len()
            &&& forall|i: int|
                0 <= i < c.len() ==> (#[trigger] c[i]).line_end - c[i].line_start
                    < MAX_CHUNK_LINES
            &&& forall|i: int, j: int|
                0 <= i < c.len() - 1 && j == i + 1 ==> (#[trigger] c[i]).line_start < (
                #[trigger] c[j]).line_start <= c[i].line_end + 1
        }),
    decreases l.len() - start,
{
    let end = chunk_end(l, start);
    lemma_chunk_end(l, start, start);
    let c = chunks_from(file, l, start, index);
    if end < l.len() {
        let next = next_start(start, end);
        law_chunks_cover_lines(file, l, next, index + 1);
        let rest = chunks_from(file, l, next, index + 1);
        assert(c == seq![line_chunk(file, l, start, end, index)] + rest);
        assert forall|i: int| 0 <= i < c.len() implies (#[trigger] c[i]).line_start
            <= c[i].line_end <= l.len() && c[i].line_end - c[i].line_start < MAX_CHUNK_LINES by {
            if i > 0 {
                assert(c[i] == rest[i - 1]);
            }
        }
        assert forall|i: int, j: int| 0 <= i < c.len() - 1 && j == i + 1 implies (
        #[trigger] c[i]).line_start < (#[trigger] c[j]).line_start <= c[i].line_end + 1 by {
            assert(c[j] == rest[j - 1]);
            if i > 0 {
                assert(c[i] == rest[i - 1]);
            }
        }
        assert(c.last() == rest.last());
    }
}

/// So many blanks.
pub open spec fn blanks(width: nat) -> Seq<char> {
    Seq::new(width, |i: int| ' ')
}

/// The text shows a line with its number: blanks that fill the number up to five
/// characters, the number, a bar and the line.
pub open spec fn shows_line(shown: Seq<char>, number: nat, line: Seq<char>) -> bool {
    exists|width: nat|
        {
            &&& shown == #[trigger] blanks(width) + decimal(number) + " | "@ + line
            &&& width + decimal(number).len() == 5 || (width == 0 && decimal(number).len() >= 5)
        }
}

/// The chunk belongs to the file and shows its lines, from the first to the last that it
/// names, each with its own number.
pub open spec fn shows_lines(c: CodeChunkView, file: FileOfChunks, l: Seq<Seq<char>>) -> bool {
    let shown = split(c.content, CharClass::One('\n'));
    &&& c.project_id == file.project_id
    &&& c.file_id == file.file_id
    &&& c.relative_path == file.relative_path
    &&& c.extension == file.extension
    &&& c.language == file.language
    &&& c.embedding.len() == 0
    &&& 1 <= c.line_start <= c.line_end <= l.len()
    &&& shown.len() == c.line_end - c.line_start + 1
    &&& forall|n: int|
        c.line_start <= n <= c.line_end ==> shows_line(
            #[trigger] shown[n - c.line_start],
            n as nat,
            l[n - 1],
        )
}

/// Some chunk of the list names the line.
pub open spec fn is_in_chunk(chunks: Seq<CodeChunkView>, n: int) -> bool {
    exists|i: int| 0 <= i < chunks.len() && (#[trigger] chunks[i]).line_start <= n <= chunks[i].line_end
}

proof fn lemma_padded(s: Seq<char>)
    ensures
        s.len() <= 5 ==> padded(s) == blanks((5 - s.len()) as nat) + s,
        s.len() >= 5 ==> padded(s) == s,
    decreases 5 - s.len(),
{
    if s.len() < 5 {
        let t = seq![' '] + s;
        lemma_padded(t);
        assert(blanks((5 - t.len()) as nat) + t =~= blanks((5 - s.len()) as nat) + s);
    } else if s.len() == 5 {
        assert(blanks(0) + s =~= s);
    }
}

proof fn lemma_numbered(number: nat, line: Seq<char>)
    requires
        on_one_line(line),
    ensures
        shows_line(numbered(number, line), number, line),
        is_free_of(numbered(number, line), CharClass::One('\n')),
{
    let d = decimal(number);
    lemma_padded(d);
    law_decimal_round_trip(number);
    assert(all_digits(d));
    let width: nat = if d.len() < 5 {
        (5 - d.len()) as nat
    } else {
        0
    };
    assert(padded(d) =~= blanks(width) + d);
    assert(numbered(number, line) == blanks(width) + d + " | "@ + line);
    reveal_strlit(" | ");
    let s = numbered(number, line);
    assert forall|i: int| 0 <= i < s.len() implies !CharClass::One('\n').has(#[trigger] s[i]) by {
        if i < width {
        } else if i < width + d.len() {
            assert(s[i] == d[i - width]);
            assert(crate::text::is_digit(d[i - width]));
        } else if i < width + d.len() + 3 {
            assert(s[i] == " | "@[i - width - d.len()]);
        } else {
            assert(s[i] == line[i - width - d.len() - 3]);
        }
    }
}

proof fn lemma_line_chunk(file: FileOfChunks, l: Seq<Seq<char>>, start: int, end: int, index: int)
    requires
        0 <= start < end <= l.len() <= usize::MAX,
        forall|i: int| 0 <= i < l.len() ==> on_one_line(#[trigger] l[i]),
    ensures
        shows_lines(line_chunk(file, l, start, end, index), file, l),
{
    let v = numbered_lines(l, start, end);
    let k = CharClass::One('\n');
    assert forall|i: int| 0 <= i < v.len() implies is_free_of(#[trigger] v[i], k) && shows_line(
        v[i],
        (start + i + 1) as nat,
        l[start + i],
    ) by {
        assert(on_one_line(l[start + i]));
        lemma_numbered((start + i + 1) as nat, l[start + i]);
    }
    reveal_strlit("\n");
    assert("\n"@ =~= seq!['\n']);
    law_split_of_joined(v, '\n', k);
    let c = line_chunk(file, l, start, end, index);
    assert forall|n: int| c.line_start <= n <= c.line_end implies shows_line(
        #[trigger] split(c.content, k)[n - c.line_start],
        n as nat,
        l[n - 1],
    ) by {
        assert(v[n - 1 - start] == split(c.content, k)[n - c.line_start]);
    }
}

proof fn lemma_chunks_show_lines(file: FileOfChunks, l: Seq<Seq<char>>, start: int, index: int)
    requires
        0 <= start < l.len() <= usize::MAX,
        0 <= index <= start,
        forall|i: int| 0 <= i < l.len() ==> on_one_line(#[trigger] l[i]),
    ensures
        ({
            let c = chunks_from(file, l, start, index);
            &&& forall|i: int|
                0 <= i < c.len() ==> shows_lines(#[trigger] c[i], file, l) && c[i].chunk_index
                    == index + i
            &&& forall|n: int| start < n <= l.len() ==> #[trigger] is_in_chunk(c, n)
        }),
    decreases l.len() - start,
{
    let end = chunk_end(l, start);
    lemma_chunk_end(l, start, start);
    lemma_line_chunk(file, l, start, end, index);
    let c = chunks_from(file, l, start, index);
    assert(c[0] == line_chunk(file, l, start, end, index));
    if end < l.len() {
        let next = next_start(start, end);
        lemma_chunks_show_lines(file, l, next, index + 1);
        let rest = chunks_from(file, l, next, index + 1);
        assert forall|i: int| 0 <= i < c.len() implies shows_lines(#[trigger] c[i], file, l)
            && c[i].chunk_index == index + i by {
            if i > 0 {
                assert(c[i] == rest[i - 1]);
            }
        }
        assert forall|n: int| start < n <= l.len() implies #[trigger] is_in_chunk(c, n) by {
            if n > end {
                assert(is_in_chunk(rest, n));
                let i = choose|i: int|
                    0 <= i < rest.len() && (#[trigger] rest[i]).line_start <= n
                        <= rest[i].line_end;
                assert(c[i + 1] == rest[i]);
            } else {
                assert(c[0].line_start <= n <= c[0].line_end);
            }
        }
    } else {
        assert forall|n: int| start < n <= l.len() implies #[trigger] is_in_chunk(c, n) by {
            assert(c[0].line_start <= n <= c[0].line_end);
        }
    }
}

/// A file can be read back from its chunks: every chunk shows the lines that it names, each
/// with its own number and text, every line is in some chunk, and the chunks are numbered
/// in their order.
pub proof fn law_file_can_be_read_back(file: FileOfChunks, content: Seq<char>)
    requires
        lines(content).len() <= usize::MAX,
    ensures
        ({
            let l = lines(content);
            let c = code_chunks(file, content);
            &&& forall|i: int|
                0 <= i < c.len() ==> shows_lines(#[trigger] c[i], file, l) && c[i].chunk_index == i
            &&& forall|n: int| 1 <= n <= l.len() ==> #[trigger] is_in_chunk(c, n)
        }),
{
    let l = lines(content);
    lemma_lines(content);
    if l.len() > 0 {
        lemma_chunks_show_lines(file, l, 0, 0);
    }
}

/// The characters of the lines from one to another, with a line break behind each.
pub open spec fn size_of_lines(l: Seq<Seq<char>>, first: int, last: int) -> int {
    run_together(l.subrange(first - 1, last)).len() + (last - first + 1)
}

proof fn lemma_chars_between(l: Seq<Seq<char>>, start: int, end: int)
    requires
        0 <= start <= end <= l.len(),
    ensures
        chars_between(l, start, end) == size_of_lines(l, start + 1, end),
    decreases end - start,
{
    let v = l.subrange(start, end);
    if start < end {
        lemma_chars_between(l, start, end - 1);
        assert(v.drop_last() =~= l.subrange(start, end - 1));
        assert(v.last() == l[end - 1]);
    }
}

proof fn lemma_chunk_end_is_last(l: Seq<Seq<char>>, start: int, end: int)
    requires
        0 <= start <= end <= l.len(),
        end > start ==> fits(l, start, end),
    ensures
        ({
            let e = chunk_end_from(l, start, end);
            &&& e > start ==> fits(l, start, e)
            &&& e == l.len() || !fits(l, start, e + 1)
        }),
    decreases l.len() - end,
{
    if end < l.len() && fits(l, start, end + 1) {
        lemma_chunk_end_is_last(l, start, end + 1);
    }
}

/// The chunk is as long as it may be: at most 80 lines and, with more than one, at most
/// 1200 characters; the line behind it, if there is one, would be too much.
pub open spec fn is_full_chunk(c: CodeChunkView, l: Seq<Seq<char>>) -> bool {
    let n = c.line_end - c.line_start + 1;
    &&& n <= 80
    &&& n > 1 ==> size_of_lines(l, c.line_start as int, c.line_end as int) <= 1200
    &&& c.line_end < l.len() ==> n == 80 || size_of_lines(
        l,
        c.line_start as int,
        c.line_end + 1,
    ) > 1200
}

/// The second chunk repeats the last six lines of the first, or all but the first of
/// them where there are no more.
pub open spec fn overlaps(c: CodeChunkView, d: CodeChunkView) -> bool {
    d.line_start == if c.line_end - 6 > c.line_start - 1 {
        c.line_end - 5
    } else {
        c.line_start + 1
    }
}

/// The chunks from a line on are as long as they may be, and each repeats the end of the
/// one before it; the last ends with the file.
pub proof fn law_chunks_are_full(file: FileOfChunks, l: Seq<Seq<char>>, start: int, index: int)
    requires
        0 <= start < l.len() <= usize::MAX,
    ensures
        ({
            let c = chunks_from(file, l, start, index);
            &&& c.len() > 0
            &&& c[0].line_start == start + 1
            &&& c.last().line_end == l.len()
            &&& forall|i: int| 0 <= i < c.len() ==> is_full_chunk(#[trigger] c[i], l)
            &&& forall|i: int, j: int|
                0 <= i < c.len() - 1 && j == i + 1 ==> overlaps(#[trigger] c[i], #[trigger] c[j])
        }),
    decreases l.len() - start,
{
    let end = chunk_end(l, start);
    lemma_chunk_end(l, start, start);
    lemma_chunk_end_is_last(l, start, start);
    lemma_chars_between(l, start, end);
    if end < l.len() {
        lemma_chars_between(l, start, end + 1);
    }
    let c = chunks_from(file, l, start, index);
    assert(c[0] == line_chunk(file, l, start, end, index));
    if end < l.len() {
        let next = next_start(start, end);
        law_chunks_are_full(file, l, next, index + 1);
        let rest = chunks_from(file, l, next, index + 1);
        assert(c == seq![c[0]] + rest);
        assert forall|i: int| 0 <= i < c.len() implies is_full_chunk(#[trigger] c[i], l) by {
            if i > 0 {
                assert(c[i] == rest[i - 1]);
            }
        }
        assert forall|i: int, j: int| 0 <= i < c.len() - 1 && j == i + 1 implies overlaps(
            #[trigger] c[i],
            #[trigger] c[j],
        ) by {
            assert(c[j] == rest[j - 1]);
            if i > 0 {
                assert(c[i] == rest[i - 1]);
            }
        }
        assert(c.last() == rest.last());
    }
}

// -------------------------------------------------------------------- embedding

/// The number of chunks that are embedded at a time.
pub const EMBEDDING_BATCH_SIZE: usize = 8;

/// The number of a line where a page number stands for it: its low 32 bits.
pub open spec fn kept_line(line: usize) -> u32 {
    (line as int % 0x1_0000_0000) as u32
}

fn keep_line(line: usize) -> (r: u32)
    ensures
        r == kept_line(line),
{
    (line as u64 % 0x1_0000_0000) as u32
}

/// A chunk of code as a passage of a document: its lines stand for page and section.
pub open spec fn as_passage(c: CodeChunkView, file_id: i64) -> ChunkView {
    ChunkView {
        id: 0,
        document_id: file_id,
        document_name: c.relative_path,
        chunk_index: c.chunk_index,
        content: c.content,
        page_number: Some(kept_line(c.line_start)),
        section: Some(decimal(c.line_end as nat)),
        embedding: seq![],
    }
}

/// The contents of chunks of code.
pub open spec fn code_contents(chunks: Seq<CodeChunkView>) -> Seq<Seq<char>> {
    chunks.map_values(|c: CodeChunkView| c.content)
}

/// Chunks of code as passages of a document.
pub open spec fn as_passages(chunks: Seq<CodeChunkView>, file_id: i64) -> Seq<ChunkView> {
    chunks.map_values(|c: CodeChunkView| as_passage(c, file_id))
}

/// A passage as the part of the code of a file that stands at a place: the file is that
/// of the first chunk, and page and section stand for the lines.
pub open spec fn as_code(first: CodeChunkView, part: ChunkView, index: int) -> CodeChunkView {
    CodeChunkView {
        id: 0,
        project_id: first.project_id,
        file_id: first.file_id,
        relative_path: first.relative_path,
        extension: first.extension,
        language: first.language,
        chunk_index: index as usize,
        line_start: match part.page_number {
            Some(line) => line as usize,
            None => 1,
        },
        line_end: last_line(part.section),
        content: part.content,
        embedding: part.embedding,
    }
}

/// Passages as the code of a file, numbered in their order.
pub open spec fn as_codes(first: CodeChunkView, parts: Seq<ChunkView>) -> Seq<CodeChunkView> {
    Seq::new(parts.len(), |i: int| as_code(first, parts[i], i))
}

/// What one chunk of code can be cut into: each part has its lines, the first as a page
/// number keeps it, and together they have its letters, in their order.
pub open spec fn is_code_part_of(parts: Seq<CodeChunkView>, c: CodeChunkView) -> bool {
    &&& forall|i: int|
        0 <= i < parts.len() ==> (#[trigger] parts[i]).line_start == kept_line(c.line_start)
            && parts[i].line_end == c.line_end
    &&& all_letters(code_contents(parts)) == letters(c.content)
}

/// What chunks of code can be cut into: the parts of the first, then those of the
/// second, and so on.
pub open spec fn is_code_cut_of(v: Seq<CodeChunkView>, chunks: Seq<CodeChunkView>) -> bool
    decreases chunks.len(),
{
    if chunks.len() == 0 {
        v.len() == 0
    } else {
        exists|n: int|
            0 <= n <= v.len() && is_code_cut_of(v.take(n), chunks.drop_last()) && is_code_part_of(
                #[trigger] v.skip(n),
                chunks.last(),
            )
    }
}

/// The parts belong to the file of the chunks and are numbered in their order.
pub open spec fn is_numbered_part(v: Seq<CodeChunkView>, chunks: Seq<CodeChunkView>) -> bool {
    forall|i: int|
        0 <= i < v.len() ==> {
            let c = #[trigger] v[i];
            &&& chunks.len() > 0
            &&& c.id == 0
            &&& c.project_id == chunks[0].project_id
            &&& c.file_id == chunks[0].file_id
            &&& c.relative_path == chunks[0].relative_path
            &&& c.extension == chunks[0].extension
            &&& c.language == chunks[0].language
            &&& c.chunk_index == i
        }
}

/// What embedding makes of chunks: parts of the same file, numbered in their order,
/// those of each chunk with its lines and its letters.
pub open spec fn is_embedding_of(v: Seq<CodeChunkView>, chunks: Seq<CodeChunkView>) -> bool {
    is_code_cut_of(v, chunks) && is_numbered_part(v, chunks)
}

/// The end of the batch that begins at a chunk.
pub open spec fn code_batch_end(total: int, from: int) -> int {
    if total - from <= EMBEDDING_BATCH_SIZE {
        total
    } else {
        from + EMBEDDING_BATCH_SIZE
    }
}

/// What can come of embedding passages from one on, a batch after the other; what came
/// of those before it is told.
pub open spec fn may_embed_from<P: EmbeddingProvider>(
    provider: P,
    passages: Seq<ChunkView>,
    from: int,
    had: Seq<ChunkView>,
    out: Embedded,
) -> bool
    decreases passages.len() - from,
{
    if from >= passages.len() {
        out == Embedded::Done(had)
    } else {
        let to = code_batch_end(passages.len() as int, from);
        exists|batch: Embedded| #[trigger]
            may_embed(provider, passages.subrange(from, to), batch) && match batch {
                Embedded::Failed(_) => out == batch,
                Embedded::Done(got) => may_embed_from(provider, passages, to, had + got, out),
            }
    }
}

fn passages_of(chunks: &Vec<CodeChunk>, from: usize, to: usize, file_id: i64) -> (r: Vec<Chunk>)
    requires
        from <= to <= chunks@.len(),
    ensures
        r@.len() == to - from,
        forall|i: int|
            0 <= i < to - from ==> (#[trigger] r@[i])@ == as_passage(
                chunks@[from + i]@,
                file_id,
            ),
{
    let mut r: Vec<Chunk> = Vec::new();
    let mut i: usize = from;
    while i < to
        invariant
            from <= i <= to <= chunks.len(),
            r.len() == i - from,
            forall|j: int|
                0 <= j < i - from ==> (#[trigger] r@[j])@ == as_passage(
                    chunks@[from + j]@,
                    file_id,
                ),
        decreases to - i,
    {
        let c = Chunk {
            id: 0,
            document_id: file_id,
            document_name: chunks[i].relative_path.clone(),
            chunk_index: chunks[i].chunk_index,
            content: chunks[i].content.clone(),
            page_number: Some(keep_line(chunks[i].line_start)),
            section: Some(decimal_string(chunks[i].line_end as u128)),
            embedding: Vec::new(),
        };
        assert(c@.embedding =~= seq![]);
        assert(c@ == as_passage(chunks@[i as int]@, file_id));
        r.push(c);
        i += 1;
    }
    r
}

/// The last line that a section stands for.
pub open spec fn last_line(section: Option<Seq<char>>) -> usize {
    match section {
        Some(s) => match crate::text::as_number(s) {
            Some(n) => if n <= usize::MAX {
                n as usize
            } else {
                1
            },
            None => 1,
        },
        None => 1,
    }
}

fn line_end_of(section: &Option<String>) -> (r: usize)
    ensures
        r == last_line(opt_text(*section)),
{
    match section {
        Some(s) => {
            if !s.as_str().is_empty() && crate::text::only_digits(s.as_str()) {
                match crate::text::parse_number(s.as_str()) {
                    Some(n) => n,
                    None => 1,
                }
            } else {
                1
            }
        },
        None => 1,
    }
}

proof fn lemma_code_part(
    first: CodeChunkView,
    w: Seq<ChunkView>,
    v: Seq<CodeChunkView>,
    c: CodeChunkView,
    file_id: i64,
)
    requires
        is_part_of(w, as_passage(c, file_id)),
        v.len() == w.len(),
        forall|i: int|
            0 <= i < v.len() ==> (#[trigger] v[i]).line_start == as_code(first, w[i], 0).line_start
                && v[i].line_end == as_code(first, w[i], 0).line_end && v[i].content
                == w[i].content,
    ensures
        is_code_part_of(v, c),
{
    crate::text::law_decimal_round_trip(c.line_end as nat);
    assert(code_contents(v) =~= chunk_contents(w));
    assert forall|i: int| 0 <= i < v.len() implies (#[trigger] v[i]).line_start == kept_line(
        c.line_start,
    ) && v[i].line_end == c.line_end by {
        assert(same_place(w[i], as_passage(c, file_id)));
    }
}

proof fn lemma_code_cut(
    first: CodeChunkView,
    w: Seq<ChunkView>,
    v: Seq<CodeChunkView>,
    chunks: Seq<CodeChunkView>,
    file_id: i64,
)
    requires
        is_cut_of(w, as_passages(chunks, file_id)),
        v.len() == w.len(),
        forall|i: int|
            0 <= i < v.len() ==> (#[trigger] v[i]).line_start == as_code(first, w[i], 0).line_start
                && v[i].line_end == as_code(first, w[i], 0).line_end && v[i].content
                == w[i].content,
    ensures
        is_code_cut_of(v, chunks),
    decreases chunks.len(),
{
    let passages = as_passages(chunks, file_id);
    if chunks.len() > 0 {
        let n = choose|n: int|
            0 <= n <= w.len() && is_cut_of(w.take(n), passages.drop_last()) && is_part_of(
                #[trigger] w.skip(n),
                passages.last(),
            );
        assert(passages.drop_last() =~= as_passages(chunks.drop_last(), file_id));
        assert(passages.last() == as_passage(chunks.last(), file_id));
        let v1 = v.take(n);
        assert forall|i: int| 0 <= i < v1.len() implies (#[trigger] v1[i]).line_start == as_code(
            first,
            w.take(n)[i],
            0,
        ).line_start && v1[i].line_end == as_code(first, w.take(n)[i], 0).line_end
            && v1[i].content == w.take(n)[i].content by {
            assert(v1[i] == v[i]);
        }
        lemma_code_cut(first, w.take(n), v1, chunks.drop_last(), file_id);
        let v2 = v.skip(n);
        assert forall|i: int| 0 <= i < v2.len() implies (#[trigger] v2[i]).line_start == as_code(
            first,
            w.skip(n)[i],
            0,
        ).line_start && v2[i].line_end == as_code(first, w.skip(n)[i], 0).line_end
            && v2[i].content == w.skip(n)[i].content by {
            assert(v2[i] == v[i + n]);
        }
        lemma_code_part(first, w.skip(n), v2, chunks.last(), file_id);
        assert(is_code_part_of(v.skip(n), chunks.last()));
    }
}

/// Embedding the chunks of a file loses no letter and keeps their order.
pub proof fn law_code_cut_keeps_letters(v: Seq<CodeChunkView>, chunks: Seq<CodeChunkView>)
    requires
        is_code_cut_of(v, chunks),
    ensures
        all_letters(code_contents(v)) == all_letters(code_contents(chunks)),
    decreases chunks.len(),
{
    if chunks.len() == 0 {
        assert(code_contents(v) =~= code_contents(chunks));
    } else {
        let n = choose|n: int|
            0 <= n <= v.len() && is_code_cut_of(v.take(n), chunks.drop_last()) && is_code_part_of(
                #[trigger] v.skip(n),
                chunks.last(),
            );
        law_code_cut_keeps_letters(v.take(n), chunks.drop_last());
        lemma_all_letters_add(code_contents(v.take(n)), code_contents(v.skip(n)));
        assert(code_contents(v.take(n)) + code_contents(v.skip(n)) =~= code_contents(v));
        assert(code_contents(chunks).drop_last() =~= code_contents(chunks.drop_last()));
    }
}

fn append_embedded(r: &mut Vec<CodeChunk>, part: &Vec<Chunk>, first: &CodeChunk, had: Ghost<Seq<ChunkView>>)
    requires
        code_chunk_views(old(r)@) == as_codes(first@, had@),
    ensures
        code_chunk_views(final(r)@) == as_codes(first@, had@ + chunk_views(part@)),
{
    let ghost added = chunk_views(part@);
    let mut i: usize = 0;
    assert(had@ + added.take(0) =~= had@);
    while i < part.len()
        invariant
            i <= part.len(),
            added == chunk_views(part@),
            code_chunk_views(r@) == as_codes(first@, had@ + added.take(i as int)),
        decreases part.len() - i,
    {
        let ghost before = code_chunk_views(r@);
        let ghost done = had@ + added.take(i as int);
        assert(before.len() == r@.len());
        let line_start: usize = match part[i].page_number {
            Some(p) => p as usize,
            None => 1,
        };
        let c = CodeChunk {
            id: 0,
            project_id: first.project_id,
            file_id: first.file_id,
            relative_path: first.relative_path.clone(),
            extension: first.extension.clone(),
            language: first.language.clone(),
            chunk_index: r.len(),
            line_start,
            line_end: line_end_of(&part[i].section),
            content: part[i].content.clone(),
            embedding: copy_bits(&part[i].embedding),
        };
        r.push(c);
        proof {
            assert(code_chunk_views(r@) =~= before.push(c@));
            assert(added[i as int] == part@[i as int]@);
            let now = had@ + added.take(i + 1);
            assert(now =~= done.push(added[i as int]));
            assert(c@ == as_code(first@, added[i as int], done.len() as int));
            assert(code_chunk_views(r@) =~= as_codes(first@, now));
        }
        i += 1;
    }
    assert(added.take(i as int) =~= added);
}

/// Embeds the chunks of a file, a few at a time, unless the user cancels the work.
pub fn embed_code_chunks_cancellable<P: EmbeddingProvider>(
    provider: &P,
    chunks: &Vec<CodeChunk>,
    cancelled: &AtomicBool,
) -> (r: Result<Vec<CodeChunk>, IndexError>)
    ensures
        chunks@.len() == 0 ==> (r matches Ok(v) && v@.len() == 0),
        chunks@.len() > 0 ==> {
            let all = code_chunk_views(chunks@);
            let passages = as_passages(all, all[0].file_id);
            match r {
                Ok(v) => may_show(cancelled, false) && exists|w: Seq<ChunkView>| #[trigger]
                    may_embed_from(*provider, passages, 0, seq![], Embedded::Done(w))
                        && code_chunk_views(v@) == as_codes(all[0], w),
                Err(IndexError::Embedding(e)) => may_show(cancelled, false) && may_embed_from(
                    *provider,
                    passages,
                    0,
                    seq![],
                    Embedded::Failed(e),
                ),
                Err(e) => e is Cancelled && may_show(cancelled, true),
            }
        },
        r matches Ok(v) ==> is_embedding_of(code_chunk_views(v@), code_chunk_views(chunks@))
            && forall|i: int|
            0 <= i < v@.len() ==> may_give(
                *provider,
                (#[trigger] v@[i])@.content,
                v@[i]@.embedding,
            ),
{
    let ghost all = code_chunk_views(chunks@);
    let mut r: Vec<CodeChunk> = Vec::new();
    if chunks.len() == 0 {
        assert(code_chunk_views(r@) =~= seq![]);
        return Ok(r);
    }
    assert(all[0] == chunks@[0]@);
    let file_id = chunks[0].file_id;
    let ghost passages = as_passages(all, file_id);
    let ghost none = Seq::<ChunkView>::empty();
    let ghost mut done: Seq<ChunkView> = none;
    let mut from: usize = 0;
    assert(code_chunk_views(r@) =~= as_codes(all[0], done));
    assert(passages.take(0) =~= none);
    while from < chunks.len()
        invariant
            from <= chunks.len(),
            chunks.len() > 0,
            all == code_chunk_views(chunks@),
            all.len() == chunks@.len(),
            all[0] == chunks@[0]@,
            file_id == all[0].file_id,
            passages == as_passages(all, file_id),
            none == Seq::<ChunkView>::empty(),
            from > 0 ==> may_show(cancelled, false),
            code_chunk_views(r@) == as_codes(all[0], done),
            is_cut_of(done, passages.take(from as int)),
            forall|i: int|
                0 <= i < done.len() ==> may_give(
                    *provider,
                    (#[trigger] done[i]).content,
                    done[i].embedding,
                ),
            forall|out: Embedded|
                may_embed_from(*provider, passages, from as int, done, out)
                    ==> #[trigger] may_embed_from(*provider, passages, 0, none, out),
        decreases chunks.len() - from,
    {
        if is_raised(cancelled) {
            return Err(IndexError::Cancelled);
        }
        let to: usize = if chunks.len() - from <= EMBEDDING_BATCH_SIZE {
            chunks.len()
        } else {
            from + EMBEDDING_BATCH_SIZE
        };
        let batch = passages_of(chunks, from, to, file_id);
        let ghost asked = passages.subrange(from as int, to as int);
        proof {
            let p = chunk_views(batch@);
            assert forall|i: int| 0 <= i < to - from implies #[trigger] p[i] == asked[i] by {
                assert(p[i] == batch@[i]@);
                assert(all[from + i] == chunks@[from + i]@);
            }
            assert(p =~= asked);
            assert(to == code_batch_end(passages.len() as int, from as int));
        }
        let got = embed_chunks_with_retry(provider, &batch);
        let ghost outcome = embedded(got);
        match got {
            Err(e) => {
                assert(may_embed_from(*provider, passages, from as int, done, outcome));
                return Err(IndexError::Embedding(e));
            },
            Ok(parts) => {
                let ghost added = chunk_views(parts@);
                append_embedded(&mut r, &parts, &chunks[0], Ghost(done));
                proof {
                    let now = done + added;
                    assert(added.len() == parts@.len());
                    lemma_cut_add(done, passages.take(from as int), added, asked);
                    assert(passages.take(from as int) + asked =~= passages.take(to as int));
                    assert forall|i: int| 0 <= i < now.len() implies may_give(
                        *provider,
                        (#[trigger] now[i]).content,
                        now[i].embedding,
                    ) by {
                        if i < done.len() {
                            assert(now[i] == done[i]);
                        } else {
                            assert(now[i] == parts@[i - done.len()]@);
                        }
                    }
                    assert forall|out: Embedded|
                        may_embed_from(*provider, passages, to as int, now, out) implies
                        #[trigger] may_embed_from(*provider, passages, 0, none, out) by {
                        assert(may_embed(*provider, asked, outcome));
                        assert(may_embed_from(*provider, passages, from as int, done, out));
                    }
                    done = now;
                }
            },
        }
        from = to;
    }
    proof {
        assert(passages.take(from as int) =~= passages);
        let v = code_chunk_views(r@);
        assert(v.len() == r@.len());
        assert(may_embed_from(*provider, passages, from as int, done, Embedded::Done(done)));
        assert(may_embed_from(*provider, passages, 0, none, Embedded::Done(done)));
        lemma_code_cut(all[0], done, v, all, file_id);
        assert(r@.len() == r.len());
        assert(is_numbered_part(v, all));
        assert forall|i: int| 0 <= i < r@.len() implies may_give(
            *provider,
            (#[trigger] r@[i])@.content,
            r@[i]@.embedding,
        ) by {
            assert(v[i] == r@[i]@);
            assert(v[i].content == done[i].content);
        }
    }
    Ok(r)
}

} // verus!
