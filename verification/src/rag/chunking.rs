//! Cutting documents into chunks of words that overlap.

use vstd::prelude::*;
use vstd::string::StringExecFns;

use std::sync::atomic::AtomicBool;
use std::time::Instant;

use crate::documents::{
    ensure_active, may_go_on, may_stop, section_views, DocumentError, ParsedDocument,
    ParsedSection, SectionView,
};
use crate::models::{chunk_views, copy_opt_text, Chunk, ChunkView};
use crate::text::{
    blank, byte_len, bytes_of, contains, decimal, decimal_string, is_blank, is_word, join, joined,
    law_words_of_joined, lemma_join_contains, lemma_not_blank, occurs_at, pieces_of_words, views,
    words, CharClass,
};

verus! {

/// How a document is cut.
#[derive(Clone, Copy)]
pub struct ChunkLimits {
    /// The number of words of a chunk, at least two.
    pub target: usize,
    /// The number of words that a chunk repeats of the one before it, fewer than
    /// it has.
    pub overlap: usize,
    /// The number of bytes of the words of a chunk.
    pub max_bytes: usize,
    /// The number of chunks of a document.
    pub max_chunks: usize,
}

impl ChunkLimits {
    pub open spec fn wf(self) -> bool {
        self.target >= 2 && self.overlap < self.target
    }

    pub open spec fn spec_of(size: usize, overlap: usize, max_bytes: usize, max_chunks: usize) -> ChunkLimits {
        let target: usize = if size < 2 {
            2
        } else {
            size
        };
        ChunkLimits {
            target,
            overlap: if overlap < target - 1 {
                overlap
            } else {
                (target - 1) as usize
            },
            max_bytes,
            max_chunks,
        }
    }

    /// The limits for a wanted size and overlap.
    pub fn of(size: usize, overlap: usize, max_bytes: usize, max_chunks: usize) -> (r: ChunkLimits)
        ensures
            r == ChunkLimits::spec_of(size, overlap, max_bytes, max_chunks),
            r.wf(),
    {
        let target: usize = if size < 2 {
            2
        } else {
            size
        };
        ChunkLimits {
            target,
            overlap: if overlap < target - 1 {
                overlap
            } else {
                target - 1
            },
            max_bytes,
            max_chunks,
        }
    }
}

/// Why a document cannot be cut.
#[derive(Debug, PartialEq, Eq)]
pub enum ChunkError {
    /// A word is longer than a chunk may be: the limit.
    WordTooLong(usize),
    /// There are too many chunks: the limit.
    TooManyChunks(usize),
    /// The work was stopped.
    Stopped(DocumentError),
}

impl ChunkError {
    pub open spec fn spec_message(self) -> Seq<char> {
        match self {
            ChunkError::WordTooLong(limit) => "Una palabra excede el limite de "@ + decimal(
                limit as nat,
            ) + " bytes por fragmento."@,
            ChunkError::TooManyChunks(limit) => "El documento supera el limite de "@ + decimal(
                limit as nat,
            ) + " fragmentos."@,
            ChunkError::Stopped(e) => e.spec_message(),
        }
    }

    /// The error in words.
    pub fn message(&self) -> (r: String)
        ensures
            r@ == self.spec_message(),
    {
        match self {
            ChunkError::WordTooLong(limit) => {
                let mut r = "Una palabra excede el limite de ".to_owned();
                r.append(decimal_string(*limit as u128).as_str());
                r.append(" bytes por fragmento.");
                r
            },
            ChunkError::TooManyChunks(limit) => {
                let mut r = "El documento supera el limite de ".to_owned();
                r.append(decimal_string(*limit as u128).as_str());
                r.append(" fragmentos.");
                r
            },
            ChunkError::Stopped(e) => e.message(),
        }
    }
}

/// Chunks that are done, and the words of the one that is being made.
pub struct Cutting {
    pub done: Seq<ChunkView>,
    pub words: Seq<Seq<char>>,
}

/// What cutting comes to.
pub enum Cut {
    Going(Cutting),
    WordTooLong,
    TooManyChunks,
}

/// The bytes of words added up.
pub open spec fn word_bytes(w: Seq<Seq<char>>) -> nat
    decreases w.len(),
{
    if w.len() == 0 {
        0
    } else {
        word_bytes(w.drop_last()) + byte_len(w.last())
    }
}

/// The chunk of words of a section.
pub open spec fn word_chunk(w: Seq<Seq<char>>, section: SectionView, index: nat) -> ChunkView {
    ChunkView {
        id: 0,
        document_id: 0,
        document_name: seq![],
        chunk_index: index as usize,
        content: join(w, " "@),
        page_number: section.page_number,
        section: section.title,
        embedding: seq![],
    }
}

/// The last words, as many as chunks overlap.
pub open spec fn kept_words(w: Seq<Seq<char>>, overlap: nat) -> Seq<Seq<char>> {
    if w.len() <= overlap {
        w
    } else {
        w.skip(w.len() - overlap)
    }
}

/// Ending a chunk, where there may be one more.
pub open spec fn emitted(c: Cutting, section: SectionView, limits: ChunkLimits) -> Cut {
    if c.done.len() >= limits.max_chunks {
        Cut::TooManyChunks
    } else {
        Cut::Going(
            Cutting {
                done: if is_blank(join(c.words, " "@)) {
                    c.done
                } else {
                    c.done.push(word_chunk(c.words, section, c.done.len()))
                },
                words: kept_words(c.words, limits.overlap as nat),
            },
        )
    }
}

/// The word does not fit in the chunk that is being made.
pub open spec fn is_crowded(c: Cutting, word: Seq<char>, limits: ChunkLimits) -> bool {
    c.words.len() > 0 && word_bytes(c.words) + 1 + byte_len(word) > limits.max_bytes
}

/// Ending a chunk if the condition holds.
pub open spec fn emitted_if(b: bool, c: Cutting, section: SectionView, limits: ChunkLimits) -> Cut {
    if b {
        emitted(c, section, limits)
    } else {
        Cut::Going(c)
    }
}

/// Taking in the next word of a section: a chunk that is full or in which the word
/// does not fit is ended before, and one that the word fills is ended behind it.
pub open spec fn with_word(
    c: Cutting,
    word: Seq<char>,
    section: SectionView,
    limits: ChunkLimits,
) -> Cut {
    if byte_len(word) > limits.max_bytes {
        Cut::WordTooLong
    } else {
        match emitted_if(
            c.words.len() > 0 && c.words.len() >= limits.target || is_crowded(c, word, limits),
            c,
            section,
            limits,
        ) {
            Cut::Going(c1) => match emitted_if(
                is_crowded(c1, word, limits),
                c1,
                section,
                limits,
            ) {
                Cut::Going(c2) => {
                    let c3 = Cutting { words: c2.words.push(word), ..c2 };
                    emitted_if(c3.words.len() >= limits.target, c3, section, limits)
                },
                stopped => stopped,
            },
            stopped => stopped,
        }
    }
}

/// Taking in words of a section.
pub open spec fn with_words(
    c: Cutting,
    w: Seq<Seq<char>>,
    section: SectionView,
    limits: ChunkLimits,
) -> Cut
    decreases w.len(),
{
    if w.len() == 0 {
        Cut::Going(c)
    } else {
        match with_words(c, w.drop_last(), section, limits) {
            Cut::Going(c1) => with_word(c1, w.last(), section, limits),
            stopped => stopped,
        }
    }
}

/// Taking in a whole section; the words that are left over make a chunk.
pub open spec fn with_section(done: Seq<ChunkView>, section: SectionView, limits: ChunkLimits) -> Cut {
    match with_words(
        Cutting { done, words: seq![] },
        words(section.text, CharClass::White),
        section,
        limits,
    ) {
        Cut::Going(c) => emitted_if(c.words.len() > 0, c, section, limits),
        stopped => stopped,
    }
}

/// Cutting sections, one after the other.
pub open spec fn cut_sections(sections: Seq<SectionView>, limits: ChunkLimits) -> Cut
    decreases sections.len(),
{
    if sections.len() == 0 {
        Cut::Going(Cutting { done: seq![], words: seq![] })
    } else {
        match cut_sections(sections.drop_last(), limits) {
            Cut::Going(c) => with_section(c.done, sections.last(), limits),
            stopped => stopped,
        }
    }
}

proof fn lemma_words_stop(
    c: Cutting,
    w: Seq<Seq<char>>,
    section: SectionView,
    limits: ChunkLimits,
    n: int,
)
    requires
        0 <= n <= w.len(),
        !(with_words(c, w.take(n), section, limits) is Going),
    ensures
        with_words(c, w, section, limits) == with_words(c, w.take(n), section, limits),
    decreases w.len() - n,
{
    if n < w.len() {
        assert(w.take(n + 1).drop_last() =~= w.take(n));
        lemma_words_stop(c, w, section, limits, n + 1);
    } else {
        assert(w.take(n) =~= w);
    }
}

proof fn lemma_sections_stop(s: Seq<SectionView>, limits: ChunkLimits, n: int)
    requires
        0 <= n <= s.len(),
        !(cut_sections(s.take(n), limits) is Going),
    ensures
        cut_sections(s, limits) == cut_sections(s.take(n), limits),
    decreases s.len() - n,
{
    if n < s.len() {
        assert(s.take(n + 1).drop_last() =~= s.take(n));
        lemma_sections_stop(s, limits, n + 1);
    } else {
        assert(s.take(n) =~= s);
    }
}

/// The error is the one that cutting comes to.
pub open spec fn is_cut_error(cut: Cut, e: ChunkError, limits: ChunkLimits) -> bool {
    match cut {
        Cut::Going(_) => false,
        Cut::WordTooLong => e matches ChunkError::WordTooLong(n) && n == limits.max_bytes,
        Cut::TooManyChunks => e matches ChunkError::TooManyChunks(n) && n == limits.max_chunks,
    }
}

/// Chunks on their way.
pub struct Cutter {
    pub limits: ChunkLimits,
    pub done: Vec<Chunk>,
    pub words: Vec<String>,
}

impl View for Cutter {
    type V = Cutting;

    open spec fn view(&self) -> Cutting {
        Cutting { done: chunk_views(self.done@), words: views(self.words@) }
    }
}

fn sum_bytes(w: &Vec<String>) -> (r: u128)
    ensures
        r == word_bytes(views(w@)),
        r <= 0xffff_ffff_ffff_fffe_0000_0000_0000_0001,
{
    let ghost all = views(w@);
    let mut n: u128 = 0;
    let mut i: usize = 0;
    while i < w.len()
        invariant
            i <= w.len(),
            all == views(w@),
            n == word_bytes(all.take(i as int)),
            n <= i * usize::MAX,
        decreases w.len() - i,
    {
        assert(all.take(i + 1).drop_last() =~= all.take(i as int));
        assert(i * usize::MAX + usize::MAX == (i + 1) * usize::MAX) by (nonlinear_arith);
        assert((i + 1) * usize::MAX <= 0xffff_ffff_ffff_fffe_0000_0000_0000_0001) by (nonlinear_arith)
            requires
                0 <= i + 1 <= usize::MAX <= u64::MAX,
        ;
        n = n + bytes_of(w[i].as_str()) as u128;
        i += 1;
    }
    assert(all.take(i as int) =~= all);
    proof {
        assert(i * usize::MAX <= 0xffff_ffff_ffff_fffe_0000_0000_0000_0001) by (nonlinear_arith)
            requires
                0 <= i <= usize::MAX <= u64::MAX,
        ;
    }
    n
}

/// Keeps the last words, as many as chunks overlap.
pub fn retain_overlap(w: &mut Vec<String>, overlap: usize)
    ensures
        views(final(w)@) == kept_words(views(old(w)@), overlap as nat),
{
    let ghost before = views(w@);
    assert(before.len() == w@.len());
    if w.len() > overlap {
        let at = w.len() - overlap;
        let tail = w.split_off(at);
        assert(views(tail@) =~= before.skip(at as int));
        *w = tail;
    }
}

impl Cutter {
    /// Nothing cut yet.
    pub fn new(limits: ChunkLimits) -> (r: Cutter)
        ensures
            r.limits == limits,
            r@ == (Cutting { done: seq![], words: seq![] }),
    {
        let r = Cutter { limits, done: Vec::new(), words: Vec::new() };
        assert(r@.done =~= seq![]);
        assert(r@.words =~= seq![]);
        r
    }

    /// Ends a chunk.
    fn push_chunk(&mut self, section: &ParsedSection) -> (r: Result<(), ChunkError>)
        ensures
            final(self).limits == old(self).limits,
            match r {
                Ok(()) => emitted(old(self)@, section@, old(self).limits) == Cut::Going(
                    final(self)@,
                ),
                Err(e) => is_cut_error(
                    emitted(old(self)@, section@, old(self).limits),
                    e,
                    old(self).limits,
                ),
            },
    {
        let ghost before = self@;
        assert(before.done.len() == self.done@.len());
        if self.done.len() >= self.limits.max_chunks {
            return Err(ChunkError::TooManyChunks(self.limits.max_chunks));
        }
        let content = joined(&self.words, " ");
        if !blank(content.as_str()) {
            let chunk = Chunk {
                id: 0,
                document_id: 0,
                document_name: String::new(),
                chunk_index: self.done.len(),
                content,
                page_number: section.page_number,
                section: copy_opt_text(&section.title),
                embedding: Vec::new(),
            };
            assert(chunk@.embedding =~= seq![]);
            assert(chunk@ == word_chunk(before.words, section@, before.done.len()));
            self.done.push(chunk);
            assert(self@.done =~= before.done.push(chunk@));
        }
        let overlap = self.limits.overlap;
        retain_overlap(&mut self.words, overlap);
        Ok(())
    }

    fn crowded(&self, word: &str) -> (r: bool)
        ensures
            r == is_crowded(self@, word@, self.limits),
    {
        assert(self@.words.len() == self.words@.len());
        if self.words.len() == 0 {
            return false;
        }
        let sum = sum_bytes(&self.words);
        sum + 1 + bytes_of(word) as u128 > self.limits.max_bytes as u128
    }

    /// Takes in the next word of a section.
    pub fn take_word(&mut self, word: String, section: &ParsedSection) -> (r: Result<
        (),
        ChunkError,
    >)
        ensures
            final(self).limits == old(self).limits,
            match r {
                Ok(()) => with_word(old(self)@, word@, section@, old(self).limits) == Cut::Going(
                    final(self)@,
                ),
                Err(e) => is_cut_error(
                    with_word(old(self)@, word@, section@, old(self).limits),
                    e,
                    old(self).limits,
                ),
            },
    {
        if bytes_of(word.as_str()) > self.limits.max_bytes {
            return Err(ChunkError::WordTooLong(self.limits.max_bytes));
        }
        assert(self@.words.len() == self.words@.len());
        let full = self.words.len() > 0 && self.words.len() >= self.limits.target;
        if full || self.crowded(word.as_str()) {
            match self.push_chunk(section) {
                Err(e) => {
                    return Err(e);
                },
                Ok(()) => {},
            }
        }
        if self.crowded(word.as_str()) {
            match self.push_chunk(section) {
                Err(e) => {
                    return Err(e);
                },
                Ok(()) => {},
            }
        }
        let ghost before = self@;
        self.words.push(word);
        assert(self@.words =~= before.words.push(word@));
        assert(self@.words.len() == self.words@.len());
        if self.words.len() >= self.limits.target {
            return self.push_chunk(section);
        }
        Ok(())
    }

    /// Ends a section: the words that are left over make a chunk.
    pub fn end_section(&mut self, section: &ParsedSection) -> (r: Result<(), ChunkError>)
        ensures
            final(self).limits == old(self).limits,
            match r {
                Ok(()) => final(self)@.words.len() == 0 && (exists|c: Cutting|
                    emitted_if(
                        old(self)@.words.len() > 0,
                        old(self)@,
                        section@,
                        old(self).limits,
                    ) == Cut::Going(c) && #[trigger] c.done == final(self)@.done),
                Err(e) => is_cut_error(
                    emitted_if(
                        old(self)@.words.len() > 0,
                        old(self)@,
                        section@,
                        old(self).limits,
                    ),
                    e,
                    old(self).limits,
                ),
            },
    {
        assert(self@.words.len() == self.words@.len());
        if self.words.len() > 0 {
            match self.push_chunk(section) {
                Err(e) => {
                    return Err(e);
                },
                Ok(()) => {},
            }
        }
        let ghost c = self@;
        self.words = Vec::new();
        assert(c.done == self@.done);
        Ok(())
    }
}

proof fn lemma_words_of_prefix(sections: Seq<SectionView>, n: int)
    requires
        0 <= n <= sections.len(),
    ensures
        words_of_sections(sections.take(n)).len() <= words_of_sections(sections).len(),
    decreases sections.len(),
{
    if n < sections.len() {
        assert(sections.take(n) =~= sections.drop_last().take(n));
        lemma_words_of_prefix(sections.drop_last(), n);
    } else {
        assert(sections.take(n) =~= sections);
    }
}

/// Cuts a document into chunks, unless the work is stopped. The flag and the clock are
/// asked before every word.
pub fn chunk_document_limited(
    document: &ParsedDocument,
    size: usize,
    overlap: usize,
    max_chunk_bytes: usize,
    max_chunks: usize,
    cancelled: &AtomicBool,
    deadline: &Instant,
) -> (r: Result<Vec<Chunk>, ChunkError>)
    ensures
        ({
            let limits = ChunkLimits::spec_of(size, overlap, max_chunk_bytes, max_chunks);
            let cut = cut_sections(document@.sections, limits);
            match r {
                Ok(v) => cut matches Cut::Going(c) && c.done == chunk_views(v@),
                Err(ChunkError::Stopped(e)) => may_stop(cancelled, *deadline, e),
                Err(e) => is_cut_error(cut, e, limits),
            }
        }),
        words_of_sections(document@.sections).len() == 0 ==> r is Ok,
        words_of_sections(document@.sections).len() > 0 && !(r matches Err(
            ChunkError::Stopped(_),
        )) ==> may_go_on(cancelled, *deadline),
{
    let limits = ChunkLimits::of(size, overlap, max_chunk_bytes, max_chunks);
    let ghost all = document@.sections;
    let mut cutter = Cutter::new(limits);
    let mut i: usize = 0;
    assert(cut_sections(all.take(0), limits) == Cut::Going(cutter@));
    while i < document.sections.len()
        invariant
            i <= document.sections.len(),
            all == section_views(document.sections@),
            limits == ChunkLimits::spec_of(size, overlap, max_chunk_bytes, max_chunks),
            cutter.limits == limits,
            cutter@.words.len() == 0,
            cut_sections(all.take(i as int), limits) matches Cut::Going(c) && c.done
                == cutter@.done,
            words_of_sections(all.take(i as int)).len() > 0 ==> may_go_on(cancelled, *deadline),
        decreases document.sections.len() - i,
    {
        let section = &document.sections[i];
        let ghost before = cutter@;
        let ghost start = Cutting { done: before.done, words: seq![] };
        proof {
            assert(all.take(i + 1).drop_last() =~= all.take(i as int));
            assert(all.take(i + 1).last() == section@);
            assert(before.words =~= seq![]);
            assert(before == start);
            if !(cut_sections(all.take(i + 1), limits) is Going) {
                lemma_sections_stop(all, limits, i + 1);
            }
            lemma_words_of_prefix(all, i + 1);
        }
        let w = pieces_of_words(section.text.as_str(), CharClass::White);
        let ghost ws = words(section@.text, CharClass::White);
        let mut k: usize = 0;
        assert(with_words(start, ws.take(0), section@, limits) == Cut::Going(start));
        while k < w.len()
            invariant
                k <= w.len(),
                ws == views(w@),
                all == document@.sections,
                ws.len() <= words_of_sections(all).len(),
                k > 0 ==> may_go_on(cancelled, *deadline),
                limits == ChunkLimits::spec_of(size, overlap, max_chunk_bytes, max_chunks),
                cutter.limits == limits,
                with_words(start, ws.take(k as int), section@, limits) == Cut::Going(cutter@),
                !(with_words(start, ws, section@, limits) is Going) ==> cut_sections(all, limits)
                    == with_words(start, ws, section@, limits),
            decreases w.len() - k,
        {
            match ensure_active(cancelled, deadline) {
                Err(e) => {
                    return Err(ChunkError::Stopped(e));
                },
                Ok(()) => {},
            }
            proof {
                assert(ws.take(k + 1).drop_last() =~= ws.take(k as int));
                assert(ws.take(k + 1).last() == w@[k as int]@);
                if !(with_words(start, ws.take(k + 1), section@, limits) is Going) {
                    lemma_words_stop(start, ws, section@, limits, k + 1);
                }
            }
            let word = w[k].clone();
            match cutter.take_word(word, section) {
                Err(e) => {
                    return Err(e);
                },
                Ok(()) => {},
            }
            k += 1;
        }
        assert(ws.take(k as int) =~= ws);
        match cutter.end_section(section) {
            Err(e) => {
                return Err(e);
            },
            Ok(()) => {},
        }
        i += 1;
    }
    assert(all.take(i as int) =~= all);
    Ok(cutter.done)
}

/// Cuts a document into chunks without limits on their number and size; an empty
/// list where a limit of the machine is reached.
pub fn chunk_document(document: &ParsedDocument, size: usize, overlap: usize) -> (r: Vec<Chunk>)
    ensures
        chunk_views(r@) == match cut_sections(
            document@.sections,
            ChunkLimits::spec_of(size, overlap, usize::MAX, usize::MAX),
        ) {
            Cut::Going(c) => c.done,
            _ => seq![],
        },
{
    let limits = ChunkLimits::of(size, overlap, usize::MAX, usize::MAX);
    let ghost all = document@.sections;
    let mut cutter = Cutter::new(limits);
    let mut i: usize = 0;
    assert(cut_sections(all.take(0), limits) == Cut::Going(cutter@));
    while i < document.sections.len()
        invariant
            i <= document.sections.len(),
            all == section_views(document.sections@),
            all == document@.sections,
            limits == ChunkLimits::spec_of(size, overlap, usize::MAX, usize::MAX),
            cutter.limits == limits,
            cutter@.words.len() == 0,
            cut_sections(all.take(i as int), limits) matches Cut::Going(c) && c.done
                == cutter@.done,
        decreases document.sections.len() - i,
    {
        let section = &document.sections[i];
        let ghost before = cutter@;
        proof {
            assert(all.take(i + 1).drop_last() =~= all.take(i as int));
            assert(all.take(i + 1).last() == section@);
            if !(cut_sections(all.take(i + 1), limits) is Going) {
                lemma_sections_stop(all, limits, i + 1);
            }
        }
        match cutter.take_section(section) {
            Err(_) => {
                let none: Vec<Chunk> = Vec::new();
                assert(chunk_views(none@) =~= seq![]);
                return none;
            },
            Ok(()) => {},
        }
        i += 1;
    }
    assert(all.take(i as int) =~= all);
    cutter.done
}

impl Cutter {
    /// Takes in a whole section.
    pub fn take_section(&mut self, section: &ParsedSection) -> (r: Result<(), ChunkError>)
        requires
            old(self)@.words.len() == 0,
        ensures
            final(self).limits == old(self).limits,
            match r {
                Ok(()) => final(self)@.words.len() == 0 && (with_section(
                    old(self)@.done,
                    section@,
                    old(self).limits,
                ) matches Cut::Going(c) && c.done == final(self)@.done),
                Err(e) => is_cut_error(
                    with_section(old(self)@.done, section@, old(self).limits),
                    e,
                    old(self).limits,
                ),
            },
    {
        let ghost limits = self.limits;
        let ghost start = Cutting { done: self@.done, words: seq![] };
        assert(self@.words =~= seq![]);
        let w = pieces_of_words(section.text.as_str(), CharClass::White);
        let ghost ws = words(section@.text, CharClass::White);
        let mut k: usize = 0;
        assert(with_words(start, ws.take(0), section@, limits) == Cut::Going(start));
        while k < w.len()
            invariant
                k <= w.len(),
                ws == views(w@),
                ws == words(section@.text, CharClass::White),
                self.limits == limits,
                start.done == old(self)@.done,
                start.words == Seq::<Seq<char>>::empty(),
                limits == old(self).limits,
                with_words(start, ws.take(k as int), section@, limits) == Cut::Going(self@),
            decreases w.len() - k,
        {
            proof {
                assert(ws.take(k + 1).drop_last() =~= ws.take(k as int));
                assert(ws.take(k + 1).last() == w@[k as int]@);
                if !(with_words(start, ws.take(k + 1), section@, limits) is Going) {
                    lemma_words_stop(start, ws, section@, limits, k + 1);
                }
            }
            let word = w[k].clone();
            match self.take_word(word, section) {
                Err(e) => {
                    return Err(e);
                },
                Ok(()) => {},
            }
            k += 1;
        }
        assert(ws.take(k as int) =~= ws);
        self.end_section(section)
    }
}

// ------------------------------------------------------------------------- laws

/// The chunks are numbered in their order and no more than allowed.
pub open spec fn is_numbered(done: Seq<ChunkView>, max_chunks: nat) -> bool {
    done.len() <= max_chunks && forall|i: int|
        0 <= i < done.len() ==> (#[trigger] done[i]).chunk_index == i
}

/// Some chunk holds the word.
pub open spec fn is_placed(done: Seq<ChunkView>, w: Seq<char>) -> bool {
    exists|i: int| 0 <= i < done.len() && contains((#[trigger] done[i]).content, w)
}

/// The word is not lost: it is in a chunk, or among the words of the next one.
pub open spec fn is_carried(c: Cutting, w: Seq<char>) -> bool {
    c.words.contains(w) || is_placed(c.done, w)
}

proof fn lemma_placed_longer(a: Seq<ChunkView>, b: Seq<ChunkView>, w: Seq<char>)
    requires
        is_placed(a, w),
        a.is_prefix_of(b),
    ensures
        is_placed(b, w),
{
    let i = choose|i: int| 0 <= i < a.len() && contains((#[trigger] a[i]).content, w);
    assert(b[i] == a[i]) by {
        assert(b.subrange(0, a.len() as int)[i] == b[i]);
    }
}

proof fn lemma_emitted(c: Cutting, section: SectionView, limits: ChunkLimits)
    requires
        emitted(c, section, limits) is Going,
        limits.max_chunks <= usize::MAX,
    ensures
        emitted(c, section, limits) matches Cut::Going(n) && {
            &&& c.done.is_prefix_of(n.done)
            &&& is_numbered(c.done, limits.max_chunks as nat) ==> is_numbered(
                n.done,
                limits.max_chunks as nat,
            )
            &&& forall|w: Seq<char>|
                is_word(w, CharClass::White) && is_carried(c, w) ==> #[trigger] is_placed(n.done, w)
        },
{
    let n = emitted(c, section, limits)->Going_0;
    assert(c.done =~= n.done.subrange(0, c.done.len() as int));
    assert forall|w: Seq<char>| is_word(w, CharClass::White) && is_carried(
        c,
        w,
    ) implies #[trigger] is_placed(n.done, w) by {
        if c.words.contains(w) {
            let i = choose|i: int| 0 <= i < c.words.len() && c.words[i] == w;
            lemma_join_contains(c.words, " "@, i);
            let s = join(c.words, " "@);
            let at = choose|at: int| occurs_at(s, w, at);
            assert(s.subrange(at, at + w.len())[0] == s[at]);
            assert(!CharClass::White.has(w[0]));
            lemma_not_blank(s, at);
            assert(n.done[c.done.len() as int].content == s);
        } else {
            lemma_placed_longer(c.done, n.done, w);
        }
    }
}

proof fn lemma_with_word(c: Cutting, word: Seq<char>, section: SectionView, limits: ChunkLimits)
    requires
        with_word(c, word, section, limits) is Going,
    ensures
        with_word(c, word, section, limits) matches Cut::Going(n) && {
            &&& c.done.is_prefix_of(n.done)
            &&& is_numbered(c.done, limits.max_chunks as nat) ==> is_numbered(
                n.done,
                limits.max_chunks as nat,
            )
            &&& is_word(word, CharClass::White) ==> is_carried(n, word)
            &&& forall|w: Seq<char>|
                is_word(w, CharClass::White) && is_carried(c, w) ==> #[trigger] is_carried(n, w)
        },
{
    let n = with_word(c, word, section, limits)->Going_0;
    let b1 = c.words.len() > 0 && c.words.len() >= limits.target || is_crowded(c, word, limits);
    let c1 = emitted_if(b1, c, section, limits)->Going_0;
    if b1 {
        lemma_emitted(c, section, limits);
    } else {
        assert(c.done =~= c.done.subrange(0, c.done.len() as int));
    }
    let b2 = is_crowded(c1, word, limits);
    let c2 = emitted_if(b2, c1, section, limits)->Going_0;
    if b2 {
        lemma_emitted(c1, section, limits);
    } else {
        assert(c1.done =~= c1.done.subrange(0, c1.done.len() as int));
    }
    let c3 = Cutting { words: c2.words.push(word), ..c2 };
    assert(c3.words[c2.words.len() as int] == word);
    assert(c3.words.contains(word));
    let b3 = c3.words.len() >= limits.target;
    if b3 {
        lemma_emitted(c3, section, limits);
    } else {
        assert(c3.done =~= c3.done.subrange(0, c3.done.len() as int));
    }
    assert(c.done.is_prefix_of(n.done)) by {
        assert forall|i: int| 0 <= i < c.done.len() implies c.done[i] == n.done[i] by {
            assert(c1.done.subrange(0, c.done.len() as int)[i] == c1.done[i]);
            assert(c2.done.subrange(0, c1.done.len() as int)[i] == c2.done[i]);
            assert(n.done.subrange(0, c3.done.len() as int)[i] == n.done[i]);
        }
        assert(c.done =~= n.done.subrange(0, c.done.len() as int));
    }
    assert forall|w: Seq<char>| is_word(w, CharClass::White) && is_carried(
        c,
        w,
    ) implies #[trigger] is_carried(n, w) by {
        assert(is_carried(c1, w)) by {
            if b1 {
                assert(is_placed(c1.done, w));
            }
        }
        assert(is_carried(c2, w)) by {
            if b2 {
                assert(is_placed(c2.done, w));
            }
        }
        assert(is_carried(c3, w)) by {
            if c2.words.contains(w) {
                let i = choose|i: int| 0 <= i < c2.words.len() && c2.words[i] == w;
                assert(c3.words[i] == w);
            }
        }
        if b3 {
            assert(is_placed(n.done, w));
        }
    }
    if is_word(word, CharClass::White) {
        assert(is_carried(c3, word));
        if b3 {
            assert(is_placed(n.done, word));
        }
    }
}

proof fn lemma_with_words(
    c: Cutting,
    ws: Seq<Seq<char>>,
    section: SectionView,
    limits: ChunkLimits,
)
    requires
        with_words(c, ws, section, limits) is Going,
        forall|i: int| 0 <= i < ws.len() ==> is_word(#[trigger] ws[i], CharClass::White),
    ensures
        with_words(c, ws, section, limits) matches Cut::Going(n) && {
            &&& c.done.is_prefix_of(n.done)
            &&& is_numbered(c.done, limits.max_chunks as nat) ==> is_numbered(
                n.done,
                limits.max_chunks as nat,
            )
            &&& forall|i: int| 0 <= i < ws.len() ==> is_carried(n, #[trigger] ws[i])
        },
    decreases ws.len(),
{
    if ws.len() == 0 {
        assert(c.done =~= c.done.subrange(0, c.done.len() as int));
    } else {
        let p = ws.drop_last();
        let m = with_words(c, p, section, limits)->Going_0;
        assert forall|i: int| 0 <= i < p.len() implies is_word(#[trigger] p[i], CharClass::White) by {
            assert(p[i] == ws[i]);
        }
        lemma_with_words(c, p, section, limits);
        lemma_with_word(m, ws.last(), section, limits);
        let n = with_words(c, ws, section, limits)->Going_0;
        assert(c.done.is_prefix_of(n.done)) by {
            assert forall|i: int| 0 <= i < c.done.len() implies c.done[i] == n.done[i] by {
                assert(m.done.subrange(0, c.done.len() as int)[i] == m.done[i]);
                assert(n.done.subrange(0, m.done.len() as int)[i] == n.done[i]);
            }
            assert(c.done =~= n.done.subrange(0, c.done.len() as int));
        }
        assert forall|i: int| 0 <= i < ws.len() implies is_carried(n, #[trigger] ws[i]) by {
            if i < p.len() {
                assert(is_carried(m, p[i]));
                assert(is_word(p[i], CharClass::White));
            } else {
                assert(is_word(ws[i], CharClass::White));
            }
        }
    }
}

/// Every word of the section is in some chunk.
pub open spec fn is_section_placed(done: Seq<ChunkView>, section: SectionView) -> bool {
    forall|i: int|
        0 <= i < words(section.text, CharClass::White).len() ==> is_placed(
            done,
            #[trigger] words(section.text, CharClass::White)[i],
        )
}

proof fn lemma_with_section(done: Seq<ChunkView>, section: SectionView, limits: ChunkLimits)
    requires
        with_section(done, section, limits) is Going,
    ensures
        with_section(done, section, limits) matches Cut::Going(n) && {
            &&& done.is_prefix_of(n.done)
            &&& is_numbered(done, limits.max_chunks as nat) ==> is_numbered(
                n.done,
                limits.max_chunks as nat,
            )
            &&& is_section_placed(n.done, section)
        },
{
    let ws = words(section.text, CharClass::White);
    let start = Cutting { done, words: seq![] };
    crate::text::lemma_words(section.text, CharClass::White);
    lemma_with_words(start, ws, section, limits);
    let c = with_words(start, ws, section, limits)->Going_0;
    let n = with_section(done, section, limits)->Going_0;
    if c.words.len() > 0 {
        lemma_emitted(c, section, limits);
        assert(done.is_prefix_of(n.done)) by {
            assert forall|i: int| 0 <= i < done.len() implies done[i] == n.done[i] by {
                assert(c.done.subrange(0, done.len() as int)[i] == c.done[i]);
                assert(n.done.subrange(0, c.done.len() as int)[i] == n.done[i]);
            }
            assert(done =~= n.done.subrange(0, done.len() as int));
        }
    }
    assert forall|i: int| 0 <= i < ws.len() implies is_placed(n.done, #[trigger] ws[i]) by {
        assert(is_carried(c, ws[i]));
        assert(is_word(ws[i], CharClass::White));
        if c.words.len() == 0 {
            assert(!c.words.contains(ws[i]));
        }
    }
}

/// Where a document can be cut, its chunks are numbered in their order, are no more
/// than allowed, and no word of the document is lost.
pub proof fn law_no_word_is_lost(sections: Seq<SectionView>, limits: ChunkLimits)
    requires
        cut_sections(sections, limits) is Going,
    ensures
        cut_sections(sections, limits) matches Cut::Going(c) && {
            &&& is_numbered(c.done, limits.max_chunks as nat)
            &&& forall|i: int|
                0 <= i < sections.len() ==> is_section_placed(c.done, #[trigger] sections[i])
        },
    decreases sections.len(),
{
    if sections.len() > 0 {
        let p = sections.drop_last();
        law_no_word_is_lost(p, limits);
        let before = cut_sections(p, limits)->Going_0;
        lemma_with_section(before.done, sections.last(), limits);
        let n = cut_sections(sections, limits)->Going_0;
        assert forall|i: int| 0 <= i < sections.len() implies is_section_placed(
            n.done,
            #[trigger] sections[i],
        ) by {
            if i < p.len() {
                assert(is_section_placed(before.done, p[i]));
                let ws = words(sections[i].text, CharClass::White);
                assert forall|j: int| 0 <= j < ws.len() implies is_placed(
                    n.done,
                    #[trigger] ws[j],
                ) by {
                    lemma_placed_longer(before.done, n.done, ws[j]);
                }
            }
        }
    }
}

/// The words of chunks, one chunk after the other.
pub open spec fn words_of_chunks(done: Seq<ChunkView>) -> Seq<Seq<char>>
    decreases done.len(),
{
    if done.len() == 0 {
        seq![]
    } else {
        words_of_chunks(done.drop_last()) + words(done.last().content, CharClass::White)
    }
}

/// The words of sections, one section after the other.
pub open spec fn words_of_sections(sections: Seq<SectionView>) -> Seq<Seq<char>>
    decreases sections.len(),
{
    if sections.len() == 0 {
        seq![]
    } else {
        words_of_sections(sections.drop_last()) + words(sections.last().text, CharClass::White)
    }
}

/// The words that were taken in so far.
spec fn words_taken(c: Cutting) -> Seq<Seq<char>> {
    words_of_chunks(c.done) + c.words
}

spec fn are_plain(v: Seq<Seq<char>>) -> bool {
    forall|i: int| 0 <= i < v.len() ==> is_word(#[trigger] v[i], CharClass::White)
}

proof fn lemma_emitted_words(c: Cutting, section: SectionView, limits: ChunkLimits)
    requires
        emitted(c, section, limits) is Going,
        limits.overlap == 0,
        are_plain(c.words),
    ensures
        emitted(c, section, limits) matches Cut::Going(n) && {
            &&& n.words.len() == 0
            &&& words_of_chunks(n.done) == words_taken(c)
        },
{
    let n = emitted(c, section, limits)->Going_0;
    let s = join(c.words, " "@);
    reveal_strlit(" ");
    assert(" "@ =~= seq![' ']);
    assert(CharClass::White.has(' '));
    law_words_of_joined(c.words, ' ', CharClass::White);
    if c.words.len() == 0 {
        assert(s =~= seq![]);
        assert(is_blank(s));
        assert(words_taken(c) =~= words_of_chunks(c.done));
    } else {
        let w = c.words[0];
        assert(is_word(w, CharClass::White));
        lemma_join_contains(c.words, " "@, 0);
        let at = choose|at: int| occurs_at(s, w, at);
        assert(s.subrange(at, at + w.len())[0] == s[at]);
        assert(!CharClass::White.has(w[0]));
        lemma_not_blank(s, at);
        assert(n.done.drop_last() =~= c.done);
    }
}

proof fn lemma_word_taken(c: Cutting, word: Seq<char>, section: SectionView, limits: ChunkLimits)
    requires
        with_word(c, word, section, limits) is Going,
        limits.overlap == 0,
        are_plain(c.words),
        is_word(word, CharClass::White),
    ensures
        with_word(c, word, section, limits) matches Cut::Going(n) && are_plain(n.words)
            && words_taken(n) == words_taken(c).push(word),
{
    let b1 = c.words.len() > 0 && c.words.len() >= limits.target || is_crowded(c, word, limits);
    let c1 = emitted_if(b1, c, section, limits)->Going_0;
    if b1 {
        lemma_emitted_words(c, section, limits);
        assert(words_taken(c1) =~= words_taken(c));
    }
    let b2 = is_crowded(c1, word, limits);
    let c2 = emitted_if(b2, c1, section, limits)->Going_0;
    if b2 {
        lemma_emitted_words(c1, section, limits);
        assert(words_taken(c2) =~= words_taken(c1));
    }
    let c3 = Cutting { words: c2.words.push(word), ..c2 };
    assert(words_taken(c3) =~= words_taken(c2).push(word));
    if c3.words.len() >= limits.target {
        lemma_emitted_words(c3, section, limits);
        let n = with_word(c, word, section, limits)->Going_0;
        assert(words_taken(n) =~= words_taken(c3));
    }
}

proof fn lemma_words_taken(c: Cutting, ws: Seq<Seq<char>>, section: SectionView, limits: ChunkLimits)
    requires
        with_words(c, ws, section, limits) is Going,
        limits.overlap == 0,
        are_plain(c.words),
        are_plain(ws),
    ensures
        with_words(c, ws, section, limits) matches Cut::Going(n) && are_plain(n.words)
            && words_taken(n) == words_taken(c) + ws,
    decreases ws.len(),
{
    if ws.len() == 0 {
        assert(words_taken(c) + ws =~= words_taken(c));
    } else {
        let p = ws.drop_last();
        assert forall|i: int| 0 <= i < p.len() implies is_word(#[trigger] p[i], CharClass::White) by {
            assert(p[i] == ws[i]);
        }
        assert(is_word(ws[ws.len() - 1], CharClass::White));
        lemma_words_taken(c, p, section, limits);
        let m = with_words(c, p, section, limits)->Going_0;
        lemma_word_taken(m, ws.last(), section, limits);
        assert((words_taken(c) + p).push(ws.last()) =~= words_taken(c) + ws);
    }
}

/// Where chunks do not overlap, their words, one chunk after the other, are the words
/// of the document: none is lost, none stands twice, and their order stays.
pub proof fn law_words_stand_once(sections: Seq<SectionView>, limits: ChunkLimits)
    requires
        limits.overlap == 0,
        cut_sections(sections, limits) is Going,
    ensures
        cut_sections(sections, limits) matches Cut::Going(c) && words_of_chunks(c.done)
            == words_of_sections(sections),
    decreases sections.len(),
{
    if sections.len() > 0 {
        let p = sections.drop_last();
        let section = sections.last();
        law_words_stand_once(p, limits);
        let done = cut_sections(p, limits)->Going_0.done;
        let ws = words(section.text, CharClass::White);
        let start = Cutting { done, words: seq![] };
        crate::text::lemma_words(section.text, CharClass::White);
        lemma_words_taken(start, ws, section, limits);
        let c = with_words(start, ws, section, limits)->Going_0;
        assert(words_taken(start) =~= words_of_chunks(done));
        if c.words.len() > 0 {
            lemma_emitted_words(c, section, limits);
        } else {
            assert(words_taken(c) =~= words_of_chunks(c.done));
        }
    }
}

// ------------------------------------------------------- chunks are runs of words

/// Where a chunk begins and where it ends, in words of its section.
pub struct Run {
    pub from: int,
    pub to: int,
}

/// The chunks are these runs of the words of a section: one word after the other with a
/// blank between, under the page and the title of the section and numbered from `first`
/// on. The first begins with the section; each of the others repeats the last words of the
/// one before it, as many as wanted or all; none has more words than wanted.
pub open spec fn are_runs(
    chunks: Seq<ChunkView>,
    runs: Seq<Run>,
    section: SectionView,
    limits: ChunkLimits,
    first: nat,
) -> bool {
    let ws = words(section.text, CharClass::White);
    &&& runs.len() == chunks.len()
    &&& forall|i: int|
        0 <= i < runs.len() ==> {
            let r = #[trigger] runs[i];
            let c = chunks[i];
            &&& 0 <= r.from < r.to <= ws.len()
            &&& r.to - r.from <= limits.target
            &&& c.content == join(ws.subrange(r.from, r.to), " "@)
            &&& c.page_number == section.page_number
            &&& c.section == section.title
            &&& c.chunk_index == (first + i) as usize
            &&& c.embedding.len() == 0
        }
    &&& runs.len() > 0 ==> runs[0].from == 0
    &&& forall|i: int, j: int|
        0 <= i < runs.len() - 1 && j == i + 1 ==> {
            let r = #[trigger] runs[i];
            let n = #[trigger] runs[j];
            n.to >= r.to && n.from == next_from(r, limits)
        }
}

/// Where the run behind another begins.
pub open spec fn next_from(r: Run, limits: ChunkLimits) -> int {
    if r.to - limits.overlap > r.from {
        r.to - limits.overlap
    } else {
        r.from
    }
}

/// Where the next run begins.
spec fn due_from(runs: Seq<Run>, limits: ChunkLimits) -> int {
    if runs.len() == 0 {
        0
    } else {
        next_from(runs.last(), limits)
    }
}

spec fn is_on_the_way(
    c: Cutting,
    base: Seq<ChunkView>,
    runs: Seq<Run>,
    section: SectionView,
    limits: ChunkLimits,
    k: int,
) -> bool {
    let ws = words(section.text, CharClass::White);
    &&& 0 <= k <= ws.len()
    &&& base.len() <= c.done.len()
    &&& c.done.take(base.len() as int) == base
    &&& are_runs(c.done.skip(base.len() as int), runs, section, limits, base.len())
    &&& runs.len() > 0 ==> runs.last().to <= k
    &&& 0 <= due_from(runs, limits) <= k
    &&& c.words == ws.subrange(due_from(runs, limits), k)
    &&& c.words.len() <= limits.target
}

proof fn lemma_emitted_run(
    c: Cutting,
    base: Seq<ChunkView>,
    runs: Seq<Run>,
    section: SectionView,
    limits: ChunkLimits,
    k: int,
) -> (more: Seq<Run>)
    requires
        limits.wf(),
        is_on_the_way(c, base, runs, section, limits, k),
        c.words.len() > 0,
        emitted(c, section, limits) is Going,
    ensures
        is_on_the_way(emitted(c, section, limits)->Going_0, base, more, section, limits, k),
        more.len() > 0,
        more.last().to == k,
        emitted(c, section, limits)->Going_0.words.len() < limits.target,
{
    let ws = words(section.text, CharClass::White);
    let n = emitted(c, section, limits)->Going_0;
    let from = due_from(runs, limits);
    let more = runs.push(Run { from, to: k });
    let s = join(c.words, " "@);
    crate::text::lemma_words(section.text, CharClass::White);
    let w = c.words[0];
    assert(w == ws[from]);
    assert(is_word(w, CharClass::White));
    lemma_join_contains(c.words, " "@, 0);
    let at = choose|at: int| occurs_at(s, w, at);
    assert(s.subrange(at, at + w.len())[0] == s[at]);
    assert(!CharClass::White.has(w[0]));
    lemma_not_blank(s, at);
    let b = base.len() as int;
    let chunk = word_chunk(c.words, section, c.done.len());
    assert(n.done == c.done.push(chunk));
    assert(n.done.take(b) =~= base);
    let before = c.done.skip(b);
    assert(n.done.skip(b) =~= before.push(chunk));
    assert forall|i: int| 0 <= i < more.len() implies {
        let r = #[trigger] more[i];
        let x = n.done.skip(b)[i];
        &&& 0 <= r.from < r.to <= ws.len()
        &&& r.to - r.from <= limits.target
        &&& x.content == join(ws.subrange(r.from, r.to), " "@)
        &&& x.page_number == section.page_number
        &&& x.section == section.title
        &&& x.chunk_index == (base.len() + i) as usize
        &&& x.embedding.len() == 0
    } by {
        if i < runs.len() {
            assert(more[i] == runs[i]);
            assert(n.done.skip(b)[i] == before[i]);
        }
    }
    assert forall|i: int, j: int| 0 <= i < more.len() - 1 && j == i + 1 implies {
        let r = #[trigger] more[i];
        let x = #[trigger] more[j];
        x.to >= r.to && x.from == next_from(r, limits)
    } by {
        assert(more[i] == runs[i]);
        if j < runs.len() {
            assert(more[j] == runs[j]);
        }
    }
    let kept = kept_words(c.words, limits.overlap as nat);
    assert(kept =~= ws.subrange(due_from(more, limits), k));
    more
}

proof fn lemma_word_run(
    c: Cutting,
    base: Seq<ChunkView>,
    runs: Seq<Run>,
    section: SectionView,
    limits: ChunkLimits,
    k: int,
) -> (more: Seq<Run>)
    requires
        limits.wf(),
        is_on_the_way(c, base, runs, section, limits, k),
        k < words(section.text, CharClass::White).len(),
        with_word(c, words(section.text, CharClass::White)[k], section, limits) is Going,
    ensures
        is_on_the_way(
            with_word(c, words(section.text, CharClass::White)[k], section, limits)->Going_0,
            base,
            more,
            section,
            limits,
            k + 1,
        ),
        more.len() == 0 ==> with_word(
            c,
            words(section.text, CharClass::White)[k],
            section,
            limits,
        )->Going_0.words.len() > 0,
{
    let ws = words(section.text, CharClass::White);
    let word = ws[k];
    let b1 = c.words.len() > 0 && c.words.len() >= limits.target || is_crowded(c, word, limits);
    let c1 = emitted_if(b1, c, section, limits)->Going_0;
    let r1 = if b1 {
        lemma_emitted_run(c, base, runs, section, limits, k)
    } else {
        runs
    };
    let b2 = is_crowded(c1, word, limits);
    let c2 = emitted_if(b2, c1, section, limits)->Going_0;
    let r2 = if b2 {
        lemma_emitted_run(c1, base, r1, section, limits, k)
    } else {
        r1
    };
    let c3 = Cutting { words: c2.words.push(word), ..c2 };
    assert(c3.words =~= ws.subrange(due_from(r2, limits), k + 1));
    assert(is_on_the_way(c3, base, r2, section, limits, k + 1));
    if c3.words.len() >= limits.target {
        lemma_emitted_run(c3, base, r2, section, limits, k + 1)
    } else {
        r2
    }
}

proof fn lemma_words_run(
    base: Seq<ChunkView>,
    section: SectionView,
    limits: ChunkLimits,
    k: int,
) -> (runs: Seq<Run>)
    requires
        limits.wf(),
        0 <= k <= words(section.text, CharClass::White).len(),
        with_words(
            Cutting { done: base, words: seq![] },
            words(section.text, CharClass::White).take(k),
            section,
            limits,
        ) is Going,
    ensures
        is_on_the_way(
            with_words(
                Cutting { done: base, words: seq![] },
                words(section.text, CharClass::White).take(k),
                section,
                limits,
            )->Going_0,
            base,
            runs,
            section,
            limits,
            k,
        ),
        k > 0 && runs.len() == 0 ==> with_words(
            Cutting { done: base, words: seq![] },
            words(section.text, CharClass::White).take(k),
            section,
            limits,
        )->Going_0.words.len() > 0,
    decreases k,
{
    let ws = words(section.text, CharClass::White);
    let start = Cutting { done: base, words: seq![] };
    if k == 0 {
        let none = Seq::<Run>::empty();
        assert(ws.take(0) =~= Seq::<Seq<char>>::empty());
        assert(base.take(base.len() as int) =~= base);
        assert(base.skip(base.len() as int) =~= Seq::<ChunkView>::empty());
        assert(ws.subrange(0, 0) =~= Seq::<Seq<char>>::empty());
        none
    } else {
        assert(ws.take(k).drop_last() =~= ws.take(k - 1));
        assert(ws.take(k).last() == ws[k - 1]);
        let before = with_words(start, ws.take(k - 1), section, limits)->Going_0;
        let runs = lemma_words_run(base, section, limits, k - 1);
        lemma_word_run(before, base, runs, section, limits, k - 1)
    }
}

/// The chunks of a section: runs of its words that together have all of them.
pub open spec fn is_cut_section(
    chunks: Seq<ChunkView>,
    section: SectionView,
    limits: ChunkLimits,
    first: nat,
) -> bool {
    let ws = words(section.text, CharClass::White);
    exists|runs: Seq<Run>|
        {
            &&& #[trigger] are_runs(chunks, runs, section, limits, first)
            &&& ws.len() == 0 <==> runs.len() == 0
            &&& runs.len() > 0 ==> runs.last().to == ws.len()
        }
}

proof fn lemma_section_run(done: Seq<ChunkView>, section: SectionView, limits: ChunkLimits)
    requires
        limits.wf(),
        with_section(done, section, limits) is Going,
    ensures
        with_section(done, section, limits) matches Cut::Going(n) && {
            &&& done.len() <= n.done.len()
            &&& n.done.take(done.len() as int) == done
            &&& is_cut_section(n.done.skip(done.len() as int), section, limits, done.len())
        },
{
    let ws = words(section.text, CharClass::White);
    let start = Cutting { done, words: seq![] };
    assert(ws.take(ws.len() as int) =~= ws);
    let c = with_words(start, ws, section, limits)->Going_0;
    let runs = lemma_words_run(done, section, limits, ws.len() as int);
    let n = with_section(done, section, limits)->Going_0;
    let b = done.len() as int;
    if c.words.len() > 0 {
        let more = lemma_emitted_run(c, done, runs, section, limits, ws.len() as int);
        assert(are_runs(n.done.skip(b), more, section, limits, done.len()));
    } else {
        if runs.len() > 0 {
            assert(runs[runs.len() - 1].from < runs[runs.len() - 1].to);
            assert(due_from(runs, limits) == ws.len());
            assert(runs.last().to == ws.len());
        }
        assert(are_runs(n.done.skip(b), runs, section, limits, done.len()));
    }
}

/// The chunks of several sections, one section after the other.
pub open spec fn chunks_together(cuts: Seq<Seq<ChunkView>>) -> Seq<ChunkView>
    decreases cuts.len(),
{
    if cuts.len() == 0 {
        seq![]
    } else {
        chunks_together(cuts.drop_last()) + cuts.last()
    }
}

/// The chunks of a document are those of its sections, one section after the other: each
/// chunk is a run of words of its section, the runs of a section have all of its words, and
/// each but the first repeats the end of the one before it.
pub open spec fn is_cut_document(
    chunks: Seq<ChunkView>,
    sections: Seq<SectionView>,
    limits: ChunkLimits,
) -> bool {
    exists|cuts: Seq<Seq<ChunkView>>|
        {
            &&& chunks == #[trigger] chunks_together(cuts)
            &&& cuts.len() == sections.len()
            &&& forall|i: int|
                0 <= i < cuts.len() ==> is_cut_section(
                    #[trigger] cuts[i],
                    sections[i],
                    limits,
                    chunks_together(cuts.take(i)).len(),
                )
        }
}

/// Where a document can be cut, its chunks are runs of the words of its sections, in their
/// order and with the overlap that is wanted; no chunk mixes sections.
pub proof fn law_chunks_are_runs_of_words(sections: Seq<SectionView>, limits: ChunkLimits)
    requires
        limits.wf(),
        cut_sections(sections, limits) is Going,
    ensures
        cut_sections(sections, limits) matches Cut::Going(c) && is_cut_document(
            c.done,
            sections,
            limits,
        ),
    decreases sections.len(),
{
    if sections.len() == 0 {
        let none = Seq::<Seq<ChunkView>>::empty();
        assert(chunks_together(none) =~= Seq::<ChunkView>::empty());
    } else {
        let p = sections.drop_last();
        law_chunks_are_runs_of_words(p, limits);
        let done = cut_sections(p, limits)->Going_0.done;
        let cuts = choose|cuts: Seq<Seq<ChunkView>>|
            {
                &&& done == #[trigger] chunks_together(cuts)
                &&& cuts.len() == p.len()
                &&& forall|i: int|
                    0 <= i < cuts.len() ==> is_cut_section(
                        #[trigger] cuts[i],
                        p[i],
                        limits,
                        chunks_together(cuts.take(i)).len(),
                    )
            };
        lemma_section_run(done, sections.last(), limits);
        let n = cut_sections(sections, limits)->Going_0.done;
        let added = n.skip(done.len() as int);
        let more = cuts.push(added);
        assert(more.drop_last() =~= cuts);
        assert(n =~= done + added) by {
            assert(n =~= n.take(done.len() as int) + added);
        }
        assert forall|i: int| 0 <= i < more.len() implies is_cut_section(
            #[trigger] more[i],
            sections[i],
            limits,
            chunks_together(more.take(i)).len(),
        ) by {
            if i < cuts.len() {
                assert(more[i] == cuts[i]);
                assert(sections[i] == p[i]);
                assert(more.take(i) =~= cuts.take(i));
            } else {
                assert(more.take(i) =~= cuts);
            }
        }
        assert(n == chunks_together(more));
    }
}

} // verus!
