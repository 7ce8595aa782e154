//! Which passages of which documents answer a question.

use vstd::prelude::*;

use crate::models::{chunk_views, is_relevant, total_order, Chunk, ChunkView, Score, ScoreView};
use crate::order::{
    by_pair, by_text, indices, is_best, lemma_best, lemma_filter_twice, order_pairs, order_texts,
    picked, stable_order,
};
use crate::text::{
    all_lowercase, as_number, before_last, byte_len, bytes_of, char_count, chars,
    contains, contains_any, distinct, has, has_any, head_before_last, alphabetic_char, is_among,
    numeric_char, uppercase_char, join, joined, lowercase, only_digits, parse_number, pieces,
    pieces_of_words, same, same_ignoring_ascii_case, split, str_views, to_all_lowercase, views,
    without_repeats, words, ascii_lower, CharClass,
};

verus! {

/// A chunk with its relevance for a question.
#[derive(Debug, PartialEq, Eq)]
pub struct ScoredChunk {
    pub chunk: Chunk,
    pub score: Score,
}

/// What a `ScoredChunk` holds.
pub struct ScoredChunkView {
    pub chunk: ChunkView,
    pub score: ScoreView,
}

impl View for ScoredChunk {
    type V = ScoredChunkView;

    open spec fn view(&self) -> ScoredChunkView {
        ScoredChunkView { chunk: self.chunk@, score: self.score@ }
    }
}

impl Clone for ScoredChunk {
    fn clone(&self) -> (r: ScoredChunk)
        ensures
            r@ == self@,
    {
        ScoredChunk { chunk: self.chunk.clone(), score: self.score.clone() }
    }
}

/// The views of a list of scored chunks.
pub open spec fn scored_views(v: Seq<ScoredChunk>) -> Seq<ScoredChunkView> {
    v.map_values(|c: ScoredChunk| c@)
}

/// The views of a list of scores.
pub open spec fn score_views(v: Seq<Score>) -> Seq<ScoreView> {
    v.map_values(|s: Score| s@)
}

/// The views of a list of documents, each an identifier and a name.
pub open spec fn document_views(v: Seq<(i64, String)>) -> Seq<(i64, Seq<char>)> {
    v.map_values(|d: (i64, String)| (d.0, d.1@))
}

/// A document with the passages that stand for it.
#[derive(Debug, PartialEq, Eq)]
pub struct DocumentOverviewInput {
    pub document_id: i64,
    pub filename: String,
    pub representative_chunks: Vec<ScoredChunk>,
}

/// What a `DocumentOverviewInput` holds.
pub struct OverviewView {
    pub document_id: i64,
    pub filename: Seq<char>,
    pub chunks: Seq<ScoredChunkView>,
}

impl View for DocumentOverviewInput {
    type V = OverviewView;

    open spec fn view(&self) -> OverviewView {
        OverviewView {
            document_id: self.document_id,
            filename: self.filename@,
            chunks: scored_views(self.representative_chunks@),
        }
    }
}

/// The views of a list of overviews.
pub open spec fn overview_views(v: Seq<DocumentOverviewInput>) -> Seq<OverviewView> {
    v.map_values(|d: DocumentOverviewInput| d@)
}

// ------------------------------------------------------------ words of a text

/// The words of a text in lower case, with one blank between them.
pub open spec fn phrase(s: Seq<char>) -> Seq<char> {
    join(all_lowercase(words(s, CharClass::NonAlphanumeric)), " "@)
}

/// The words of a text in lower case, with one blank between them.
pub fn normalize_phrase(s: &str) -> (r: String)
    ensures
        r@ == phrase(s@),
{
    let w = pieces_of_words(s, CharClass::NonAlphanumeric);
    let l = to_all_lowercase(&w);
    joined(&l, " ")
}

/// The words of a text in lower case that have three characters or more.
pub open spec fn long_words(s: Seq<char>) -> Seq<Seq<char>> {
    all_lowercase(split(s, CharClass::NonAlphanumeric)).filter(|w: Seq<char>| w.len() >= 3)
}

/// The words of a text in lower case that have three characters or more.
pub fn terms(s: &str) -> (r: Vec<String>)
    ensures
        views(r@) == long_words(s@),
{
    let p = pieces(s, CharClass::NonAlphanumeric);
    let v = to_all_lowercase(&p);
    let mut r: Vec<String> = Vec::new();
    let mut i: usize = 0;
    let ghost keep = |w: Seq<char>| w.len() >= 3;
    while i < v.len()
        invariant
            i <= v.len(),
            keep == (|w: Seq<char>| w.len() >= 3),
            views(r@) == views(v@).take(i as int).filter(keep),
        decreases v.len() - i,
    {
        proof {
            assert(views(v@).take(i + 1).drop_last() =~= views(v@).take(i as int));
            reveal_with_fuel(Seq::filter, 2);
        }
        if char_count(v[i].as_str()) >= 3 {
            let ghost before = views(r@);
            r.push(v[i].clone());
            assert(views(r@) =~= before.push(v@[i as int]@));
        }
        i += 1;
    }
    assert(views(v@).take(i as int) =~= views(v@));
    r
}

/// The words that a normalized phrase consists of.
pub open spec fn phrase_words(s: Seq<char>) -> Seq<Seq<char>> {
    words(phrase(s), CharClass::White)
}

/// The words that the normalized phrase of a text consists of.
pub fn words_of_phrase(s: &str) -> (r: Vec<String>)
    ensures
        views(r@) == phrase_words(s@),
{
    let p = normalize_phrase(s);
    pieces_of_words(p.as_str(), CharClass::White)
}

/// How many of the query's words are words of the document's name.
pub open spec fn name_match_count(name: Seq<char>, query_terms: Seq<Seq<char>>) -> nat {
    query_terms.filter(|t: Seq<char>| long_words(name).contains(t)).len()
}

/// How many of the query's words are words of the document's name.
pub fn name_matches(name: &str, query_terms: &Vec<String>) -> (r: usize)
    ensures
        r == name_match_count(name@, views(query_terms@)),
{
    let own = terms(name);
    count_among(query_terms, &own, Ghost(long_words(name@)))
}

/// How many texts of `list` are among `own`.
fn count_among(list: &Vec<String>, own: &Vec<String>, among: Ghost<Seq<Seq<char>>>) -> (r: usize)
    requires
        views(own@) == among@,
    ensures
        r == views(list@).filter(|t: Seq<char>| among@.contains(t)).len(),
{
    let mut n: usize = 0;
    let mut i: usize = 0;
    let ghost keep = |t: Seq<char>| among@.contains(t);
    while i < list.len()
        invariant
            views(own@) == among@,
            n <= i <= list.len(),
            keep == (|t: Seq<char>| among@.contains(t)),
            n == views(list@).take(i as int).filter(keep).len(),
        decreases list.len() - i,
    {
        proof {
            assert(views(list@).take(i + 1).drop_last() =~= views(list@).take(i as int));
            reveal_with_fuel(Seq::filter, 2);
        }
        if is_among(list[i].as_str(), own) {
            n += 1;
        }
        i += 1;
    }
    assert(views(list@).take(i as int) =~= views(list@));
    n
}

// ------------------------------------------------------------- literal search

/// The normalized question asks whether any document holds something.
pub open spec fn asks_globally(normalized: Seq<char>) -> bool {
    let w = words(normalized, CharClass::White);
    &&& w.contains("alguno"@) || w.contains("alguna"@) || w.contains("ninguno"@) || w.contains(
        "ninguna"@,
    )
    &&& contains(normalized, "documento"@) || contains(normalized, "archivo"@)
}

/// Whether the normalized question asks if any document holds something.
pub fn is_global_question(normalized: &str) -> (r: bool)
    ensures
        r == asks_globally(normalized@),
{
    let w = pieces_of_words(normalized, CharClass::White);
    (is_among("alguno", &w) || is_among("alguna", &w) || is_among("ninguno", &w) || is_among(
        "ninguna",
        &w,
    )) && (has(normalized, "documento") || has(normalized, "archivo"))
}

/// The word is to be searched for as it stands: an address, a number of four
/// bytes or more, or a word without small letters.
pub open spec fn is_literal(w: Seq<char>) -> bool {
    &&& byte_len(w) >= 2
    &&& {
        ||| w.contains('@')
        ||| byte_len(w) >= 4 && forall|i: int| 0 <= i < w.len() ==> numeric_char(#[trigger] w[i])
        ||| forall|i: int|
            0 <= i < w.len() && alphabetic_char(#[trigger] w[i]) ==> uppercase_char(w[i])
    }
}

/// Whether the word is to be searched for as it stands.
pub fn is_literal_word(w: &str) -> (r: bool)
    ensures
        r == is_literal(w@),
{
    let bytes = bytes_of(w);
    if bytes < 2 {
        return false;
    }
    let c = chars(w);
    let mut at: bool = false;
    let mut numeric: bool = true;
    let mut upper: bool = true;
    let mut i: usize = 0;
    while i < c.len()
        invariant
            c@ == w@,
            i <= c.len(),
            at <==> exists|j: int| 0 <= j < i && w@[j] == '@',
            numeric <==> forall|j: int| 0 <= j < i ==> numeric_char(#[trigger] w@[j]),
            upper <==> forall|j: int|
                0 <= j < i && alphabetic_char(#[trigger] w@[j]) ==> uppercase_char(w@[j]),
        decreases c.len() - i,
    {
        if c[i] == '@' {
            at = true;
        }
        if !c[i].is_numeric() {
            numeric = false;
        }
        if c[i].is_alphabetic() && !c[i].is_uppercase() {
            upper = false;
        }
        assert(w@[i as int] == c@[i as int]);
        i += 1;
    }
    at || (bytes >= 4 && numeric) || upper
}

/// The texts without those that repeat the one before them, ASCII case aside.
pub open spec fn without_adjacent_repeats(v: Seq<Seq<char>>) -> Seq<Seq<char>>
    decreases v.len(),
{
    if v.len() == 0 {
        v
    } else {
        let d = without_adjacent_repeats(v.drop_last());
        if d.len() > 0 && ascii_lower(d.last()) == ascii_lower(v.last()) {
            d
        } else {
            d.push(v.last())
        }
    }
}

/// The words of a question that are to be searched for as they stand, in
/// dictionary order of their lower-case forms and without repetitions.
pub open spec fn literal_words(query: Seq<char>) -> Seq<Seq<char>> {
    let w = split(query, CharClass::NonAlphanumericBut('@')).filter(|w: Seq<char>| is_literal(w));
    without_adjacent_repeats(picked(w, stable_order(all_lowercase(w), by_text())))
}

/// The words of a question that are to be searched for as they stand.
pub fn literal_terms(query: &str) -> (r: Vec<String>)
    ensures
        views(r@) == literal_words(query@),
{
    let p = pieces(query, CharClass::NonAlphanumericBut('@'));
    let mut w: Vec<String> = Vec::new();
    let mut i: usize = 0;
    let ghost keep = |w: Seq<char>| is_literal(w);
    while i < p.len()
        invariant
            i <= p.len(),
            keep == (|w: Seq<char>| is_literal(w)),
            views(w@) == views(p@).take(i as int).filter(keep),
        decreases p.len() - i,
    {
        proof {
            assert(views(p@).take(i + 1).drop_last() =~= views(p@).take(i as int));
            reveal_with_fuel(Seq::filter, 2);
        }
        if is_literal_word(p[i].as_str()) {
            let ghost before = views(w@);
            w.push(p[i].clone());
            assert(views(w@) =~= before.push(p@[i as int]@));
        }
        i += 1;
    }
    assert(views(p@).take(i as int) =~= views(p@));
    let keys = to_all_lowercase(&w);
    let order = order_texts(&keys);
    let ghost sorted = picked(views(w@), indices(order@));
    let mut r: Vec<String> = Vec::new();
    let mut j: usize = 0;
    assert(views(r@) =~= without_adjacent_repeats(sorted.take(0)));
    assert(views(keys@).len() == views(w@).len());
    while j < order.len()
        invariant
            j <= order.len(),
            order.len() == w.len(),
            sorted == picked(views(w@), indices(order@)),
            forall|k: int| 0 <= k < order.len() ==> 0 <= #[trigger] indices(order@)[k] < w.len(),
            views(r@) == without_adjacent_repeats(sorted.take(j as int)),
        decreases order.len() - j,
    {
        assert(0 <= indices(order@)[j as int] < w.len());
        let next = w[order[j]].clone();
        assert(sorted.take(j + 1).drop_last() =~= sorted.take(j as int));
        assert(sorted.take(j + 1).last() == next@);
        let repeats = if r.len() > 0 {
            assert(views(r@).last() == r@[r.len() - 1]@);
            same_ignoring_ascii_case(r[r.len() - 1].as_str(), next.as_str())
        } else {
            false
        };
        if !repeats {
            let ghost before = views(r@);
            r.push(next);
            assert(views(r@) =~= before.push(next@));
        }
        j += 1;
    }
    assert(sorted.take(j as int) =~= sorted);
    r
}

/// The words that a question about any of the documents wants literally; none
/// where the question is not of that kind.
pub fn global_literal_terms(query: &str) -> (r: Vec<String>)
    ensures
        views(r@) == if asks_globally(phrase(query@)) {
            literal_words(query@)
        } else {
            seq![]
        },
{
    let normalized = normalize_phrase(query);
    if is_global_question(normalized.as_str()) {
        literal_terms(query)
    } else {
        let r: Vec<String> = Vec::new();
        assert(views(r@) =~= seq![]);
        r
    }
}

/// The content holds one of the terms, letter case aside.
pub open spec fn mentions_term(content: Seq<char>, terms: Seq<Seq<char>>) -> bool {
    contains_any(lowercase(content), all_lowercase(terms))
}

/// Whether the content holds one of the lower-case terms.
pub fn holds_term(lower_content: &str, lower_terms: &Vec<String>) -> (r: bool)
    ensures
        r == contains_any(lower_content@, views(lower_terms@)),
{
    let mut i: usize = 0;
    while i < lower_terms.len()
        invariant
            i <= lower_terms.len(),
            forall|k: int|
                0 <= k < i ==> !contains(lower_content@, #[trigger] views(lower_terms@)[k]),
        decreases lower_terms.len() - i,
    {
        if has(lower_content, lower_terms[i].as_str()) {
            assert(contains(lower_content@, views(lower_terms@)[i as int]));
            return true;
        }
        i += 1;
    }
    false
}

/// The chunk with the score of a literal match.
pub open spec fn literal_match(c: ChunkView) -> ScoredChunkView {
    ScoredChunkView { chunk: c, score: ScoreView::one() }
}

/// The chunks that hold one of the terms, in their order, each with the score of
/// a literal match.
pub fn lexical_matches(chunks: Vec<Chunk>, terms: &Vec<String>) -> (r: Vec<ScoredChunk>)
    ensures
        scored_views(r@) == chunk_views(chunks@).filter(
            |c: ChunkView| mentions_term(c.content, views(terms@)),
        ).map_values(|c: ChunkView| literal_match(c)),
{
    let lower = to_all_lowercase(terms);
    let ghost keep = |c: ChunkView| mentions_term(c.content, views(terms@));
    let ghost mark = |c: ChunkView| literal_match(c);
    let ghost all = chunk_views(chunks@);
    let mut r: Vec<ScoredChunk> = Vec::new();
    let mut i: usize = 0;
    assert(scored_views(r@) =~= all.take(0).filter(keep).map_values(mark));
    while i < chunks.len()
        invariant
            i <= chunks.len(),
            all == chunk_views(chunks@),
            views(lower@) == all_lowercase(views(terms@)),
            keep == (|c: ChunkView| mentions_term(c.content, views(terms@))),
            mark == (|c: ChunkView| literal_match(c)),
            scored_views(r@) == all.take(i as int).filter(keep).map_values(mark),
        decreases chunks.len() - i,
    {
        proof {
            assert(all.take(i + 1).drop_last() =~= all.take(i as int));
            reveal_with_fuel(Seq::filter, 2);
        }
        let content = chunks[i].content.as_str().to_lowercase();
        if holds_term(content.as_str(), &lower) {
            let ghost before = scored_views(r@);
            let item = ScoredChunk { chunk: chunks[i].clone(), score: Score::one() };
            r.push(item);
            proof {
                assert(scored_views(r@) =~= before.push(item@));
                let kept = all.take(i as int).filter(keep);
                assert(kept.push(all[i as int]).map_values(mark) =~= kept.map_values(mark).push(
                    mark(all[i as int]),
                ));
            }
        }
        i += 1;
    }
    assert(all.take(i as int) =~= all);
    r
}

// ------------------------------------------------------------ semantic search

/// The chunks of one embedding size, each with its score.
pub open spec fn comparable(
    chunks: Seq<ChunkView>,
    scores: Seq<ScoreView>,
    dimensions: nat,
) -> Seq<ScoredChunkView>
    decreases chunks.len(),
{
    if chunks.len() == 0 {
        seq![]
    } else {
        let before = comparable(chunks.drop_last(), scores, dimensions);
        let last = chunks.last();
        if last.embedding.len() == dimensions {
            before.push(ScoredChunkView { chunk: last, score: scores[chunks.len() - 1] })
        } else {
            before
        }
    }
}

/// The chunks whose embedding has the size of the question's, with their scores.
pub fn comparable_chunks(chunks: &Vec<Chunk>, scores: &Vec<Score>, dimensions: usize) -> (r: Vec<
    ScoredChunk,
>)
    requires
        chunks@.len() == scores@.len(),
    ensures
        scored_views(r@) == comparable(
            chunk_views(chunks@),
            score_views(scores@),
            dimensions as nat,
        ),
{
    let ghost all = chunk_views(chunks@);
    let ghost given = score_views(scores@);
    let mut r: Vec<ScoredChunk> = Vec::new();
    let mut i: usize = 0;
    assert(scored_views(r@) =~= comparable(all.take(0), given, dimensions as nat));
    while i < chunks.len()
        invariant
            i <= chunks.len() == scores.len(),
            all == chunk_views(chunks@),
            given == score_views(scores@),
            scored_views(r@) == comparable(all.take(i as int), given, dimensions as nat),
        decreases chunks.len() - i,
    {
        assert(all.take(i + 1).drop_last() =~= all.take(i as int));
        if chunks[i].embedding.len() == dimensions {
            let ghost before = scored_views(r@);
            let item = ScoredChunk { chunk: chunks[i].clone(), score: scores[i].clone() };
            r.push(item);
            assert(scored_views(r@) =~= before.push(item@));
        }
        i += 1;
    }
    assert(all.take(i as int) =~= all);
    r
}

/// The scored chunks whose score is relevant.
pub open spec fn relevant_chunks(items: Seq<ScoredChunkView>) -> Seq<ScoredChunkView> {
    items.filter(|c: ScoredChunkView| is_relevant(c.score.bits))
}

/// The keys that sort scored chunks from the best score to the worst.
pub open spec fn rank_keys(items: Seq<ScoredChunkView>) -> Seq<(int, int)> {
    items.map_values(|c: ScoredChunkView| (-total_order(c.score.bits), 0int))
}

/// The scored chunks from the best score to the worst.
pub open spec fn ranked(items: Seq<ScoredChunkView>) -> Seq<ScoredChunkView> {
    picked(items, stable_order(rank_keys(items), by_pair()))
}

/// The first `k` items, or all where there are fewer.
pub open spec fn at_most<A>(s: Seq<A>, k: nat) -> Seq<A> {
    if s.len() <= k {
        s
    } else {
        s.take(k as int)
    }
}

/// The items in the given order.
fn pick_scored(items: &Vec<ScoredChunk>, order: &Vec<usize>) -> (r: Vec<ScoredChunk>)
    requires
        forall|k: int| 0 <= k < order.len() ==> 0 <= #[trigger] indices(order@)[k] < items.len(),
    ensures
        scored_views(r@) == picked(scored_views(items@), indices(order@)),
{
    let ghost want = picked(scored_views(items@), indices(order@));
    let mut r: Vec<ScoredChunk> = Vec::new();
    let mut j: usize = 0;
    while j < order.len()
        invariant
            j <= order.len(),
            want == picked(scored_views(items@), indices(order@)),
            forall|k: int|
                0 <= k < order.len() ==> 0 <= #[trigger] indices(order@)[k] < items.len(),
            scored_views(r@) == want.take(j as int),
        decreases order.len() - j,
    {
        assert(0 <= indices(order@)[j as int] < items.len());
        let ghost before = scored_views(r@);
        let item = items[order[j]].clone();
        r.push(item);
        assert(scored_views(r@) =~= before.push(item@));
        assert(scored_views(r@) =~= want.take(j + 1));
        j += 1;
    }
    assert(want.take(j as int) =~= want);
    r
}

/// The scored chunks from the best score to the worst.
pub fn rank(items: &Vec<ScoredChunk>) -> (r: Vec<ScoredChunk>)
    ensures
        scored_views(r@) == ranked(scored_views(items@)),
{
    let mut keys: Vec<(i128, i128)> = Vec::new();
    let mut i: usize = 0;
    while i < items.len()
        invariant
            i <= items.len(),
            keys.len() == i,
            forall|j: int|
                0 <= j < i ==> (#[trigger] keys@[j]).0 == -total_order(items@[j].score.bits)
                    && keys@[j].1 == 0,
        decreases items.len() - i,
    {
        keys.push((-(items[i].score.order() as i128), 0));
        i += 1;
    }
    assert(crate::order::pairs(keys@) =~= rank_keys(scored_views(items@)));
    let order = order_pairs(&keys);
    pick_scored(items, &order)
}

/// The `k` relevant chunks with the best scores, best first; equal scores keep
/// the order of the chunks.
pub open spec fn best(
    chunks: Seq<ChunkView>,
    scores: Seq<ScoreView>,
    dimensions: nat,
    k: nat,
) -> Seq<ScoredChunkView> {
    best_of(comparable(chunks, scores, dimensions), k)
}

/// The `k` relevant items with the best scores, best first.
pub open spec fn best_of(items: Seq<ScoredChunkView>, k: nat) -> Seq<ScoredChunkView> {
    at_most(ranked(relevant_chunks(items)), k)
}

/// The scored chunks whose score is relevant.
pub fn keep_relevant(items: &Vec<ScoredChunk>) -> (r: Vec<ScoredChunk>)
    ensures
        scored_views(r@) == relevant_chunks(scored_views(items@)),
{
    let ghost all = scored_views(items@);
    let ghost keep = |c: ScoredChunkView| is_relevant(c.score.bits);
    let mut r: Vec<ScoredChunk> = Vec::new();
    let mut i: usize = 0;
    while i < items.len()
        invariant
            i <= items.len(),
            all == scored_views(items@),
            keep == (|c: ScoredChunkView| is_relevant(c.score.bits)),
            scored_views(r@) == all.take(i as int).filter(keep),
        decreases items.len() - i,
    {
        proof {
            assert(all.take(i + 1).drop_last() =~= all.take(i as int));
            reveal_with_fuel(Seq::filter, 2);
        }
        if items[i].score.relevant() {
            let ghost before = scored_views(r@);
            let item = items[i].clone();
            r.push(item);
            assert(scored_views(r@) =~= before.push(item@));
        }
        i += 1;
    }
    assert(all.take(i as int) =~= all);
    r
}

/// The `k` relevant chunks with the best scores; `scores` gives the score of
/// each chunk, and chunks of another embedding size are left out.
pub fn top_k(chunks: &Vec<Chunk>, scores: &Vec<Score>, dimensions: usize, k: usize) -> (r: Vec<
    ScoredChunk,
>)
    requires
        chunks@.len() == scores@.len(),
    ensures
        scored_views(r@) == best(
            chunk_views(chunks@),
            score_views(scores@),
            dimensions as nat,
            k as nat,
        ),
{
    let scored = comparable_chunks(chunks, scores, dimensions);
    select_best(&scored, k)
}

/// The `k` relevant items with the best scores, best first.
pub fn select_best(items: &Vec<ScoredChunk>, k: usize) -> (r: Vec<ScoredChunk>)
    ensures
        scored_views(r@) == best_of(scored_views(items@), k as nat),
{
    let relevant = keep_relevant(items);
    let mut r = rank(&relevant);
    let ghost all = scored_views(r@);
    if r.len() > k {
        r.truncate(k);
        assert(scored_views(r@) =~= all.take(k as int));
    }
    r
}

// -------------------------------------------------------- mentioned documents

/// The name of a document without its extension.
pub open spec fn stem(name: Seq<char>) -> Seq<char> {
    match before_last(name, '.') {
        Some(s) => s,
        None => name,
    }
}

/// How many words of the name are words of the question.
pub open spec fn shared_words(name_words: Seq<Seq<char>>, question_words: Seq<Seq<char>>) -> nat {
    name_words.filter(|t: Seq<char>| question_words.contains(t)).len()
}

/// The question names the document: it holds the whole name, or two of its words
/// (or all of them, where the name has fewer).
pub open spec fn names_document(query: Seq<char>, name: Seq<char>) -> bool {
    let own = long_words(stem(name));
    let enough = if own.len() < 2 {
        own.len()
    } else {
        2
    };
    contains(phrase(query), phrase(stem(name))) || shared_words(own, phrase_words(query)) >= enough
}

/// Whether the question names the document.
pub fn names_the_document(query: &str, name: &str) -> (r: bool)
    ensures
        r == names_document(query@, name@),
{
    let s = match head_before_last(name, '.') {
        Some(s) => s,
        None => name.to_owned(),
    };
    let normalized = normalize_phrase(query);
    let own_phrase = normalize_phrase(s.as_str());
    if has(normalized.as_str(), own_phrase.as_str()) {
        return true;
    }
    let own = terms(s.as_str());
    let asked = pieces_of_words(normalized.as_str(), CharClass::White);
    let matching = count_among(&own, &asked, Ghost(phrase_words(query@)));
    assert(views(own@).len() == own@.len());
    let enough: usize = if own.len() < 2 {
        own.len()
    } else {
        2
    };
    matching >= enough
}

/// Some document of the list has the identifier.
pub open spec fn lists(documents: Seq<(i64, Seq<char>)>, id: i64) -> bool {
    exists|j: int| 0 <= j < documents.len() && (#[trigger] documents[j]).0 == id
}

/// Whether some document of the list has the identifier.
pub fn is_listed(documents: &[(i64, String)], id: i64) -> (r: bool)
    ensures
        r == lists(document_views(documents@), id),
{
    let mut i: usize = 0;
    while i < documents.len()
        invariant
            i <= documents.len(),
            forall|j: int| 0 <= j < i ==> (#[trigger] document_views(documents@)[j]).0 != id,
        decreases documents.len() - i,
    {
        if documents[i].0 == id {
            assert(document_views(documents@)[i as int].0 == id);
            return true;
        }
        i += 1;
    }
    false
}

/// The documents of the chunks that satisfy the test, each where its first such
/// chunk stands.
pub open spec fn documents_where(
    chunks: Seq<ChunkView>,
    test: spec_fn(ChunkView) -> bool,
) -> Seq<(i64, Seq<char>)>
    decreases chunks.len(),
{
    if chunks.len() == 0 {
        seq![]
    } else {
        let before = documents_where(chunks.drop_last(), test);
        let c = chunks.last();
        if !lists(before, c.document_id) && test(c) {
            before.push((c.document_id, c.document_name))
        } else {
            before
        }
    }
}

/// The chunk belongs to a document that the question names.
pub open spec fn named_in(query: Seq<char>) -> spec_fn(ChunkView) -> bool {
    |c: ChunkView| names_document(query, c.document_name)
}

/// The greatest page number among the chunks of a document.
pub open spec fn last_page(chunks: Seq<ChunkView>, id: i64) -> Option<u32>
    decreases chunks.len(),
{
    if chunks.len() == 0 {
        None
    } else {
        let before = last_page(chunks.drop_last(), id);
        let c = chunks.last();
        if c.document_id != id {
            before
        } else {
            match (before, c.page_number) {
                (Some(a), Some(b)) => if a < b {
                    Some(b)
                } else {
                    Some(a)
                },
                (None, p) => p,
                (p, None) => p,
            }
        }
    }
}

/// The chunk belongs to a document with so many pages.
pub open spec fn has_pages(chunks: Seq<ChunkView>, count: u32) -> spec_fn(ChunkView) -> bool {
    |c: ChunkView| last_page(chunks, c.document_id) == Some(count)
}

/// The word means pages.
pub open spec fn means_pages(w: Seq<char>) -> bool {
    w == "pagina"@ || w == "paginas"@ || w == "página"@ || w == "páginas"@
}

/// The first number among the words that a word for pages follows.
pub open spec fn page_count_in(w: Seq<Seq<char>>) -> Option<u32>
    decreases w.len(),
{
    if w.len() < 2 {
        None
    } else {
        match as_number(w[0]) {
            Some(n) => if means_pages(w[1]) && n <= u32::MAX {
                Some(n as u32)
            } else {
                page_count_in(w.skip(1))
            },
            None => page_count_in(w.skip(1)),
        }
    }
}

/// The number of pages that a question mentions.
pub fn mentioned_page_count(query: &str) -> (r: Option<u32>)
    ensures
        r == page_count_in(phrase_words(query@)),
{
    let w = words_of_phrase(query);
    first_page_count(&w)
}

/// The first number among the words that a word for pages follows.
pub fn first_page_count(w: &Vec<String>) -> (r: Option<u32>)
    ensures
        r == page_count_in(views(w@)),
{
    let ghost all = views(w@);
    let mut i: usize = 0;
    assert(all.skip(0) =~= all);
    while i < w.len() && w.len() - i >= 2
        invariant
            i <= w.len(),
            all == views(w@),
            page_count_in(all) == page_count_in(all.skip(i as int)),
        decreases w.len() - i,
    {
        let ghost rest = all.skip(i as int);
        assert(rest[0] == w@[i as int]@);
        assert(rest[1] == w@[i + 1]@);
        assert(rest.skip(1) =~= all.skip(i + 1));
        let unit = w[i + 1].as_str();
        if same(unit, "pagina") || same(unit, "paginas") || same(unit, "página") || same(
            unit,
            "páginas",
        ) {
            let count = w[i].as_str();
            if !count.is_empty() && only_digits(count) {
                match parse_number(count) {
                    Some(n) => {
                        if n as u64 <= u32::MAX as u64 {
                            return Some(n as u32);
                        }
                    },
                    None => {},
                }
            }
        }
        i += 1;
    }
    None
}

/// The documents that a question speaks of: those it names or, where it names
/// none, those with the number of pages that it mentions.
pub open spec fn documents_mentioned(chunks: Seq<ChunkView>, query: Seq<char>) -> Seq<
    (i64, Seq<char>),
> {
    let named = documents_where(chunks, named_in(query));
    match page_count_in(phrase_words(query)) {
        Some(count) if named.len() == 0 => documents_where(chunks, has_pages(chunks, count)),
        _ => named,
    }
}

/// The greatest page number among the chunks of a document.
pub fn last_page_of(chunks: &[Chunk], id: i64) -> (r: Option<u32>)
    ensures
        r == last_page(chunk_views(chunks@), id),
{
    let ghost all = chunk_views(chunks@);
    let mut r: Option<u32> = None;
    let mut i: usize = 0;
    while i < chunks.len()
        invariant
            i <= chunks.len(),
            all == chunk_views(chunks@),
            r == last_page(all.take(i as int), id),
        decreases chunks.len() - i,
    {
        assert(all.take(i + 1).drop_last() =~= all.take(i as int));
        if chunks[i].document_id == id {
            match (r, chunks[i].page_number) {
                (Some(a), Some(b)) => {
                    if a < b {
                        r = Some(b);
                    }
                },
                (None, p) => {
                    r = p;
                },
                _ => {},
            }
        }
        i += 1;
    }
    assert(all.take(i as int) =~= all);
    r
}

/// The documents that a question speaks of.
pub fn mentioned_documents(chunks: &[Chunk], query: &str) -> (r: Vec<(i64, String)>)
    ensures
        document_views(r@) == documents_mentioned(chunk_views(chunks@), query@),
{
    let ghost all = chunk_views(chunks@);
    let mut documents: Vec<(i64, String)> = Vec::new();
    let mut i: usize = 0;
    assert(document_views(documents@) =~= documents_where(all.take(0), named_in(query@)));
    while i < chunks.len()
        invariant
            i <= chunks.len(),
            all == chunk_views(chunks@),
            document_views(documents@) == documents_where(all.take(i as int), named_in(query@)),
        decreases chunks.len() - i,
    {
        assert(all.take(i + 1).drop_last() =~= all.take(i as int));
        if !is_listed(&documents, chunks[i].document_id) && names_the_document(
            query,
            chunks[i].document_name.as_str(),
        ) {
            let ghost before = document_views(documents@);
            let name = chunks[i].document_name.clone();
            documents.push((chunks[i].document_id, name));
            assert(document_views(documents@) =~= before.push((all[i as int].document_id, name@)));
        }
        i += 1;
    }
    assert(all.take(i as int) =~= all);
    assert(document_views(documents@).len() == documents@.len());
    if documents.len() == 0 {
        if let Some(count) = mentioned_page_count(query) {
            return documents_with_pages(chunks, count);
        }
    }
    documents
}

/// The documents with so many pages.
pub fn documents_with_pages(chunks: &[Chunk], count: u32) -> (r: Vec<(i64, String)>)
    ensures
        document_views(r@) == documents_where(
            chunk_views(chunks@),
            has_pages(chunk_views(chunks@), count),
        ),
{
    let ghost all = chunk_views(chunks@);
    let ghost test = has_pages(all, count);
    let mut documents: Vec<(i64, String)> = Vec::new();
    let mut i: usize = 0;
    assert(document_views(documents@) =~= documents_where(all.take(0), test));
    while i < chunks.len()
        invariant
            i <= chunks.len(),
            all == chunk_views(chunks@),
            test == has_pages(all, count),
            document_views(documents@) == documents_where(all.take(i as int), test),
        decreases chunks.len() - i,
    {
        assert(all.take(i + 1).drop_last() =~= all.take(i as int));
        if !is_listed(&documents, chunks[i].document_id) {
            let pages = last_page_of(chunks, chunks[i].document_id);
            let enough = match pages {
                Some(p) => p == count,
                None => false,
            };
            if enough {
                let ghost before = document_views(documents@);
                let name = chunks[i].document_name.clone();
                documents.push((chunks[i].document_id, name));
                assert(document_views(documents@) =~= before.push(
                    (all[i as int].document_id, name@),
                ));
            }
        }
        i += 1;
    }
    assert(all.take(i as int) =~= all);
    documents
}

// ----------------------------------------------------------- library overview

/// The positions of `limit` items spread evenly over `total`, both ends among
/// them; all positions where there are no more than `limit`.
pub open spec fn spread(total: nat, limit: nat) -> Seq<int> {
    let count = if total < limit {
        total
    } else {
        limit
    };
    if count == 0 {
        seq![]
    } else if count == 1 {
        seq![0]
    } else {
        Seq::new(count, |p: int| p * (total - 1) / (count - 1))
    }
}

/// The first position is the first item's and, of two or more, the last is the
/// last item's; no position is out of range or repeated.
pub proof fn law_spread(total: nat, limit: nat)
    ensures
        forall|p: int| 0 <= p < spread(total, limit).len() ==> 0 <= #[trigger] spread(total, limit)[p]
            < total,
        forall|p: int, q: int|
            0 <= p < q < spread(total, limit).len() ==> #[trigger] spread(total, limit)[p]
                < #[trigger] spread(total, limit)[q],
        total > 0 && limit > 0 ==> spread(total, limit).len() > 0 && spread(total, limit)[0] == 0,
        total > 1 && limit > 1 ==> spread(total, limit).last() == total - 1,
{
    let s = spread(total, limit);
    if s.len() > 1 {
        let n = s.len() - 1;
        let m = total - 1;
        assert forall|p: int| 0 <= p < s.len() implies 0 <= #[trigger] s[p] < total by {
            lemma_scaled(p, m, n);
        }
        assert forall|p: int, q: int| 0 <= p < q < s.len() implies #[trigger] s[p]
            < #[trigger] s[q] by {
            lemma_scaled_grows(p, q, m, n);
        }
        lemma_scaled(0, m, n);
        lemma_scaled(n, m, n);
    }
}

proof fn lemma_scaled(p: int, m: int, n: int)
    requires
        0 <= p <= n,
        0 < n <= m,
    ensures
        0 <= p * m / n <= m,
        p == 0 ==> p * m / n == 0,
        p == n ==> p * m / n == m,
{
    assert(0 <= p * m / n <= m) by (nonlinear_arith)
        requires
            0 <= p <= n,
            0 < n <= m,
    ;
    if p == n {
        assert(n * m / n == m) by (nonlinear_arith)
            requires
                0 < n,
        ;
    }
    if p == 0 {
        assert(p * m == 0) by (nonlinear_arith)
            requires
                p == 0,
        ;
        assert(0int / n == 0) by (nonlinear_arith)
            requires
                0 < n,
        ;
    }
}

proof fn lemma_scaled_grows(p: int, q: int, m: int, n: int)
    requires
        0 <= p < q <= n,
        0 < n <= m,
    ensures
        p * m / n < q * m / n,
{
    assert(q * m >= p * m + n) by (nonlinear_arith)
        requires
            0 <= p < q,
            0 < n <= m,
    ;
    assert((p * m + n) / n == p * m / n + 1) by (nonlinear_arith)
        requires
            0 < n,
    ;
    assert(q * m / n >= (p * m + n) / n) by (nonlinear_arith)
        requires
            q * m >= p * m + n,
            0 < n,
    ;
}

/// The positions of `limit` items spread evenly over `total`.
pub fn representative_indices(total: usize, limit: usize) -> (r: Vec<usize>)
    ensures
        indices(r@) == spread(total as nat, limit as nat),
{
    proof {
        law_spread(total as nat, limit as nat);
    }
    let mut r: Vec<usize> = Vec::new();
    let count: usize = if total < limit {
        total
    } else {
        limit
    };
    if count == 0 {
        assert(indices(r@) =~= seq![]);
        return r;
    }
    if count == 1 {
        r.push(0);
        assert(indices(r@) =~= seq![0int]);
        return r;
    }
    let ghost want = spread(total as nat, limit as nat);
    let mut p: usize = 0;
    while p < count
        invariant
            p <= count,
            2 <= count <= total,
            want == spread(total as nat, limit as nat),
            want.len() == count,
            count == if total < limit {
                total
            } else {
                limit
            },
            forall|j: int| 0 <= j < want.len() ==> 0 <= #[trigger] want[j] < total,
            indices(r@) == want.take(p as int),
        decreases count - p,
    {
        assert(0 <= want[p as int] < total);
        assert(p * (total - 1) <= usize::MAX * usize::MAX) by (nonlinear_arith)
            requires
                p <= usize::MAX,
                1 <= total <= usize::MAX,
        ;
        assert(usize::MAX * usize::MAX <= u128::MAX) by (nonlinear_arith)
            requires
                usize::MAX <= u64::MAX,
        ;
        let at: usize = ((p as u128) * ((total - 1) as u128) / ((count - 1) as u128)) as usize;
        assert(at == want[p as int]);
        let ghost before = indices(r@);
        r.push(at);
        assert(indices(r@) =~= before.push(at as int));
        assert(indices(r@) =~= want.take(p + 1));
        p += 1;
    }
    assert(want.take(p as int) =~= want);
    r
}

/// The different words of a text.
pub open spec fn tokens(s: Seq<char>) -> Seq<Seq<char>> {
    distinct(phrase_words(s))
}

/// The texts share at least 85 of every hundred of the words that either has;
/// where one has no words, they are the same phrase.
pub open spec fn similar(a: Seq<char>, b: Seq<char>) -> bool {
    let l = tokens(a);
    let r = tokens(b);
    if l.len() == 0 || r.len() == 0 {
        phrase(a) == phrase(b)
    } else {
        let shared = shared_words(l, r);
        shared * 100 >= (l.len() + r.len() - shared) * 85
    }
}

/// Whether the texts share nearly all of their words.
pub fn substantially_similar(left: &str, right: &str) -> (r: bool)
    ensures
        r == similar(left@, right@),
{
    let a = normalize_phrase(left);
    let b = normalize_phrase(right);
    let l = without_repeats(pieces_of_words(a.as_str(), CharClass::White));
    let r = without_repeats(pieces_of_words(b.as_str(), CharClass::White));
    assert(views(l@).len() == l@.len());
    assert(views(r@).len() == r@.len());
    if l.len() == 0 || r.len() == 0 {
        return a == b;
    }
    let shared = count_among(&l, &r, Ghost(tokens(right@)));
    proof {
        tokens(left@).lemma_filter_len(|t: Seq<char>| tokens(right@).contains(t));
    }
    let all: u128 = l.len() as u128 + r.len() as u128 - shared as u128;
    shared as u128 * 100 >= all * 85
}

/// What makes a chunk superfluous beside one that was chosen.
#[derive(Clone, Copy)]
pub enum Sameness {
    /// Both belong to one document.
    Document,
    /// Both stand on one page of one document.
    Page,
    /// Both are one chunk.
    Identity,
    /// Both say nearly the same.
    Content,
}

impl Sameness {
    pub open spec fn joins(self, a: ScoredChunkView, b: ScoredChunkView) -> bool {
        match self {
            Sameness::Document => a.chunk.document_id == b.chunk.document_id,
            Sameness::Page => a.chunk.document_id == b.chunk.document_id && a.chunk.page_number
                == b.chunk.page_number,
            Sameness::Identity => a.chunk.id == b.chunk.id,
            Sameness::Content => similar(a.chunk.content, b.chunk.content),
        }
    }

    fn holds(self, a: &ScoredChunk, b: &ScoredChunk) -> (r: bool)
        ensures
            r == self.joins(a@, b@),
    {
        match self {
            Sameness::Document => a.chunk.document_id == b.chunk.document_id,
            Sameness::Page => {
                a.chunk.document_id == b.chunk.document_id && match (
                    a.chunk.page_number,
                    b.chunk.page_number,
                ) {
                    (Some(p), Some(q)) => p == q,
                    (None, None) => true,
                    _ => false,
                }
            },
            Sameness::Identity => a.chunk.id == b.chunk.id,
            Sameness::Content => substantially_similar(
                a.chunk.content.as_str(),
                b.chunk.content.as_str(),
            ),
        }
    }
}

/// Some chosen item makes the new one superfluous.
pub open spec fn superfluous(
    chosen: Seq<ScoredChunkView>,
    item: ScoredChunkView,
    by: Sameness,
) -> bool {
    exists|j: int| 0 <= j < chosen.len() && by.joins(#[trigger] chosen[j], item)
}

/// The chosen items, and behind them those of `items` that are not superfluous
/// when their turn comes, until `k` are chosen.
pub open spec fn extended(
    chosen: Seq<ScoredChunkView>,
    items: Seq<ScoredChunkView>,
    k: nat,
    by: Sameness,
) -> Seq<ScoredChunkView>
    decreases items.len(),
{
    if items.len() == 0 {
        chosen
    } else {
        let before = extended(chosen, items.drop_last(), k, by);
        if before.len() < k && !superfluous(before, items.last(), by) {
            before.push(items.last())
        } else {
            before
        }
    }
}

/// Adds to the chosen items those that are not superfluous, until `k` are chosen.
fn extend_fresh(chosen: &mut Vec<ScoredChunk>, items: &Vec<ScoredChunk>, k: usize, by: Sameness)
    ensures
        scored_views(final(chosen)@) == extended(
            scored_views(old(chosen)@),
            scored_views(items@),
            k as nat,
            by,
        ),
{
    let ghost start = scored_views(chosen@);
    let ghost all = scored_views(items@);
    let mut i: usize = 0;
    while i < items.len()
        invariant
            i <= items.len(),
            all == scored_views(items@),
            scored_views(chosen@) == extended(start, all.take(i as int), k as nat, by),
        decreases items.len() - i,
    {
        assert(all.take(i + 1).drop_last() =~= all.take(i as int));
        assert(all.take(i + 1).last() == items@[i as int]@);
        assert(scored_views(chosen@).len() == chosen@.len());
        if chosen.len() < k && !is_superfluous(chosen, &items[i], by) {
            let ghost before = scored_views(chosen@);
            let item = items[i].clone();
            chosen.push(item);
            assert(scored_views(chosen@) =~= before.push(item@));
        }
        i += 1;
    }
    assert(all.take(i as int) =~= all);
}

/// Whether some chosen item makes the new one superfluous.
fn is_superfluous(chosen: &Vec<ScoredChunk>, item: &ScoredChunk, by: Sameness) -> (r: bool)
    ensures
        r == superfluous(scored_views(chosen@), item@, by),
{
    let ghost all = scored_views(chosen@);
    let mut j: usize = 0;
    while j < chosen.len()
        invariant
            j <= chosen.len(),
            all == scored_views(chosen@),
            forall|m: int| 0 <= m < j ==> !by.joins(#[trigger] all[m], item@),
        decreases chosen.len() - j,
    {
        if by.holds(&chosen[j], item) {
            assert(by.joins(all[j as int], item@));
            return true;
        }
        j += 1;
    }
    false
}

/// The chunks of a document.
pub open spec fn of_document(chunks: Seq<ChunkView>, id: i64) -> Seq<ChunkView> {
    chunks.filter(|c: ChunkView| c.document_id == id)
}

/// The chunks in the order in which they stand in their document, each with the
/// score of a literal match.
pub open spec fn in_reading_order(chunks: Seq<ChunkView>) -> Seq<ScoredChunkView> {
    picked(
        chunks.map_values(|c: ChunkView| literal_match(c)),
        stable_order(chunks.map_values(|c: ChunkView| (c.chunk_index as int, 0int)), by_pair()),
    )
}

/// The passages that stand for a document: spread evenly over it, without those
/// that nearly repeat an earlier one.
pub open spec fn representatives(chunks: Seq<ChunkView>, id: i64, limit: nat) -> Seq<
    ScoredChunkView,
> {
    let own = in_reading_order(of_document(chunks, id));
    let candidates = picked(own, spread(own.len(), limit));
    extended(seq![], candidates, candidates.len(), Sameness::Content)
}

/// The overview of a library: one entry for each document, in their order.
pub open spec fn library_overview(
    chunks: Seq<ChunkView>,
    documents: Seq<(i64, Seq<char>)>,
    limit: nat,
) -> Seq<OverviewView> {
    documents.map_values(
        |d: (i64, Seq<char>)|
            OverviewView {
                document_id: d.0,
                filename: d.1,
                chunks: representatives(chunks, d.0, limit),
            },
    )
}

/// The passages that stand for a document.
pub fn representative_chunks(chunks: &Vec<Chunk>, id: i64, limit: usize) -> (r: Vec<ScoredChunk>)
    ensures
        scored_views(r@) == representatives(chunk_views(chunks@), id, limit as nat),
{
    let ghost all = chunk_views(chunks@);
    let ghost keep = |c: ChunkView| c.document_id == id;
    let mut own: Vec<ScoredChunk> = Vec::new();
    let mut keys: Vec<(i128, i128)> = Vec::new();
    let mut i: usize = 0;
    let ghost mut kept: Seq<ChunkView> = seq![];
    while i < chunks.len()
        invariant
            i <= chunks.len(),
            all == chunk_views(chunks@),
            keep == (|c: ChunkView| c.document_id == id),
            kept == all.take(i as int).filter(keep),
            own.len() == kept.len(),
            keys.len() == kept.len(),
            forall|j: int| 0 <= j < kept.len() ==> (#[trigger] own@[j])@ == literal_match(kept[j]),
            forall|j: int|
                0 <= j < kept.len() ==> (#[trigger] keys@[j]).0 == kept[j].chunk_index as int
                    && keys@[j].1 == 0,
        decreases chunks.len() - i,
    {
        proof {
            assert(all.take(i + 1).drop_last() =~= all.take(i as int));
            reveal_with_fuel(Seq::filter, 2);
        }
        if chunks[i].document_id == id {
            own.push(ScoredChunk { chunk: chunks[i].clone(), score: Score::one() });
            keys.push((chunks[i].chunk_index as i128, 0));
            proof {
                kept = kept.push(all[i as int]);
            }
        }
        i += 1;
    }
    proof {
        assert(all.take(i as int) =~= all);
        assert(scored_views(own@) =~= kept.map_values(|c: ChunkView| literal_match(c)));
        assert(crate::order::pairs(keys@) =~= kept.map_values(
            |c: ChunkView| (c.chunk_index as int, 0int),
        ));
    }
    let order = order_pairs(&keys);
    let sorted = pick_scored(&own, &order);
    assert(scored_views(sorted@) == in_reading_order(kept));
    assert(scored_views(sorted@).len() == sorted@.len());
    let positions = representative_indices(sorted.len(), limit);
    proof {
        law_spread(sorted@.len(), limit as nat);
    }
    let candidates = pick_scored(&sorted, &positions);
    let mut r: Vec<ScoredChunk> = Vec::new();
    assert(scored_views(r@) =~= seq![]);
    assert(scored_views(candidates@).len() == candidates@.len());
    extend_fresh(&mut r, &candidates, candidates.len(), Sameness::Content);
    r
}

/// The overview of a library: one entry for each document, in their order, with
/// at most `max_per_document` passages and never fewer than one wanted.
pub fn build_library_overview(
    chunks: &Vec<Chunk>,
    documents: &Vec<(i64, String)>,
    max_per_document: usize,
) -> (r: Vec<DocumentOverviewInput>)
    ensures
        overview_views(r@) == library_overview(
            chunk_views(chunks@),
            document_views(documents@),
            if max_per_document == 0 {
                1
            } else {
                max_per_document as nat
            },
        ),
{
    let limit: usize = if max_per_document == 0 {
        1
    } else {
        max_per_document
    };
    let ghost want = library_overview(
        chunk_views(chunks@),
        document_views(documents@),
        limit as nat,
    );
    let mut r: Vec<DocumentOverviewInput> = Vec::new();
    let mut i: usize = 0;
    while i < documents.len()
        invariant
            i <= documents.len(),
            want == library_overview(
                chunk_views(chunks@),
                document_views(documents@),
                limit as nat,
            ),
            overview_views(r@) == want.take(i as int),
        decreases documents.len() - i,
    {
        let ghost before = overview_views(r@);
        let passages = representative_chunks(chunks, documents[i].0, limit);
        let entry = DocumentOverviewInput {
            document_id: documents[i].0,
            filename: documents[i].1.clone(),
            representative_chunks: passages,
        };
        r.push(entry);
        assert(overview_views(r@) =~= before.push(entry@));
        assert(overview_views(r@) =~= want.take(i + 1));
        i += 1;
    }
    assert(want.take(i as int) =~= want);
    r
}

// ------------------------------------------------------- comparison and scope

/// The items of a document.
pub open spec fn items_of(items: Seq<ScoredChunkView>, id: i64) -> Seq<ScoredChunkView> {
    items.filter(|c: ScoredChunkView| c.chunk.document_id == id)
}

/// The place of a page in reading order; what has no page comes first.
pub open spec fn page_key(page: Option<u32>) -> int {
    match page {
        Some(p) => p as int,
        None => -1,
    }
}

/// The items by page and by their place in the document.
pub open spec fn by_page(items: Seq<ScoredChunkView>) -> Seq<ScoredChunkView> {
    picked(
        items,
        stable_order(
            items.map_values(
                |c: ScoredChunkView| (page_key(c.chunk.page_number), c.chunk.chunk_index as int),
            ),
            by_pair(),
        ),
    )
}

/// How many passages each of `n` compared documents may give.
pub open spec fn share(k: nat, n: nat) -> nat {
    let most = if k < n {
        n
    } else {
        k
    };
    if most % n == 0 {
        most / n
    } else {
        most / n + 1
    }
}

/// The best passages of each document, in reading order, document by document.
pub open spec fn compared(
    items: Seq<ScoredChunkView>,
    documents: Seq<(i64, Seq<char>)>,
    per_document: nat,
) -> Seq<ScoredChunkView>
    decreases documents.len(),
{
    if documents.len() == 0 {
        seq![]
    } else {
        compared(items, documents.drop_last(), per_document) + by_page(
            best_of(items_of(items, documents.last().0), per_document),
        )
    }
}

/// The items of a document.
pub fn keep_document(items: &Vec<ScoredChunk>, id: i64) -> (r: Vec<ScoredChunk>)
    ensures
        scored_views(r@) == items_of(scored_views(items@), id),
{
    let ghost all = scored_views(items@);
    let ghost keep = |c: ScoredChunkView| c.chunk.document_id == id;
    let mut r: Vec<ScoredChunk> = Vec::new();
    let mut i: usize = 0;
    while i < items.len()
        invariant
            i <= items.len(),
            all == scored_views(items@),
            keep == (|c: ScoredChunkView| c.chunk.document_id == id),
            scored_views(r@) == all.take(i as int).filter(keep),
        decreases items.len() - i,
    {
        proof {
            assert(all.take(i + 1).drop_last() =~= all.take(i as int));
            reveal_with_fuel(Seq::filter, 2);
        }
        if items[i].chunk.document_id == id {
            let ghost before = scored_views(r@);
            let item = items[i].clone();
            r.push(item);
            assert(scored_views(r@) =~= before.push(item@));
        }
        i += 1;
    }
    assert(all.take(i as int) =~= all);
    r
}

/// The items by page and by their place in the document.
fn sort_by_page(items: &Vec<ScoredChunk>) -> (r: Vec<ScoredChunk>)
    ensures
        scored_views(r@) == by_page(scored_views(items@)),
{
    let mut keys: Vec<(i128, i128)> = Vec::new();
    let mut i: usize = 0;
    while i < items.len()
        invariant
            i <= items.len(),
            keys.len() == i,
            forall|j: int|
                0 <= j < i ==> (#[trigger] keys@[j]).0 == page_key(items@[j].chunk.page_number)
                    && keys@[j].1 == items@[j].chunk.chunk_index,
        decreases items.len() - i,
    {
        let page: i128 = match items[i].chunk.page_number {
            Some(p) => p as i128,
            None => -1,
        };
        keys.push((page, items[i].chunk.chunk_index as i128));
        i += 1;
    }
    assert(crate::order::pairs(keys@) =~= scored_views(items@).map_values(
        |c: ScoredChunkView| (page_key(c.chunk.page_number), c.chunk.chunk_index as int),
    ));
    let order = order_pairs(&keys);
    pick_scored(items, &order)
}

/// The best passages of each of the documents that are to be compared.
pub fn retrieve_comparison(
    chunks: &Vec<Chunk>,
    scores: &Vec<Score>,
    dimensions: usize,
    k: usize,
    documents: &Vec<(i64, String)>,
) -> (r: Vec<ScoredChunk>)
    requires
        chunks@.len() == scores@.len(),
    ensures
        scored_views(r@) == if documents@.len() == 0 || k == 0 {
            seq![]
        } else {
            compared(
                comparable(chunk_views(chunks@), score_views(scores@), dimensions as nat),
                document_views(documents@),
                share(k as nat, documents@.len()),
            )
        },
{
    let mut r: Vec<ScoredChunk> = Vec::new();
    assert(scored_views(r@) =~= seq![]);
    if documents.len() == 0 || k == 0 {
        return r;
    }
    let n = documents.len();
    let most: usize = if k < n {
        n
    } else {
        k
    };
    let per_document: usize = if most % n == 0 {
        most / n
    } else {
        assert(most / n < usize::MAX) by (nonlinear_arith)
            requires
                most % n != 0,
                0 < n,
                most <= usize::MAX,
        ;
        most / n + 1
    };
    let scored = comparable_chunks(chunks, scores, dimensions);
    let ghost items = scored_views(scored@);
    let ghost wanted = document_views(documents@);
    let mut i: usize = 0;
    while i < documents.len()
        invariant
            i <= documents.len(),
            items == scored_views(scored@),
            wanted == document_views(documents@),
            scored_views(r@) == compared(items, wanted.take(i as int), per_document as nat),
        decreases documents.len() - i,
    {
        assert(wanted.take(i + 1).drop_last() =~= wanted.take(i as int));
        let own = keep_document(&scored, documents[i].0);
        let chosen = select_best(&own, per_document);
        let mut sorted = sort_by_page(&chosen);
        let ghost before = scored_views(r@);
        let ghost added = scored_views(sorted@);
        r.append(&mut sorted);
        assert(scored_views(r@) =~= before + added);
        i += 1;
    }
    assert(wanted.take(i as int) =~= wanted);
    r
}

/// The chunks of the listed documents, in their order.
pub fn restrict_to_documents(chunks: &Vec<Chunk>, documents: &Vec<(i64, String)>) -> (r: Vec<
    Chunk,
>)
    ensures
        chunk_views(r@) == chunk_views(chunks@).filter(
            |c: ChunkView| lists(document_views(documents@), c.document_id),
        ),
{
    let ghost all = chunk_views(chunks@);
    let ghost keep = |c: ChunkView| lists(document_views(documents@), c.document_id);
    let mut r: Vec<Chunk> = Vec::new();
    let mut i: usize = 0;
    while i < chunks.len()
        invariant
            i <= chunks.len(),
            all == chunk_views(chunks@),
            keep == (|c: ChunkView| lists(document_views(documents@), c.document_id)),
            chunk_views(r@) == all.take(i as int).filter(keep),
        decreases chunks.len() - i,
    {
        proof {
            assert(all.take(i + 1).drop_last() =~= all.take(i as int));
            reveal_with_fuel(Seq::filter, 2);
        }
        if is_listed(documents.as_slice(), chunks[i].document_id) {
            let ghost before = chunk_views(r@);
            let item = chunks[i].clone();
            r.push(item);
            assert(chunk_views(r@) =~= before.push(item@));
        }
        i += 1;
    }
    assert(all.take(i as int) =~= all);
    r
}

// -------------------------------------------------------- document overview

/// The lower-case question asks what a document is about.
pub open spec fn asks_overview(normalized: Seq<char>) -> bool {
    contains_any(
        normalized,
        seq![
            "de que trata"@,
            "de qué trata"@,
            "resume el documento"@,
            "resume este documento"@,
            "que contiene"@,
            "qué contiene"@,
            "que temas aborda"@,
            "qué temas aborda"@,
        ],
    )
}

/// Whether the lower-case question asks what a document is about.
pub fn is_overview_question(normalized: &str) -> (r: bool)
    ensures
        r == asks_overview(normalized@),
{
    let phrases = [
        "de que trata",
        "de qué trata",
        "resume el documento",
        "resume este documento",
        "que contiene",
        "qué contiene",
        "que temas aborda",
        "qué temas aborda",
    ];
    assert(str_views(phrases@) =~= seq![
        "de que trata"@,
        "de qué trata"@,
        "resume el documento"@,
        "resume este documento"@,
        "que contiene"@,
        "qué contiene"@,
        "que temas aborda"@,
        "qué temas aborda"@,
    ]);
    has_any(normalized, &phrases)
}

/// Whether the question asks what a document is about.
pub fn is_document_overview(query: &str) -> (r: bool)
    ensures
        r == asks_overview(lowercase(query@)),
{
    let normalized = query.to_lowercase();
    is_overview_question(normalized.as_str())
}

/// The question has a word of the document's name.
pub open spec fn is_named(item: ScoredChunkView, query_terms: Seq<Seq<char>>) -> bool {
    name_match_count(item.chunk.document_name, query_terms) > 0
}

/// Some item is named in the question.
pub open spec fn any_named(items: Seq<ScoredChunkView>, query_terms: Seq<Seq<char>>) -> bool {
    exists|j: int| 0 <= j < items.len() && is_named(#[trigger] items[j], query_terms)
}

/// The item speaks for its document: the question names it or, where it names no
/// document, the item is relevant.
pub open spec fn speaks(
    items: Seq<ScoredChunkView>,
    query_terms: Seq<Seq<char>>,
    item: ScoredChunkView,
) -> bool {
    if any_named(items, query_terms) {
        is_named(item, query_terms)
    } else {
        is_relevant(item.score.bits)
    }
}

/// The document is one that an overview may draw on: some item speaks for it.
pub open spec fn is_candidate(
    items: Seq<ScoredChunkView>,
    query_terms: Seq<Seq<char>>,
    id: i64,
) -> bool {
    exists|j: int|
        0 <= j < items.len() && (#[trigger] items[j]).chunk.document_id == id && speaks(
            items,
            query_terms,
            items[j],
        )
}

/// The items of the documents that an overview may draw on.
pub open spec fn candidates(items: Seq<ScoredChunkView>, query_terms: Seq<Seq<char>>) -> Seq<
    ScoredChunkView,
> {
    items.filter(|c: ScoredChunkView| is_candidate(items, query_terms, c.chunk.document_id))
}

/// The items by document and by their place in it.
pub open spec fn by_document(items: Seq<ScoredChunkView>) -> Seq<ScoredChunkView> {
    picked(
        items,
        stable_order(
            items.map_values(
                |c: ScoredChunkView| (c.chunk.document_id as int, c.chunk.chunk_index as int),
            ),
            by_pair(),
        ),
    )
}

/// The passages of an overview: first the beginning of each document, then one
/// passage of each further page, then the best of the rest, `k` in all.
pub open spec fn overview_of(items: Seq<ScoredChunkView>, k: nat) -> Seq<ScoredChunkView> {
    let ordered = by_document(items);
    let starts = extended(seq![], ordered, k, Sameness::Document);
    let pages = extended(starts, ordered, k, Sameness::Page);
    extended(pages, ranked(ordered), k, Sameness::Identity)
}

/// The items by document and by their place in it.
fn sort_by_document(items: &Vec<ScoredChunk>) -> (r: Vec<ScoredChunk>)
    ensures
        scored_views(r@) == by_document(scored_views(items@)),
{
    let mut keys: Vec<(i128, i128)> = Vec::new();
    let mut i: usize = 0;
    while i < items.len()
        invariant
            i <= items.len(),
            keys.len() == i,
            forall|j: int|
                0 <= j < i ==> (#[trigger] keys@[j]).0 == items@[j].chunk.document_id && keys@[j].1
                    == items@[j].chunk.chunk_index,
        decreases items.len() - i,
    {
        keys.push((items[i].chunk.document_id as i128, items[i].chunk.chunk_index as i128));
        i += 1;
    }
    assert(crate::order::pairs(keys@) =~= scored_views(items@).map_values(
        |c: ScoredChunkView| (c.chunk.document_id as int, c.chunk.chunk_index as int),
    ));
    let order = order_pairs(&keys);
    pick_scored(items, &order)
}

/// Which items speak for their documents.
fn speakers(items: &Vec<ScoredChunk>, query_terms: &Vec<String>) -> (r: Vec<bool>)
    ensures
        r@.len() == items@.len(),
        forall|j: int|
            0 <= j < items@.len() ==> #[trigger] r@[j] == speaks(
                scored_views(items@),
                views(query_terms@),
                items@[j]@,
            ),
{
    let ghost all = scored_views(items@);
    let ghost asked = views(query_terms@);
    let mut named: Vec<bool> = Vec::new();
    let mut relevant: Vec<bool> = Vec::new();
    let mut any: bool = false;
    let mut i: usize = 0;
    while i < items.len()
        invariant
            i <= items.len(),
            all == scored_views(items@),
            asked == views(query_terms@),
            named.len() == i,
            relevant.len() == i,
            any <==> exists|j: int| 0 <= j < i && is_named(#[trigger] all[j], asked),
            forall|j: int| 0 <= j < i ==> #[trigger] named@[j] == is_named(items@[j]@, asked),
            forall|j: int|
                0 <= j < i ==> #[trigger] relevant@[j] == is_relevant(items@[j].score.bits),
        decreases items.len() - i,
    {
        assert(all[i as int] == items@[i as int]@);
        let hit = name_matches(items[i].chunk.document_name.as_str(), query_terms) > 0;
        if hit {
            any = true;
        }
        named.push(hit);
        relevant.push(items[i].score.relevant());
        i += 1;
    }
    assert(any == any_named(all, asked));
    if any {
        named
    } else {
        relevant
    }
}

/// The items of the documents that an overview may draw on.
fn keep_candidates(items: &Vec<ScoredChunk>, query_terms: &Vec<String>) -> (r: Vec<ScoredChunk>)
    ensures
        scored_views(r@) == candidates(scored_views(items@), views(query_terms@)),
{
    let ghost all = scored_views(items@);
    let ghost asked = views(query_terms@);
    let ghost keep = |c: ScoredChunkView| is_candidate(all, asked, c.chunk.document_id);
    let flags = speakers(items, query_terms);
    let mut r: Vec<ScoredChunk> = Vec::new();
    let mut i: usize = 0;
    while i < items.len()
        invariant
            i <= items.len() == flags.len(),
            all == scored_views(items@),
            asked == views(query_terms@),
            forall|j: int|
                0 <= j < items.len() ==> #[trigger] flags@[j] == speaks(all, asked, items@[j]@),
            keep == (|c: ScoredChunkView| is_candidate(all, asked, c.chunk.document_id)),
            scored_views(r@) == all.take(i as int).filter(keep),
        decreases items.len() - i,
    {
        proof {
            assert(all.take(i + 1).drop_last() =~= all.take(i as int));
            reveal_with_fuel(Seq::filter, 2);
        }
        let id = items[i].chunk.document_id;
        let mut found: bool = false;
        let mut m: usize = 0;
        while m < items.len() && !found
            invariant
                m <= items.len() == flags.len(),
                all == scored_views(items@),
                forall|j: int|
                    0 <= j < items.len() ==> #[trigger] flags@[j] == speaks(all, asked, items@[j]@),
                found <==> exists|j: int|
                    0 <= j < m && (#[trigger] all[j]).chunk.document_id == id && speaks(
                        all,
                        asked,
                        all[j],
                    ),
            decreases items.len() - m,
        {
            assert(all[m as int] == items@[m as int]@);
            if items[m].chunk.document_id == id && flags[m] {
                found = true;
            }
            m += 1;
        }
        assert(found == is_candidate(all, asked, id));
        if found {
            let ghost before = scored_views(r@);
            let item = items[i].clone();
            r.push(item);
            assert(scored_views(r@) =~= before.push(item@));
        }
        i += 1;
    }
    assert(all.take(i as int) =~= all);
    r
}

/// The passages that give an overview of the documents a question is about.
pub fn overview_chunks(
    chunks: &Vec<Chunk>,
    scores: &Vec<Score>,
    dimensions: usize,
    query_text: &str,
    k: usize,
) -> (r: Vec<ScoredChunk>)
    requires
        chunks@.len() == scores@.len(),
    ensures
        scored_views(r@) == overview_of(
            candidates(
                comparable(chunk_views(chunks@), score_views(scores@), dimensions as nat),
                long_words(query_text@),
            ),
            k as nat,
        ),
{
    let query_terms = terms(query_text);
    let scored = comparable_chunks(chunks, scores, dimensions);
    let kept = keep_candidates(&scored, &query_terms);
    let ordered = sort_by_document(&kept);
    let mut r: Vec<ScoredChunk> = Vec::new();
    assert(scored_views(r@) =~= seq![]);
    extend_fresh(&mut r, &ordered, k, Sameness::Document);
    extend_fresh(&mut r, &ordered, k, Sameness::Page);
    let by_score = rank(&ordered);
    extend_fresh(&mut r, &by_score, k, Sameness::Identity);
    r
}

/// The passages that answer a question: an overview where it asks what a document
/// is about, the best passages otherwise.
pub open spec fn retrieved(
    items: Seq<ScoredChunkView>,
    query: Seq<char>,
    k: nat,
) -> Seq<ScoredChunkView> {
    if asks_overview(lowercase(query)) {
        overview_of(candidates(items, long_words(query)), k)
    } else {
        best_of(items, k)
    }
}

/// The passages that answer a question.
pub fn retrieve(
    chunks: &Vec<Chunk>,
    scores: &Vec<Score>,
    dimensions: usize,
    query_text: &str,
    k: usize,
) -> (r: Vec<ScoredChunk>)
    requires
        chunks@.len() == scores@.len(),
    ensures
        scored_views(r@) == retrieved(
            comparable(chunk_views(chunks@), score_views(scores@), dimensions as nat),
            query_text@,
            k as nat,
        ),
{
    if is_document_overview(query_text) {
        overview_chunks(chunks, scores, dimensions, query_text, k)
    } else {
        top_k(chunks, scores, dimensions, k)
    }
}

// ----------------------------------------------------------------------- laws

proof fn lemma_picked<A>(items: Seq<A>, order: Seq<int>)
    requires
        crate::order::is_permutation(order, items.len() as int),
    ensures
        picked(items, order).len() == items.len(),
        forall|x: A| #[trigger] picked(items, order).contains(x) <==> items.contains(x),
{
    let p = picked(items, order);
    assert forall|x: A| #[trigger] p.contains(x) <==> items.contains(x) by {
        if p.contains(x) {
            let i = choose|i: int| 0 <= i < p.len() && p[i] == x;
            assert(0 <= order[i] < items.len());
            assert(items[order[i]] == x);
        }
        if items.contains(x) {
            let i = choose|i: int| 0 <= i < items.len() && items[i] == x;
            assert(order.contains(i));
            let j = choose|j: int| 0 <= j < order.len() && order[j] == i;
            assert(p[j] == x);
        }
    }
}

/// Ranking keeps every item and puts better scores before worse ones.
pub proof fn law_ranked(items: Seq<ScoredChunkView>)
    ensures
        ranked(items).len() == items.len(),
        forall|x: ScoredChunkView| #[trigger] ranked(items).contains(x) <==> items.contains(x),
        forall|a: int, b: int|
            0 <= a < b < items.len() ==> total_order((#[trigger] ranked(items)[a]).score.bits)
                >= total_order((#[trigger] ranked(items)[b]).score.bits),
{
    let keys = rank_keys(items);
    let order = stable_order(keys, by_pair());
    crate::order::lemma_by_pair();
    crate::order::law_stable_order(keys, by_pair());
    lemma_picked(items, order);
    assert forall|a: int, b: int| 0 <= a < b < items.len() implies total_order(
        (#[trigger] ranked(items)[a]).score.bits,
    ) >= total_order((#[trigger] ranked(items)[b]).score.bits) by {
        assert(crate::order::comes_before(keys, by_pair(), order[a], order[b]));
        assert(0 <= order[a] < items.len());
        assert(0 <= order[b] < items.len());
    }
}

/// The best passages are at most `k`, are all relevant and all from the items,
/// stand from the best score to the worst, and no relevant item that was left
/// out is better than one that was chosen.
pub proof fn law_best(items: Seq<ScoredChunkView>, k: nat)
    ensures
        best_of(items, k).len() <= k,
        best_of(items, k).len() == k || best_of(items, k).len() == relevant_chunks(items).len(),
        forall|x: ScoredChunkView| #[trigger]
            best_of(items, k).contains(x) ==> items.contains(x) && is_relevant(x.score.bits),
        forall|a: int, b: int|
            0 <= a < b < best_of(items, k).len() ==> total_order(
                (#[trigger] best_of(items, k)[a]).score.bits,
            ) >= total_order((#[trigger] best_of(items, k)[b]).score.bits),
        forall|x: ScoredChunkView, a: int|
            #![trigger items.contains(x), best_of(items, k)[a]]
            items.contains(x) && is_relevant(x.score.bits) && !best_of(items, k).contains(x) && 0
                <= a < best_of(items, k).len() ==> total_order(best_of(items, k)[a].score.bits)
                >= total_order(x.score.bits),
{
    let keep = |c: ScoredChunkView| is_relevant(c.score.bits);
    let relevant = relevant_chunks(items);
    let all = ranked(relevant);
    let r = best_of(items, k);
    law_ranked(relevant);
    broadcast use vstd::seq_lib::group_filter_ensures;
    assert forall|x: ScoredChunkView| #[trigger] r.contains(x) implies items.contains(x)
        && is_relevant(x.score.bits) by {
        let i = choose|i: int| 0 <= i < r.len() && r[i] == x;
        assert(all[i] == x);
        assert(all.contains(x));
        assert(relevant.contains(x));
        let j = choose|j: int| 0 <= j < relevant.len() && relevant[j] == x;
        assert(keep(relevant[j]));
        items.lemma_filter_contains_rev(keep, x);
    }
    assert forall|a: int, b: int| 0 <= a < b < r.len() implies total_order(
        (#[trigger] r[a]).score.bits,
    ) >= total_order((#[trigger] r[b]).score.bits) by {
        assert(r[a] == all[a]);
        assert(r[b] == all[b]);
    }
    assert forall|x: ScoredChunkView, a: int|
        #![trigger items.contains(x), r[a]]
        items.contains(x) && is_relevant(x.score.bits) && !r.contains(x) && 0 <= a
            < r.len() implies total_order(r[a].score.bits) >= total_order(x.score.bits) by {
        let i = choose|i: int| 0 <= i < items.len() && items[i] == x;
        items.lemma_filter_contains(keep, i);
        assert(all.contains(x));
        let j = choose|j: int| 0 <= j < all.len() && all[j] == x;
        if j < r.len() {
            assert(r[j] == x);
        }
        assert(r[a] == all[a]);
    }
}

/// The chunks with their scores.
pub open spec fn scored_pairs(chunks: Seq<ChunkView>, scores: Seq<ScoreView>) -> Seq<
    ScoredChunkView,
> {
    Seq::new(chunks.len(), |i: int| ScoredChunkView { chunk: chunks[i], score: scores[i] })
}

/// Compared are all chunks, each with its own score, whose embedding has the size of the
/// question's.
pub proof fn law_comparable(chunks: Seq<ChunkView>, scores: Seq<ScoreView>, dimensions: nat)
    ensures
        comparable(chunks, scores, dimensions) == scored_pairs(chunks, scores).filter(
            |c: ScoredChunkView| c.chunk.embedding.len() == dimensions,
        ),
    decreases chunks.len(),
{
    reveal_with_fuel(Seq::filter, 2);
    let all = scored_pairs(chunks, scores);
    if chunks.len() > 0 {
        law_comparable(chunks.drop_last(), scores, dimensions);
        assert(all.drop_last() =~= scored_pairs(chunks.drop_last(), scores));
    }
}

/// The best passages for a question are those of the size of its embedding with a score
/// of at least 0.20, best first, `k` of them or all: none is given twice, and none that was
/// left out is better than one that was given.
pub proof fn law_best_passages(
    chunks: Seq<ChunkView>,
    scores: Seq<ScoreView>,
    dimensions: nat,
    k: nat,
)
    ensures
        is_best(
            Seq::new(
                chunks.len(),
                |i: int| ScoredChunkView { chunk: chunks[i], score: scores[i] },
            ),
            |c: ScoredChunkView|
                c.chunk.embedding.len() == dimensions && 0x3e4c_cccd <= c.score.bits
                    <= 0x7f80_0000,
            |c: ScoredChunkView| total_order(c.score.bits),
            k,
            best(chunks, scores, dimensions, k),
        ),
{
    let all = scored_pairs(chunks, scores);
    assert(all =~= Seq::new(
        chunks.len(),
        |i: int| ScoredChunkView { chunk: chunks[i], score: scores[i] },
    ));
    let fits = |c: ScoredChunkView| c.chunk.embedding.len() == dimensions;
    let relevant = |c: ScoredChunkView| is_relevant(c.score.bits);
    let both = |c: ScoredChunkView|
        c.chunk.embedding.len() == dimensions && 0x3e4c_cccd <= c.score.bits <= 0x7f80_0000;
    let rank = |c: ScoredChunkView| total_order(c.score.bits);
    law_comparable(chunks, scores, dimensions);
    lemma_filter_twice(all, fits, relevant, both);
    lemma_best(
        all,
        both,
        rank,
        k,
        rank_keys(all.filter(both)),
        best(chunks, scores, dimensions, k),
    );
}

/// Extending a choice keeps what was chosen in place, adds only given items, and
/// never goes beyond `k` unless more than `k` were chosen already.
pub proof fn law_extended(
    chosen: Seq<ScoredChunkView>,
    items: Seq<ScoredChunkView>,
    k: nat,
    by: Sameness,
)
    ensures
        extended(chosen, items, k, by).len() >= chosen.len(),
        extended(chosen, items, k, by).take(chosen.len() as int) == chosen,
        extended(chosen, items, k, by).len() <= k || extended(chosen, items, k, by) == chosen,
        forall|j: int|
            chosen.len() <= j < extended(chosen, items, k, by).len() ==> items.contains(
                #[trigger] extended(chosen, items, k, by)[j],
            ),
        forall|i: int, j: int|
            0 <= i < j && chosen.len() <= j < extended(chosen, items, k, by).len() ==> !by.joins(
                #[trigger] extended(chosen, items, k, by)[i],
                #[trigger] extended(chosen, items, k, by)[j],
            ),
        forall|j: int|
            0 <= j < items.len() && extended(chosen, items, k, by).len() < k ==> superfluous(
                extended(chosen, items, k, by),
                #[trigger] items[j],
                by,
            ) || extended(chosen, items, k, by).contains(items[j]),
    decreases items.len(),
{
    let r = extended(chosen, items, k, by);
    if items.len() == 0 {
        assert(chosen.take(chosen.len() as int) =~= chosen);
    } else {
        let p = items.drop_last();
        let before = extended(chosen, p, k, by);
        law_extended(chosen, p, k, by);
        assert(r.take(chosen.len() as int) =~= chosen) by {
            assert(before.take(chosen.len() as int) == chosen);
            assert forall|j: int| 0 <= j < chosen.len() implies r[j] == chosen[j] by {
                assert(before.take(chosen.len() as int)[j] == before[j]);
            }
        }
        assert forall|j: int| chosen.len() <= j < r.len() implies items.contains(#[trigger] r[j]) by {
            if j < before.len() {
                assert(p.contains(before[j]));
                let m = choose|m: int| 0 <= m < p.len() && p[m] == before[j];
                assert(items[m] == r[j]);
            } else {
                assert(items[items.len() - 1] == r[j]);
            }
        }
        assert forall|i: int, j: int| 0 <= i < j && chosen.len() <= j < r.len() implies !by.joins(
            #[trigger] r[i],
            #[trigger] r[j],
        ) by {
            assert(r[i] == before[i]);
            if j < before.len() {
                assert(r[j] == before[j]);
            }
        }
        assert forall|j: int| 0 <= j < items.len() && r.len() < k implies superfluous(
            r,
            #[trigger] items[j],
            by,
        ) || r.contains(items[j]) by {
            if j < p.len() {
                assert(p[j] == items[j]);
                if superfluous(before, items[j], by) {
                    let m = choose|m: int|
                        0 <= m < before.len() && by.joins(#[trigger] before[m], items[j]);
                    assert(r[m] == before[m]);
                } else {
                    let m = choose|m: int| 0 <= m < before.len() && before[m] == items[j];
                    assert(r[m] == items[j]);
                }
            } else if r != before {
                assert(r[r.len() - 1] == items[j]);
            }
        }
    }
}

proof fn lemma_by_document(items: Seq<ScoredChunkView>)
    ensures
        by_document(items).len() == items.len(),
        forall|x: ScoredChunkView| #[trigger] by_document(items).contains(x) <==> items.contains(x),
{
    let keys = items.map_values(
        |c: ScoredChunkView| (c.chunk.document_id as int, c.chunk.chunk_index as int),
    );
    crate::order::lemma_by_pair();
    crate::order::law_stable_order(keys, by_pair());
    lemma_picked(items, stable_order(keys, by_pair()));
}

/// What is retrieved for a question is never more than `k` passages, and each is
/// one of the passages that were searched.
pub proof fn law_retrieved(items: Seq<ScoredChunkView>, query: Seq<char>, k: nat)
    ensures
        retrieved(items, query, k).len() <= k,
        forall|x: ScoredChunkView| #[trigger]
            retrieved(items, query, k).contains(x) ==> items.contains(x),
{
    let r = retrieved(items, query, k);
    if asks_overview(lowercase(query)) {
        let c = candidates(items, long_words(query));
        let keep = |i: ScoredChunkView|
            is_candidate(items, long_words(query), i.chunk.document_id);
        let ordered = by_document(c);
        let starts = extended(seq![], ordered, k, Sameness::Document);
        let pages = extended(starts, ordered, k, Sameness::Page);
        law_extended(seq![], ordered, k, Sameness::Document);
        law_extended(starts, ordered, k, Sameness::Page);
        law_extended(pages, ranked(ordered), k, Sameness::Identity);
        lemma_by_document(c);
        law_ranked(ordered);
        assert forall|x: ScoredChunkView| #[trigger] r.contains(x) implies items.contains(x) by {
            let i = choose|i: int| 0 <= i < r.len() && r[i] == x;
            if i < pages.len() {
                assert(r.take(pages.len() as int)[i] == x);
                if i < starts.len() {
                    assert(pages.take(starts.len() as int)[i] == x);
                    assert(ordered.contains(starts[i]));
                } else {
                    assert(ordered.contains(pages[i]));
                }
            } else {
                assert(ranked(ordered).contains(r[i]));
            }
            assert(ordered.contains(x));
            assert(c.contains(x));
            items.lemma_filter_contains_rev(keep, x);
        }
    } else {
        law_best(items, k);
    }
}

/// A comparison draws on the compared documents alone.
pub proof fn law_compared(
    items: Seq<ScoredChunkView>,
    documents: Seq<(i64, Seq<char>)>,
    per_document: nat,
)
    ensures
        compared(items, documents, per_document).len() <= documents.len() * per_document,
        forall|x: ScoredChunkView| #[trigger]
            compared(items, documents, per_document).contains(x) ==> items.contains(x) && lists(
                documents,
                x.chunk.document_id,
            ),
    decreases documents.len(),
{
    let r = compared(items, documents, per_document);
    if documents.len() == 0 {
        assert(documents.len() * per_document == 0) by (nonlinear_arith)
            requires
                documents.len() == 0,
        ;
    } else {
        let d = documents.drop_last();
        let id = documents.last().0;
        let keep = |c: ScoredChunkView| c.chunk.document_id == id;
        let own = items_of(items, id);
        let b = best_of(own, per_document);
        let keys = b.map_values(
            |c: ScoredChunkView| (page_key(c.chunk.page_number), c.chunk.chunk_index as int),
        );
        law_compared(items, d, per_document);
        law_best(own, per_document);
        crate::order::lemma_by_pair();
        crate::order::law_stable_order(keys, by_pair());
        lemma_picked(b, stable_order(keys, by_pair()));
        assert(documents.len() * per_document == d.len() * per_document + per_document)
            by (nonlinear_arith)
            requires
                documents.len() == d.len() + 1,
        ;
        let head = compared(items, d, per_document);
        assert forall|x: ScoredChunkView| #[trigger] r.contains(x) implies items.contains(x)
            && lists(documents, x.chunk.document_id) by {
            let i = choose|i: int| 0 <= i < r.len() && r[i] == x;
            if i < head.len() {
                assert(head[i] == x);
                assert(head.contains(x));
                let j = choose|j: int|
                    0 <= j < d.len() && (#[trigger] d[j]).0 == x.chunk.document_id;
                assert(documents[j].0 == x.chunk.document_id);
            } else {
                assert(by_page(b)[i - head.len()] == x);
                assert(by_page(b).contains(x));
                assert(b.contains(x));
                assert(own.contains(x));
                items.lemma_filter_contains_rev(keep, x);
                items.lemma_filter_pred(keep, choose|j: int| 0 <= j < own.len() && own[j] == x);
                let j = choose|j: int| 0 <= j < own.len() && own[j] == x;
                assert(keep(own[j]));
                assert(documents[documents.len() - 1].0 == x.chunk.document_id);
            }
        }
    }
}

// --------------------------------------------------- what each search is for

/// A literal search gives every chunk that holds one of the terms, letter case aside, with
/// the score one.
pub proof fn law_literal_search(c: ChunkView, terms: Seq<Seq<char>>)
    ensures
        mentions_term(c.content, terms) <==> exists|k: int|
            0 <= k < terms.len() && contains(lowercase(c.content), lowercase(#[trigger] terms[k])),
        literal_match(c).chunk == c,
        literal_match(c).score.bits == 0x3f80_0000,
{
    let low = all_lowercase(terms);
    if mentions_term(c.content, terms) {
        let k = choose|k: int|
            0 <= k < low.len() && contains(lowercase(c.content), #[trigger] low[k]);
        assert(low[k] == lowercase(terms[k]));
    }
    if exists|k: int|
        0 <= k < terms.len() && contains(lowercase(c.content), lowercase(#[trigger] terms[k])) {
        let k = choose|k: int|
            0 <= k < terms.len() && contains(lowercase(c.content), lowercase(#[trigger] terms[k]));
        assert(low[k] == lowercase(terms[k]));
    }
}

proof fn lemma_no_repeats(v: Seq<Seq<char>>)
    ensures
        ({
            let d = without_adjacent_repeats(v);
            &&& forall|x: Seq<char>| #[trigger] d.contains(x) ==> v.contains(x)
            &&& forall|i: int|
                0 <= i < v.len() ==> exists|j: int|
                    0 <= j < d.len() && ascii_lower(#[trigger] d[j]) == ascii_lower(
                        #[trigger] v[i],
                    )
            &&& forall|i: int, j: int|
                0 <= i < d.len() - 1 && j == i + 1 ==> ascii_lower(#[trigger] d[i]) != ascii_lower(
                    #[trigger] d[j],
                )
        }),
    decreases v.len(),
{
    let d = without_adjacent_repeats(v);
    if v.len() > 0 {
        let p = v.drop_last();
        let e = without_adjacent_repeats(p);
        lemma_no_repeats(p);
        assert forall|x: Seq<char>| #[trigger] d.contains(x) implies v.contains(x) by {
            let j = choose|j: int| 0 <= j < d.len() && d[j] == x;
            if j < e.len() {
                assert(e[j] == x);
                assert(e.contains(x));
                let i = choose|i: int| 0 <= i < p.len() && p[i] == x;
                assert(v[i] == x);
            } else {
                assert(v[v.len() - 1] == x);
            }
        }
        assert forall|i: int| 0 <= i < v.len() implies exists|j: int|
            0 <= j < d.len() && ascii_lower(#[trigger] d[j]) == ascii_lower(#[trigger] v[i]) by {
            if i < p.len() {
                assert(p[i] == v[i]);
                let j = choose|j: int|
                    0 <= j < e.len() && ascii_lower(#[trigger] e[j]) == ascii_lower(p[i]);
                assert(d[j] == e[j]);
            } else {
                assert(ascii_lower(d[d.len() - 1]) == ascii_lower(v[i]));
            }
        }
        assert forall|i: int, j: int| 0 <= i < d.len() - 1 && j == i + 1 implies ascii_lower(
            #[trigger] d[i],
        ) != ascii_lower(#[trigger] d[j]) by {
            if j < e.len() {
                assert(d[i] == e[i] && d[j] == e[j]);
            }
        }
    }
}

/// The words that a question wants literally are words of the question that are to be
/// searched for as they stand, and each such word is among them, letter case aside.
pub proof fn law_literal_words(query: Seq<char>)
    ensures
        forall|w: Seq<char>| #[trigger]
            literal_words(query).contains(w) ==> split(
                query,
                CharClass::NonAlphanumericBut('@'),
            ).contains(w) && is_literal(w),
        forall|w: Seq<char>| #[trigger]
            split(query, CharClass::NonAlphanumericBut('@')).contains(w) && is_literal(w)
                ==> exists|j: int|
                0 <= j < literal_words(query).len() && ascii_lower(
                    #[trigger] literal_words(query)[j],
                ) == ascii_lower(w),
{
    let all = split(query, CharClass::NonAlphanumericBut('@'));
    let keep = |w: Seq<char>| is_literal(w);
    let kept = all.filter(keep);
    let keys = all_lowercase(kept);
    let order = stable_order(keys, by_text());
    let sorted = picked(kept, order);
    crate::order::lemma_by_text();
    crate::order::law_stable_order(keys, by_text());
    assert(keys.len() == kept.len());
    lemma_picked(kept, order);
    lemma_no_repeats(sorted);
    let r = literal_words(query);
    assert forall|w: Seq<char>| #[trigger] r.contains(w) implies all.contains(w) && is_literal(w) by {
        assert(sorted.contains(w));
        assert(kept.contains(w));
        all.lemma_filter_contains_rev(keep, w);
        let i = choose|i: int| 0 <= i < kept.len() && kept[i] == w;
        all.lemma_filter_pred(keep, i);
    }
    assert forall|w: Seq<char>| #[trigger] all.contains(w) && is_literal(w) implies exists|j: int|
        0 <= j < r.len() && ascii_lower(#[trigger] r[j]) == ascii_lower(w) by {
        let i = choose|i: int| 0 <= i < all.len() && all[i] == w;
        all.lemma_filter_contains(keep, i);
        assert(sorted.contains(w));
        let m = choose|m: int| 0 <= m < sorted.len() && sorted[m] == w;
        assert(ascii_lower(sorted[m]) == ascii_lower(w));
    }
}

/// Two texts say nearly the same exactly where of all words that either has, each counted
/// once, 85 of a hundred are words of both; where one has no words, where their phrases
/// are the same.
pub proof fn law_similar(a: Seq<char>, b: Seq<char>)
    ensures
        ({
            let x = phrase_words(a).to_set();
            let y = phrase_words(b).to_set();
            similar(a, b) == if x.len() == 0 || y.len() == 0 {
                phrase(a) == phrase(b)
            } else {
                x.intersect(y).len() * 100 >= x.union(y).len() * 85
            }
        }),
        similar(a, b) == similar(b, a),
        similar(a, a),
{
    lemma_similar(a, b);
    lemma_similar(b, a);
    lemma_similar(a, a);
    let x = phrase_words(a).to_set();
    let y = phrase_words(b).to_set();
    assert(x.intersect(y) =~= y.intersect(x));
    assert(x.union(y) =~= y.union(x));
    assert(x.intersect(x) =~= x);
    assert(x.union(x) =~= x);
}

proof fn lemma_similar(a: Seq<char>, b: Seq<char>)
    ensures
        ({
            let x = phrase_words(a).to_set();
            let y = phrase_words(b).to_set();
            similar(a, b) == if x.len() == 0 || y.len() == 0 {
                phrase(a) == phrase(b)
            } else {
                x.intersect(y).len() * 100 >= x.union(y).len() * 85
            }
        }),
{
    let l = tokens(a);
    let r = tokens(b);
    let x = phrase_words(a).to_set();
    let y = phrase_words(b).to_set();
    crate::text::lemma_distinct(phrase_words(a));
    crate::text::lemma_distinct(phrase_words(b));
    assert(l.to_set() =~= x);
    assert(r.to_set() =~= y);
    l.unique_seq_to_set();
    r.unique_seq_to_set();
    let keep = |t: Seq<char>| r.contains(t);
    crate::order::lemma_kept_set(l, keep);
    assert(x.filter(keep) =~= x.intersect(y)) by {
        assert forall|t: Seq<char>| x.filter(keep).contains(t) <==> #[trigger] x.intersect(
            y,
        ).contains(t) by {
            assert(r.contains(t) <==> r.to_set().contains(t));
        }
    }
    vstd::set_lib::lemma_set_intersect_union_lens(x, y);
}

/// A question names a document where it holds the whole name, or two words of it; where the
/// name has one long word only, where it holds that. Otherwise it does not.
pub proof fn law_naming(query: Seq<char>, name: Seq<char>)
    ensures
        ({
            let own = long_words(stem(name));
            let asked = phrase_words(query);
            &&& contains(phrase(query), phrase(stem(name))) ==> names_document(query, name)
            &&& (exists|i: int, j: int|
                0 <= i < j < own.len() && asked.contains(#[trigger] own[i]) && asked.contains(
                    #[trigger] own[j],
                )) ==> names_document(query, name)
            &&& own.len() == 1 && asked.contains(own[0]) ==> names_document(query, name)
            &&& names_document(query, name) && own.len() > 0 && !contains(
                phrase(query),
                phrase(stem(name)),
            ) ==> exists|i: int| 0 <= i < own.len() && asked.contains(#[trigger] own[i])
            &&& names_document(query, name) && own.len() > 1 && !contains(
                phrase(query),
                phrase(stem(name)),
            ) ==> exists|i: int, j: int|
                0 <= i < j < own.len() && asked.contains(#[trigger] own[i]) && asked.contains(
                    #[trigger] own[j],
                )
        }),
{
    let own = long_words(stem(name));
    let asked = phrase_words(query);
    let keep = |t: Seq<char>| asked.contains(t);
    let at = crate::order::lemma_kept_places(own, keep);
    if exists|i: int, j: int|
        0 <= i < j < own.len() && asked.contains(#[trigger] own[i]) && asked.contains(
            #[trigger] own[j],
        ) {
        let (i, j) = choose|i: int, j: int|
            0 <= i < j < own.len() && asked.contains(#[trigger] own[i]) && asked.contains(
                #[trigger] own[j],
            );
        assert(at.contains(i) && at.contains(j));
        let m = choose|m: int| 0 <= m < at.len() && at[m] == i;
        let n = choose|n: int| 0 <= n < at.len() && at[n] == j;
        assert(m != n);
        assert(at.len() >= 2);
    }
    if own.len() == 1 && asked.contains(own[0]) {
        assert(at.contains(0));
        assert(at.len() >= 1);
    }
    if at.len() >= 1 {
        assert(keep(own[at[0]]));
        if at.len() >= 2 {
            assert(at[0] < at[1]);
            assert(keep(own[at[1]]));
        }
    }
}

/// Documents found by their chunks: each was found by a chunk that passes the test and has
/// its name, none is given twice, and none is left out.
pub proof fn law_documents_where(chunks: Seq<ChunkView>, test: spec_fn(ChunkView) -> bool)
    ensures
        ({
            let r = documents_where(chunks, test);
            &&& forall|j: int|
                0 <= j < r.len() ==> exists|i: int|
                    0 <= i < chunks.len() && test(#[trigger] chunks[i]) && (#[trigger] r[j]) == (
                        chunks[i].document_id,
                        chunks[i].document_name,
                    )
            &&& forall|i: int|
                0 <= i < chunks.len() && test(#[trigger] chunks[i]) ==> lists(
                    r,
                    chunks[i].document_id,
                )
            &&& forall|j: int, k: int|
                0 <= j < k < r.len() ==> (#[trigger] r[j]).0 != (#[trigger] r[k]).0
        }),
    decreases chunks.len(),
{
    let r = documents_where(chunks, test);
    if chunks.len() > 0 {
        let p = chunks.drop_last();
        let before = documents_where(p, test);
        law_documents_where(p, test);
        assert forall|j: int| 0 <= j < r.len() implies exists|i: int|
            0 <= i < chunks.len() && test(#[trigger] chunks[i]) && (#[trigger] r[j]) == (
                chunks[i].document_id,
                chunks[i].document_name,
            ) by {
            if j < before.len() {
                assert(r[j] == before[j]);
                let i = choose|i: int|
                    0 <= i < p.len() && test(#[trigger] p[i]) && before[j] == (
                        p[i].document_id,
                        p[i].document_name,
                    );
                assert(chunks[i] == p[i]);
            } else {
                assert(test(chunks[chunks.len() - 1]));
            }
        }
        assert forall|i: int| 0 <= i < chunks.len() && test(#[trigger] chunks[i]) implies lists(
            r,
            chunks[i].document_id,
        ) by {
            if i < p.len() {
                assert(p[i] == chunks[i]);
                let j = choose|j: int|
                    0 <= j < before.len() && (#[trigger] before[j]).0 == chunks[i].document_id;
                assert(r[j] == before[j]);
            } else if lists(before, chunks[i].document_id) {
                let j = choose|j: int|
                    0 <= j < before.len() && (#[trigger] before[j]).0 == chunks[i].document_id;
                assert(r[j] == before[j]);
            } else {
                assert(r[before.len() as int].0 == chunks[i].document_id);
            }
        }
        assert forall|j: int, k: int| 0 <= j < k < r.len() implies (#[trigger] r[j]).0 != (
        #[trigger] r[k]).0 by {
            assert(r[j] == before[j]);
            if k < before.len() {
                assert(r[k] == before[k]);
            }
        }
    }
}

/// Passages of several documents, one document after the other.
pub open spec fn passages_together(parts: Seq<Seq<ScoredChunkView>>) -> Seq<ScoredChunkView>
    decreases parts.len(),
{
    if parts.len() == 0 {
        seq![]
    } else {
        passages_together(parts.drop_last()) + parts.last()
    }
}

/// The first passage stands before the second in their document, or at the same place:
/// on an earlier page, or on the same page and not behind it. What has no page comes
/// first.
pub open spec fn reads_before(a: ChunkView, b: ChunkView) -> bool {
    match (a.page_number, b.page_number) {
        (None, Some(_)) => true,
        (Some(_), None) => false,
        (None, None) => a.chunk_index <= b.chunk_index,
        (Some(p), Some(q)) => p < q || (p == q && a.chunk_index <= b.chunk_index),
    }
}

/// The best passages of a document with a score of at least 0.20, at most so many.
pub open spec fn are_best_of_id(
    best: Seq<ScoredChunkView>,
    items: Seq<ScoredChunkView>,
    id: i64,
    most: nat,
) -> bool {
    is_best(
        items,
        |c: ScoredChunkView|
            c.chunk.document_id == id && 0x3e4c_cccd <= c.score.bits <= 0x7f80_0000,
        |c: ScoredChunkView| total_order(c.score.bits),
        most,
        best,
    )
}

/// The part has the best passages of a document, at most so many, in reading order.
pub open spec fn is_best_of_document(
    part: Seq<ScoredChunkView>,
    items: Seq<ScoredChunkView>,
    id: i64,
    most: nat,
) -> bool {
    &&& exists|best: Seq<ScoredChunkView>|
        {
            &&& #[trigger] are_best_of_id(best, items, id, most)
            &&& part.len() == best.len()
            &&& forall|x: ScoredChunkView| #[trigger] part.contains(x) <==> best.contains(x)
        }
    &&& forall|a: int, b: int|
        0 <= a < b < part.len() ==> reads_before((#[trigger] part[a]).chunk, (
        #[trigger] part[b]).chunk)
}

proof fn lemma_best_of_document(items: Seq<ScoredChunkView>, id: i64, most: nat)
    ensures
        is_best_of_document(by_page(best_of(items_of(items, id), most)), items, id, most),
{
    let own = |c: ScoredChunkView| c.chunk.document_id == id;
    let relevant = |c: ScoredChunkView| is_relevant(c.score.bits);
    let both = |c: ScoredChunkView|
        c.chunk.document_id == id && 0x3e4c_cccd <= c.score.bits <= 0x7f80_0000;
    let rank = |c: ScoredChunkView| total_order(c.score.bits);
    let best = best_of(items_of(items, id), most);
    lemma_filter_twice(items, own, relevant, both);
    lemma_best(items, both, rank, most, rank_keys(items.filter(both)), best);
    assert(are_best_of_id(best, items, id, most));
    let keys = best.map_values(
        |c: ScoredChunkView| (page_key(c.chunk.page_number), c.chunk.chunk_index as int),
    );
    let order = stable_order(keys, by_pair());
    crate::order::lemma_by_pair();
    crate::order::law_stable_order(keys, by_pair());
    lemma_picked(best, order);
    let part = by_page(best);
    assert forall|a: int, b: int| 0 <= a < b < part.len() implies reads_before(
        (#[trigger] part[a]).chunk,
        (#[trigger] part[b]).chunk,
    ) by {
        assert(crate::order::comes_before(keys, by_pair(), order[a], order[b]));
        assert(0 <= order[a] < best.len() && 0 <= order[b] < best.len());
    }
}

/// A comparison gives the best passages of each document, the same number of each at
/// most, in reading order and document by document.
pub proof fn law_comparison_is_fair(
    items: Seq<ScoredChunkView>,
    documents: Seq<(i64, Seq<char>)>,
    per_document: nat,
)
    ensures
        exists|parts: Seq<Seq<ScoredChunkView>>|
            {
                &&& compared(items, documents, per_document) == #[trigger] passages_together(parts)
                &&& parts.len() == documents.len()
                &&& forall|d: int|
                    0 <= d < documents.len() ==> is_best_of_document(
                        #[trigger] parts[d],
                        items,
                        documents[d].0,
                        per_document,
                    )
            },
    decreases documents.len(),
{
    if documents.len() == 0 {
        let none = Seq::<Seq<ScoredChunkView>>::empty();
        assert(passages_together(none) =~= compared(items, documents, per_document));
    } else {
        let p = documents.drop_last();
        law_comparison_is_fair(items, p, per_document);
        let parts = choose|parts: Seq<Seq<ScoredChunkView>>|
            {
                &&& compared(items, p, per_document) == #[trigger] passages_together(parts)
                &&& parts.len() == p.len()
                &&& forall|d: int|
                    0 <= d < p.len() ==> is_best_of_document(
                        #[trigger] parts[d],
                        items,
                        p[d].0,
                        per_document,
                    )
            };
        let id = documents.last().0;
        let added = by_page(best_of(items_of(items, id), per_document));
        let more = parts.push(added);
        lemma_best_of_document(items, id, per_document);
        assert(more.drop_last() =~= parts);
        assert forall|d: int| 0 <= d < documents.len() implies is_best_of_document(
            #[trigger] more[d],
            items,
            documents[d].0,
            per_document,
        ) by {
            if d < p.len() {
                assert(more[d] == parts[d]);
                assert(documents[d] == p[d]);
            }
        }
        assert(compared(items, documents, per_document) == passages_together(more));
    }
}

/// The documents of a comparison share the passages that are wanted: so many each that
/// together they are enough, one at least, and with one fewer they were not.
pub proof fn law_share(k: nat, n: nat)
    requires
        n > 0,
    ensures
        share(k, n) >= 1,
        share(k, n) * n >= k,
        share(k, n) > 1 ==> (share(k, n) - 1) * n < k,
{
    let most = if k < n {
        n
    } else {
        k
    };
    let q = most / n;
    assert(most == q * n + most % n && 0 <= most % n < n) by (nonlinear_arith)
        requires
            n > 0,
            q == most / n,
    ;
    assert(q >= 1) by (nonlinear_arith)
        requires
            n > 0,
            most >= n,
            q == most / n,
    ;
    if most % n == 0 {
        assert((q - 1) * n == q * n - n) by (nonlinear_arith);
    } else {
        assert((q + 1) * n == q * n + n) by (nonlinear_arith);
    }
    if k < n {
        assert(n / n == 1 && n % n == 0) by (nonlinear_arith)
            requires
                n > 0,
        ;
    }
}

/// What was chosen behind the beginning stands in the list at a place before which nothing
/// makes it superfluous.
pub open spec fn is_first_of_its_kind(
    items: Seq<ScoredChunkView>,
    x: ScoredChunkView,
    by: Sameness,
) -> bool {
    exists|m: int|
        0 <= m < items.len() && (#[trigger] items[m]) == x && forall|i: int|
            0 <= i < m ==> !by.joins(#[trigger] items[i], x)
}

proof fn lemma_first_of_document(items: Seq<ScoredChunkView>, k: nat)
    ensures
        forall|j: int|
            0 <= j < extended(seq![], items, k, Sameness::Document).len() ==> is_first_of_its_kind(
                items,
                #[trigger] extended(seq![], items, k, Sameness::Document)[j],
                Sameness::Document,
            ),
        extended(seq![], items, k, Sameness::Document).len() < k ==> forall|i: int|
            0 <= i < items.len() ==> superfluous(
                extended(seq![], items, k, Sameness::Document),
                #[trigger] items[i],
                Sameness::Document,
            ),
    decreases items.len(),
{
    let by = Sameness::Document;
    let r = extended(seq![], items, k, by);
    law_extended(seq![], items, k, by);
    if items.len() > 0 {
        let p = items.drop_last();
        let before = extended(seq![], p, k, by);
        lemma_first_of_document(p, k);
        law_extended(seq![], p, k, by);
        assert forall|j: int| 0 <= j < r.len() implies is_first_of_its_kind(
            items,
            #[trigger] r[j],
            by,
        ) by {
            if j < before.len() {
                assert(r[j] == before[j]);
                let m = choose|m: int|
                    0 <= m < p.len() && (#[trigger] p[m]) == before[j] && forall|i: int|
                        0 <= i < m ==> !by.joins(#[trigger] p[i], before[j]);
                assert(items[m] == r[j]);
                assert forall|i: int| 0 <= i < m implies !by.joins(#[trigger] items[i], r[j]) by {
                    assert(p[i] == items[i]);
                }
            } else {
                let m = items.len() - 1;
                assert(items[m] == r[j]);
                assert(before.len() < k);
                assert forall|i: int| 0 <= i < m implies !by.joins(#[trigger] items[i], r[j]) by {
                    assert(p[i] == items[i]);
                    assert(superfluous(before, p[i], by));
                    let q = choose|q: int|
                        0 <= q < before.len() && by.joins(#[trigger] before[q], p[i]);
                    if by.joins(items[i], r[j]) {
                        assert(by.joins(before[q], items[m]));
                        assert(superfluous(before, items[m], by));
                    }
                }
            }
        }
        if r.len() < k {
            assert forall|i: int| 0 <= i < items.len() implies superfluous(
                r,
                #[trigger] items[i],
                by,
            ) by {
                if !superfluous(r, items[i], by) {
                    assert(r.contains(items[i]));
                    let q = choose|q: int| 0 <= q < r.len() && r[q] == items[i];
                    assert(by.joins(r[q], items[i]));
                }
            }
        }
    }
}

/// The passage is one of the items and stands at the beginning of its document, as far as
/// the items know it.
pub open spec fn is_beginning(items: Seq<ScoredChunkView>, x: ScoredChunkView) -> bool {
    items.contains(x) && forall|i: int|
        0 <= i < items.len() && (#[trigger] items[i]).chunk.document_id == x.chunk.document_id
            ==> x.chunk.chunk_index <= items[i].chunk.chunk_index
}

/// The passages of an overview: at most `k`; the beginning of every document is among them
/// or, where there are too many documents, only beginnings of different documents are; and
/// where there are fewer than `k`, every passage of the documents is.
pub proof fn law_overview_begins_with_every_document(items: Seq<ScoredChunkView>, k: nat)
    ensures
        ({
            let r = overview_of(items, k);
            &&& r.len() <= k
            &&& forall|x: ScoredChunkView| #[trigger] r.contains(x) ==> items.contains(x)
            &&& forall|i: int|
                0 <= i < items.len() && r.len() < k ==> exists|j: int|
                    0 <= j < r.len() && (#[trigger] r[j]).chunk.id == (
                    #[trigger] items[i]).chunk.id
            &&& (forall|i: int|
                0 <= i < items.len() ==> exists|j: int|
                    0 <= j < r.len() && (#[trigger] r[j]).chunk.document_id == (
                    #[trigger] items[i]).chunk.document_id && is_beginning(items, r[j])) || (
            r.len() == k && (forall|j: int| 0 <= j < k ==> is_beginning(items, #[trigger] r[j]))
                && forall|i: int, j: int|
                0 <= i < j < k ==> (#[trigger] r[i]).chunk.document_id != (
                #[trigger] r[j]).chunk.document_id)
        }),
{
    let keys = items.map_values(
        |c: ScoredChunkView| (c.chunk.document_id as int, c.chunk.chunk_index as int),
    );
    let order = stable_order(keys, by_pair());
    let ordered = by_document(items);
    let starts = extended(seq![], ordered, k, Sameness::Document);
    let pages = extended(starts, ordered, k, Sameness::Page);
    let all = ranked(ordered);
    let r = overview_of(items, k);
    crate::order::lemma_by_pair();
    crate::order::law_stable_order(keys, by_pair());
    lemma_picked(items, order);
    law_ranked(ordered);
    law_extended(seq![], ordered, k, Sameness::Document);
    law_extended(starts, ordered, k, Sameness::Page);
    law_extended(pages, all, k, Sameness::Identity);
    lemma_first_of_document(ordered, k);
    assert forall|x: ScoredChunkView| #[trigger] r.contains(x) implies items.contains(x) by {
        let i = choose|i: int| 0 <= i < r.len() && r[i] == x;
        if i < pages.len() {
            assert(r.take(pages.len() as int)[i] == x);
            if i < starts.len() {
                assert(pages.take(starts.len() as int)[i] == x);
                assert(ordered.contains(starts[i]));
            } else {
                assert(ordered.contains(pages[i]));
            }
        } else {
            assert(all.contains(r[i]));
        }
        assert(ordered.contains(x));
    }
    assert forall|i: int| 0 <= i < items.len() && r.len() < k implies exists|j: int|
        0 <= j < r.len() && (#[trigger] r[j]).chunk.id == (#[trigger] items[i]).chunk.id by {
        assert(items.contains(items[i]));
        assert(ordered.contains(items[i]));
        assert(all.contains(items[i]));
        let m = choose|m: int| 0 <= m < all.len() && all[m] == items[i];
        if superfluous(r, all[m], Sameness::Identity) {
            let j = choose|j: int|
                0 <= j < r.len() && Sameness::Identity.joins(#[trigger] r[j], all[m]);
            assert(r[j].chunk.id == items[i].chunk.id);
        } else {
            assert(r.contains(all[m]));
            let j = choose|j: int| 0 <= j < r.len() && r[j] == all[m];
            assert(r[j].chunk.id == items[i].chunk.id);
        }
    }
    assert forall|j: int| 0 <= j < starts.len() implies #[trigger] r[j] == starts[j] by {
        assert(r.take(pages.len() as int)[j] == r[j]);
        assert(pages.take(starts.len() as int)[j] == pages[j]);
    }
    assert forall|j: int| 0 <= j < starts.len() implies is_beginning(
        items,
        #[trigger] starts[j],
    ) by {
        let x = starts[j];
        assert(is_first_of_its_kind(ordered, x, Sameness::Document));
        let m = choose|m: int|
            0 <= m < ordered.len() && (#[trigger] ordered[m]) == x && forall|i: int|
                0 <= i < m ==> !Sameness::Document.joins(#[trigger] ordered[i], x);
        assert(ordered.contains(x));
        assert forall|i: int|
            0 <= i < items.len() && (#[trigger] items[i]).chunk.document_id
                == x.chunk.document_id implies x.chunk.chunk_index
            <= items[i].chunk.chunk_index by {
            assert(order.contains(i));
            let n = choose|n: int| 0 <= n < order.len() && order[n] == i;
            assert(ordered[n] == items[i]);
            if n < m {
                assert(Sameness::Document.joins(ordered[n], x));
            } else if n > m {
                assert(crate::order::comes_before(keys, by_pair(), order[m], order[n]));
                assert(0 <= order[m] < items.len());
                assert(items[order[m]] == x);
            }
        }
    }
    if starts.len() < k {
        assert forall|i: int| 0 <= i < items.len() implies exists|j: int|
            0 <= j < r.len() && (#[trigger] r[j]).chunk.document_id == (
            #[trigger] items[i]).chunk.document_id && is_beginning(items, r[j]) by {
            assert(items.contains(items[i]));
            assert(ordered.contains(items[i]));
            let n = choose|n: int| 0 <= n < ordered.len() && ordered[n] == items[i];
            assert(superfluous(starts, ordered[n], Sameness::Document));
            let j = choose|j: int|
                0 <= j < starts.len() && Sameness::Document.joins(#[trigger] starts[j], ordered[n]);
            assert(r[j] == starts[j]);
            assert(is_beginning(items, r[j]));
        }
    } else {
        assert(starts.len() == k);
        assert(r.len() == k);
        assert forall|i: int, j: int| 0 <= i < j < k implies (#[trigger] r[i]).chunk.document_id
            != (#[trigger] r[j]).chunk.document_id by {
            assert(r[i] == starts[i] && r[j] == starts[j]);
            assert(!Sameness::Document.joins(starts[i], starts[j]));
        }
    }
}

/// The passages that stand for a document: passages of that document alone, at most so
/// many, beginning with its first; no two say nearly the same. There are some exactly where
/// the document has passages.
pub proof fn law_representatives(chunks: Seq<ChunkView>, id: i64, limit: nat)
    requires
        limit > 0,
    ensures
        ({
            let r = representatives(chunks, id, limit);
            &&& r.len() <= limit
            &&& forall|j: int|
                0 <= j < r.len() ==> chunks.contains((#[trigger] r[j]).chunk)
                    && r[j].chunk.document_id == id && r[j].score.bits == 0x3f80_0000
            &&& forall|i: int, j: int|
                0 <= i < j < r.len() ==> !similar(
                    (#[trigger] r[i]).chunk.content,
                    (#[trigger] r[j]).chunk.content,
                )
            &&& r.len() > 0 <==> exists|i: int|
                0 <= i < chunks.len() && (#[trigger] chunks[i]).document_id == id
            &&& r.len() > 0 ==> forall|i: int|
                0 <= i < chunks.len() && (#[trigger] chunks[i]).document_id == id
                    ==> r[0].chunk.chunk_index <= chunks[i].chunk_index
        }),
{
    let keep = |c: ChunkView| c.document_id == id;
    let mine = chunks.filter(keep);
    let marked = mine.map_values(|c: ChunkView| literal_match(c));
    let keys = mine.map_values(|c: ChunkView| (c.chunk_index as int, 0int));
    let order = stable_order(keys, by_pair());
    let own = in_reading_order(mine);
    let places = spread(own.len(), limit);
    let candidates = picked(own, places);
    let none = Seq::<ScoredChunkView>::empty();
    let r = representatives(chunks, id, limit);
    crate::order::lemma_by_pair();
    crate::order::law_stable_order(keys, by_pair());
    law_spread(own.len(), limit);
    law_extended(none, candidates, candidates.len(), Sameness::Content);
    lemma_extended_first(candidates, candidates.len(), Sameness::Content);
    assert forall|j: int| 0 <= j < r.len() implies chunks.contains((#[trigger] r[j]).chunk)
        && r[j].chunk.document_id == id && r[j].score.bits == 0x3f80_0000 by {
        assert(candidates.contains(r[j]));
        let n = choose|n: int| 0 <= n < candidates.len() && candidates[n] == r[j];
        assert(0 <= places[n] < own.len());
        assert(own[places[n]] == r[j]);
        let m = order[places[n]];
        assert(0 <= m < mine.len());
        assert(marked[m] == r[j]);
        chunks.lemma_filter_pred(keep, m);
        chunks.lemma_filter_contains_rev(keep, mine[m]);
    }
    assert forall|i: int, j: int| 0 <= i < j < r.len() implies !similar(
        (#[trigger] r[i]).chunk.content,
        (#[trigger] r[j]).chunk.content,
    ) by {
        assert(!Sameness::Content.joins(r[i], r[j]));
    }
    if exists|i: int| 0 <= i < chunks.len() && (#[trigger] chunks[i]).document_id == id {
        let i = choose|i: int| 0 <= i < chunks.len() && (#[trigger] chunks[i]).document_id == id;
        chunks.lemma_filter_contains(keep, i);
        assert(mine.len() > 0);
        assert(candidates.len() > 0);
    }
    if r.len() > 0 {
        let first = r[0];
        assert(candidates.contains(first));
        assert(first == candidates[0]);
        assert(own[0] == first);
        assert forall|i: int|
            0 <= i < chunks.len() && (#[trigger] chunks[i]).document_id == id implies r[0].chunk.chunk_index
            <= chunks[i].chunk_index by {
            chunks.lemma_filter_contains(keep, i);
            let m = choose|m: int| 0 <= m < mine.len() && mine[m] == chunks[i];
            assert(order.contains(m));
            let n = choose|n: int| 0 <= n < order.len() && order[n] == m;
            if n > 0 {
                assert(crate::order::comes_before(keys, by_pair(), order[0], order[n]));
            }
            assert(0 <= order[0] < mine.len());
            assert(marked[order[0]] == first);
        }
        assert(chunks.contains(first.chunk));
        let i = choose|i: int| 0 <= i < chunks.len() && chunks[i] == first.chunk;
        assert(chunks[i].document_id == id);
    }
}

proof fn lemma_extended_first(items: Seq<ScoredChunkView>, k: nat, by: Sameness)
    ensures
        items.len() > 0 && k > 0 ==> extended(seq![], items, k, by).len() > 0 && extended(
            seq![],
            items,
            k,
            by,
        )[0] == items[0],
    decreases items.len(),
{
    if items.len() > 0 {
        let p = items.drop_last();
        let none = Seq::<ScoredChunkView>::empty();
        lemma_extended_first(p, k, by);
        if p.len() == 0 {
            assert(extended(none, p, k, by) == none);
        } else {
            assert(p[0] == items[0]);
        }
    }
}

/// An overview of a library has an entry for each document, in their order, with its
/// number, its name and the passages that stand for it.
pub proof fn law_overview_has_every_document(
    chunks: Seq<ChunkView>,
    documents: Seq<(i64, Seq<char>)>,
    limit: nat,
)
    ensures
        library_overview(chunks, documents, limit).len() == documents.len(),
        forall|d: int|
            0 <= d < documents.len() ==> {
                let o = #[trigger] library_overview(chunks, documents, limit)[d];
                &&& o.document_id == documents[d].0
                &&& o.filename == documents[d].1
                &&& o.chunks == representatives(chunks, documents[d].0, limit)
            },
{
}

/// The number of pages of a document is the greatest page of its chunks.
pub proof fn law_last_page(chunks: Seq<ChunkView>, id: i64)
    ensures
        match last_page(chunks, id) {
            Some(n) => (exists|i: int|
                0 <= i < chunks.len() && (#[trigger] chunks[i]).document_id == id
                    && chunks[i].page_number == Some(n)) && forall|i: int|
                0 <= i < chunks.len() && (#[trigger] chunks[i]).document_id == id ==> (
                chunks[i].page_number matches Some(p) ==> p <= n),
            None => forall|i: int|
                0 <= i < chunks.len() && (#[trigger] chunks[i]).document_id == id
                    ==> chunks[i].page_number is None,
        },
    decreases chunks.len(),
{
    if chunks.len() > 0 {
        let p = chunks.drop_last();
        law_last_page(p, id);
        let last = chunks.len() - 1;
        assert forall|i: int| 0 <= i < p.len() implies #[trigger] chunks[i] == p[i] by {}
        if let Some(n) = last_page(chunks, id) {
            if last_page(p, id) == Some(n) {
                let i = choose|i: int|
                    0 <= i < p.len() && (#[trigger] p[i]).document_id == id && p[i].page_number
                        == Some(n);
                assert(chunks[i] == p[i]);
            } else {
                assert(chunks[last].document_id == id && chunks[last].page_number == Some(n));
            }
        }
    }
}

/// The word is a number of pages: a number that a word for pages follows.
pub open spec fn counts_pages(w: Seq<Seq<char>>, i: int, n: nat) -> bool {
    0 <= i < w.len() - 1 && as_number(w[i]) == Some(n) && n <= u32::MAX && means_pages(w[i + 1])
}

/// A question mentions a number of pages where a number stands before a word for pages; it
/// is the first such number.
pub proof fn law_page_count(w: Seq<Seq<char>>)
    ensures
        match page_count_in(w) {
            Some(n) => exists|i: int|
                #[trigger] counts_pages(w, i, n as nat) && forall|j: int, m: nat|
                    j < i ==> !#[trigger] counts_pages(w, j, m),
            None => forall|j: int, m: nat| !#[trigger] counts_pages(w, j, m),
        },
    decreases w.len(),
{
    if w.len() >= 2 {
        let t = w.skip(1);
        law_page_count(t);
        assert forall|j: int, m: nat| #[trigger] counts_pages(w, j, m) implies j == 0
            || counts_pages(t, j - 1, m) by {
            if j > 0 {
                assert(t[j - 1] == w[j]);
                assert(t[j] == w[j + 1]);
            }
        }
        if as_number(w[0]) is Some && counts_pages(w, 0, as_number(w[0]).unwrap()) {
            assert(counts_pages(w, 0, page_count_in(w).unwrap() as nat));
        } else {
            assert(page_count_in(w) == page_count_in(t));
            assert forall|m: nat| !#[trigger] counts_pages(w, 0, m) by {}
            if let Some(n) = page_count_in(w) {
                let i = choose|i: int|
                    #[trigger] counts_pages(t, i, n as nat) && forall|j: int, m: nat|
                        j < i ==> !#[trigger] counts_pages(t, j, m);
                assert(w[i + 1] == t[i]);
                assert(w[i + 2] == t[i + 1]);
                assert(counts_pages(w, i + 1, n as nat));
            }
        }
    }
}

} // verus!
