//! Splitting passages so that an embedding model takes them, and attaching the
//! embeddings it gives.

use vstd::prelude::*;
use vstd::string::StringExecFns;

use crate::models::{chunk_views, copy_bits, Chunk, ChunkView};
use crate::text::{
    ascii_lower, char_count, contains, decimal, decimal_string, has, is_free_of,
    is_whitespace, is_word, join, joined, pieces_of_words, split, to_ascii_lower, views,
    words, CharClass,
};

verus! {

/// The number of tokens that an embedding model takes for sure.
pub const SAFE_EMBEDDING_TOKENS: usize = 420;

/// Whoever computes embeddings; each component is the bits of a single-precision
/// number, and an error is given in words.
pub trait EmbeddingProvider {
    fn embed_documents(&self, texts: &Vec<String>) -> Result<Vec<Vec<u32>>, String>;

    fn embed_query(&self, query: &str) -> Result<Vec<u32>, String>;
}

pub const DOCUMENT_PREFIX: &'static str = "search_document: ";

pub const QUERY_PREFIX: &'static str = "search_query: ";

/// A passage as the embedding model takes it.
pub fn document_input(text: &str) -> (r: String)
    ensures
        r@ == DOCUMENT_PREFIX@ + text@,
{
    let mut r = DOCUMENT_PREFIX.to_owned();
    r.append(text);
    r
}

/// A question as the embedding model takes it.
pub fn query_input(query: &str) -> (r: String)
    ensures
        r@ == QUERY_PREFIX@ + query@,
{
    let mut r = QUERY_PREFIX.to_owned();
    r.append(query);
    r
}

/// No passage is ever taken for a question.
pub proof fn law_inputs_differ(text: Seq<char>, query: Seq<char>)
    ensures
        DOCUMENT_PREFIX@ + text != QUERY_PREFIX@ + query,
{
    reveal_strlit("search_document: ");
    reveal_strlit("search_query: ");
    assert((DOCUMENT_PREFIX@ + text)[7] == 'd');
    assert((QUERY_PREFIX@ + query)[7] == 'q');
}

// ----------------------------------------------------------------------- tokens

/// An estimate of the number of tokens: a third of the characters or three for two
/// words, whichever is more.
pub open spec fn tokens(s: Seq<char>) -> nat {
    let c = (s.len() + 2) / 3;
    let n = words(s, CharClass::White).len() * 3;
    let w = (n + 1) / 2;
    let most = if c < w {
        w
    } else {
        c
    };
    if most < 1 {
        1
    } else {
        most as nat
    }
}

/// An estimate of the number of tokens.
pub fn estimated_tokens(text: &str) -> (r: usize)
    ensures
        r == tokens(text@),
{
    let characters = char_count(text);
    let w = pieces_of_words(text, CharClass::White);
    proof {
        crate::text::lemma_word_count(text@, CharClass::White);
        assert(views(w@).len() == w@.len());
    }
    let by_chars: u128 = (characters as u128 + 2) / 3;
    let by_words: u128 = (w.len() as u128 * 3 + 1) / 2;
    let most: u128 = if by_chars < by_words {
        by_words
    } else {
        by_chars
    };
    if most < 1 {
        1
    } else {
        most as usize
    }
}

// -------------------------------------------------------------------- splitting

/// Parts that are done, and the words of the one that is being made.
pub struct Splitting {
    pub parts: Seq<Seq<char>>,
    pub current: Seq<Seq<char>>,
    pub tokens: nat,
}

/// Ending the part that is being made.
pub open spec fn flushed(s: Splitting) -> Splitting {
    Splitting { parts: s.parts.push(join(s.current, " "@)), current: seq![], tokens: 0 }
}

/// The pieces of the first characters of a long word: those that are full, and the
/// one that is being made.
pub open spec fn char_pieces(w: Seq<char>, budget: nat) -> (Seq<Seq<char>>, Seq<char>)
    decreases w.len(),
{
    if w.len() == 0 {
        (seq![], seq![])
    } else {
        let before = char_pieces(w.drop_last(), budget);
        let piece = before.1.push(w.last());
        if tokens(piece) >= budget {
            (before.0.push(piece), seq![])
        } else {
            (before.0, piece)
        }
    }
}

/// The pieces of a long word.
pub open spec fn long_word_parts(w: Seq<char>, budget: nat) -> Seq<Seq<char>> {
    let p = char_pieces(w, budget);
    if p.1.len() > 0 {
        p.0.push(p.1)
    } else {
        p.0
    }
}

/// Taking in the next word: a part in which it does not fit is ended before, and a
/// word that fits in no part is cut into pieces.
pub open spec fn with_text_word(s: Splitting, w: Seq<char>, budget: nat) -> Splitting {
    let t = tokens(w);
    let s1 = if s.current.len() > 0 && s.tokens + t > budget {
        flushed(s)
    } else {
        s
    };
    if t > budget {
        Splitting { parts: s1.parts + long_word_parts(w, budget), ..s1 }
    } else {
        Splitting { current: s1.current.push(w), tokens: s1.tokens + t, ..s1 }
    }
}

/// Taking in words.
pub open spec fn with_text_words(ws: Seq<Seq<char>>, budget: nat) -> Splitting
    decreases ws.len(),
{
    if ws.len() == 0 {
        Splitting { parts: seq![], current: seq![], tokens: 0 }
    } else {
        with_text_word(with_text_words(ws.drop_last(), budget), ws.last(), budget)
    }
}

/// The budget for parts, at least one token.
pub open spec fn part_budget(token_budget: nat) -> nat {
    if token_budget < 1 {
        1
    } else {
        token_budget
    }
}

/// The parts of a text, each of as many words as the budget allows.
pub open spec fn text_parts(text: Seq<char>, token_budget: nat) -> Seq<Seq<char>> {
    let s = with_text_words(words(text, CharClass::White), part_budget(token_budget));
    if s.current.len() > 0 {
        s.parts.push(join(s.current, " "@))
    } else {
        s.parts
    }
}

fn pieces_of_long_word(w: &str, budget: usize) -> (r: Vec<String>)
    ensures
        views(r@) == long_word_parts(w@, budget as nat),
{
    let c = crate::text::chars(w);
    let mut full: Vec<String> = Vec::new();
    let mut piece = String::new();
    let mut i: usize = 0;
    assert(views(full@) =~= char_pieces(w@.take(0), budget as nat).0);
    assert(piece@ =~= char_pieces(w@.take(0), budget as nat).1);
    while i < c.len()
        invariant
            c@ == w@,
            i <= c.len(),
            (views(full@), piece@) == char_pieces(w@.take(i as int), budget as nat),
        decreases c.len() - i,
    {
        assert(w@.take(i + 1).drop_last() =~= w@.take(i as int));
        piece.push(c[i]);
        if estimated_tokens(piece.as_str()) >= budget {
            let ghost before = views(full@);
            full.push(piece);
            assert(views(full@) =~= before.push(piece@));
            piece = String::new();
        }
        i += 1;
    }
    assert(w@.take(i as int) =~= w@);
    if !piece.as_str().is_empty() {
        let ghost before = views(full@);
        full.push(piece);
        assert(views(full@) =~= before.push(piece@));
    }
    full
}

/// The parts of a text, each of as many words as the budget allows.
pub fn split_text_for_embedding(text: &str, token_budget: usize) -> (r: Vec<String>)
    ensures
        views(r@) == text_parts(text@, token_budget as nat),
{
    let budget: usize = if token_budget < 1 {
        1
    } else {
        token_budget
    };
    let w = pieces_of_words(text, CharClass::White);
    let ghost ws = words(text@, CharClass::White);
    let mut parts: Vec<String> = Vec::new();
    let mut current: Vec<String> = Vec::new();
    let mut used: usize = 0;
    let mut i: usize = 0;
    assert(views(parts@) =~= seq![]);
    assert(views(current@) =~= seq![]);
    while i < w.len()
        invariant
            i <= w.len(),
            ws == views(w@),
            used <= budget,
            with_text_words(ws.take(i as int), budget as nat) == (Splitting {
                parts: views(parts@),
                current: views(current@),
                tokens: used as nat,
            }),
        decreases w.len() - i,
    {
        assert(ws.take(i + 1).drop_last() =~= ws.take(i as int));
        assert(ws.take(i + 1).last() == w@[i as int]@);
        let t = estimated_tokens(w[i].as_str());
        assert(views(current@).len() == current@.len());
        if current.len() > 0 && (t > budget || used > budget - t) {
            let ghost before = views(parts@);
            let part = joined(&current, " ");
            parts.push(part);
            current = Vec::new();
            used = 0;
            proof {
                assert(views(parts@) =~= before.push(part@));
                assert(views(current@) =~= seq![]);
            }
        }
        if t > budget {
            let mut more = pieces_of_long_word(w[i].as_str(), budget);
            let ghost before = views(parts@);
            let ghost added = views(more@);
            parts.append(&mut more);
            assert(views(parts@) =~= before + added);
        } else {
            let ghost before = views(current@);
            current.push(w[i].clone());
            assert(views(current@) =~= before.push(w@[i as int]@));
            proof {
                if before.len() == 0 {
                    lemma_no_tokens(ws.take(i as int), budget as nat);
                }
            }
            used = used + t;
        }
        i += 1;
    }
    assert(ws.take(i as int) =~= ws);
    assert(views(current@).len() == current@.len());
    if current.len() > 0 {
        let ghost before = views(parts@);
        let part = joined(&current, " ");
        parts.push(part);
        assert(views(parts@) =~= before.push(part@));
    }
    parts
}

proof fn lemma_no_tokens(ws: Seq<Seq<char>>, budget: nat)
    ensures
        with_text_words(ws, budget).current.len() == 0 ==> with_text_words(ws, budget).tokens == 0,
    decreases ws.len(),
{
    if ws.len() > 0 {
        lemma_no_tokens(ws.drop_last(), budget);
    }
}

// ---------------------------------------------------------- splitting keeps text

/// The characters of a text that are no white space.
pub open spec fn letters(s: Seq<char>) -> Seq<char> {
    s.filter(|c: char| !is_whitespace(c))
}

/// Texts one after the other.
pub open spec fn concat(v: Seq<Seq<char>>) -> Seq<char>
    decreases v.len(),
{
    if v.len() == 0 {
        seq![]
    } else {
        concat(v.drop_last()) + v.last()
    }
}

/// The letters of texts, one after the other.
pub open spec fn all_letters(v: Seq<Seq<char>>) -> Seq<char>
    decreases v.len(),
{
    if v.len() == 0 {
        seq![]
    } else {
        all_letters(v.drop_last()) + letters(v.last())
    }
}

/// Every text is a word.
pub open spec fn are_words(v: Seq<Seq<char>>) -> bool {
    forall|i: int| 0 <= i < v.len() ==> is_word(#[trigger] v[i], CharClass::White)
}

/// Every text has a letter.
pub open spec fn have_letters(v: Seq<Seq<char>>) -> bool {
    forall|i: int| 0 <= i < v.len() ==> letters(#[trigger] v[i]).len() > 0
}

proof fn lemma_letters_add(a: Seq<char>, b: Seq<char>)
    ensures
        letters(a + b) == letters(a) + letters(b),
{
    Seq::filter_distributes_over_add(a, b, |c: char| !is_whitespace(c));
}

proof fn lemma_letters_free(s: Seq<char>)
    requires
        is_free_of(s, CharClass::White),
    ensures
        letters(s) == s,
    decreases s.len(),
{
    let keep = |c: char| !is_whitespace(c);
    reveal_with_fuel(Seq::filter, 2);
    if s.len() > 0 {
        assert(!CharClass::White.has(s[s.len() - 1]));
        assert forall|i: int| 0 <= i < s.drop_last().len() implies !CharClass::White.has(
            #[trigger] s.drop_last()[i],
        ) by {
            assert(s.drop_last()[i] == s[i]);
        }
        lemma_letters_free(s.drop_last());
        assert(s =~= s.drop_last().push(s.last()));
    }
}

proof fn lemma_concat_add(a: Seq<Seq<char>>, b: Seq<Seq<char>>)
    ensures
        concat(a + b) == concat(a) + concat(b),
    decreases b.len(),
{
    if b.len() == 0 {
        assert(a + b =~= a);
        assert(concat(a) + concat(b) =~= concat(a));
    } else {
        assert((a + b).drop_last() =~= a + b.drop_last());
        lemma_concat_add(a, b.drop_last());
        assert(concat(a) + concat(b.drop_last()) + b.last() =~= concat(a) + (concat(b.drop_last())
            + b.last()));
    }
}

pub proof fn lemma_all_letters_add(a: Seq<Seq<char>>, b: Seq<Seq<char>>)
    ensures
        all_letters(a + b) == all_letters(a) + all_letters(b),
    decreases b.len(),
{
    if b.len() == 0 {
        assert(a + b =~= a);
        assert(all_letters(a) + all_letters(b) =~= all_letters(a));
    } else {
        assert((a + b).drop_last() =~= a + b.drop_last());
        lemma_all_letters_add(a, b.drop_last());
        assert(all_letters(a) + all_letters(b.drop_last()) + letters(b.last()) =~= all_letters(a)
            + (all_letters(b.drop_last()) + letters(b.last())));
    }
}

proof fn lemma_all_letters_push(a: Seq<Seq<char>>, x: Seq<char>)
    ensures
        all_letters(a.push(x)) == all_letters(a) + letters(x),
{
    assert(a.push(x).drop_last() =~= a);
}

proof fn lemma_drop_words(v: Seq<Seq<char>>)
    requires
        are_words(v),
        v.len() > 0,
    ensures
        are_words(v.drop_last()),
        is_word(v.last(), CharClass::White),
{
    assert forall|i: int| 0 <= i < v.drop_last().len() implies is_word(
        #[trigger] v.drop_last()[i],
        CharClass::White,
    ) by {
        assert(v.drop_last()[i] == v[i]);
    }
    assert(is_word(v[v.len() - 1], CharClass::White));
}

proof fn lemma_letters_join(v: Seq<Seq<char>>)
    requires
        are_words(v),
    ensures
        letters(join(v, " "@)) == concat(v),
    decreases v.len(),
{
    reveal_strlit(" ");
    reveal_with_fuel(Seq::filter, 2);
    if v.len() == 1 {
        lemma_drop_words(v);
        lemma_letters_free(v[0]);
        assert(concat(v.drop_last()) + v.last() =~= v[0]);
    } else if v.len() > 1 {
        lemma_drop_words(v);
        let p = join(v.drop_last(), " "@);
        lemma_letters_join(v.drop_last());
        lemma_letters_free(v.last());
        lemma_letters_add(p + " "@, v.last());
        lemma_letters_add(p, " "@);
        assert(letters(" "@) =~= seq![]) by {
            assert(" "@.drop_last() =~= seq![]);
        }
        assert(letters(p) + letters(" "@) =~= letters(p));
    }
}

proof fn lemma_concat_nonempty(v: Seq<Seq<char>>)
    ensures
        concat(v.filter(|w: Seq<char>| w.len() > 0)) == concat(v),
    decreases v.len(),
{
    let keep = |w: Seq<char>| w.len() > 0;
    reveal_with_fuel(Seq::filter, 2);
    if v.len() > 0 {
        lemma_concat_nonempty(v.drop_last());
        let f = v.drop_last().filter(keep);
        if v.last().len() > 0 {
            assert(f.push(v.last()).drop_last() =~= f);
        } else {
            assert(concat(v.drop_last()) + v.last() =~= concat(v.drop_last()));
        }
    }
}

proof fn lemma_letters_split(s: Seq<char>)
    ensures
        letters(s) == concat(split(s, CharClass::White)),
    decreases s.len(),
{
    let k = CharClass::White;
    crate::text::lemma_span(s, k);
    let n = crate::text::span(s, k) as int;
    reveal_with_fuel(Seq::filter, 2);
    if n >= s.len() {
        assert(is_free_of(s, k));
        lemma_letters_free(s);
        let one = seq![s];
        assert(one.drop_last() =~= Seq::<Seq<char>>::empty());
        assert(concat(one.drop_last()) + s =~= s);
    } else {
        let head = s.take(n);
        let rest = s.skip(n + 1);
        lemma_letters_split(rest);
        assert(is_free_of(head, k)) by {
            assert forall|i: int| 0 <= i < head.len() implies !k.has(#[trigger] head[i]) by {
                assert(head[i] == s[i]);
            }
        }
        lemma_letters_free(head);
        let mid = seq![s[n]];
        assert(mid.drop_last() =~= Seq::<char>::empty());
        assert(letters(mid) =~= seq![]);
        assert(s =~= head + mid + rest);
        lemma_letters_add(head + mid, rest);
        lemma_letters_add(head, mid);
        let first = seq![head];
        assert(first.drop_last() =~= Seq::<Seq<char>>::empty());
        assert(concat(first.drop_last()) =~= seq![]);
        assert(concat(first) =~= head);
        lemma_concat_add(first, split(rest, k));
        assert(letters(head) + letters(mid) =~= head);
    }
}

proof fn lemma_char_pieces(w: Seq<char>, budget: nat)
    requires
        is_free_of(w, CharClass::White),
    ensures
        ({
            let p = char_pieces(w, budget);
            &&& all_letters(p.0) + p.1 == w
            &&& have_letters(p.0)
            &&& is_free_of(p.1, CharClass::White)
        }),
    decreases w.len(),
{
    if w.len() > 0 {
        let q = w.drop_last();
        assert(is_free_of(q, CharClass::White)) by {
            assert forall|i: int| 0 <= i < q.len() implies !CharClass::White.has(#[trigger] q[i]) by {
                assert(q[i] == w[i]);
            }
        }
        lemma_char_pieces(q, budget);
        let before = char_pieces(q, budget);
        let piece = before.1.push(w.last());
        assert(!CharClass::White.has(w[w.len() - 1]));
        assert(is_free_of(piece, CharClass::White)) by {
            assert forall|i: int| 0 <= i < piece.len() implies !CharClass::White.has(
                #[trigger] piece[i],
            ) by {
                if i < before.1.len() {
                    assert(piece[i] == before.1[i]);
                }
            }
        }
        lemma_letters_free(piece);
        lemma_all_letters_push(before.0, piece);
        assert(all_letters(before.0) + piece =~= (all_letters(before.0) + before.1).push(w.last()));
        assert(q.push(w.last()) =~= w);
        let p = char_pieces(w, budget);
        if tokens(piece) >= budget {
            assert(all_letters(p.0) + p.1 =~= w);
            assert(have_letters(p.0)) by {
                assert forall|i: int| 0 <= i < p.0.len() implies letters(#[trigger] p.0[i]).len()
                    > 0 by {
                    if i < before.0.len() {
                        assert(p.0[i] == before.0[i]);
                    }
                }
            }
        }
    } else {
        assert(all_letters(char_pieces(w, budget).0) + char_pieces(w, budget).1 =~= w);
    }
}

proof fn lemma_long_word_parts(w: Seq<char>, budget: nat)
    requires
        is_free_of(w, CharClass::White),
    ensures
        all_letters(long_word_parts(w, budget)) == w,
        have_letters(long_word_parts(w, budget)),
{
    let p = char_pieces(w, budget);
    lemma_char_pieces(w, budget);
    lemma_letters_free(p.1);
    lemma_all_letters_push(p.0, p.1);
    let r = long_word_parts(w, budget);
    assert(all_letters(r) =~= w);
    assert forall|i: int| 0 <= i < r.len() implies letters(#[trigger] r[i]).len() > 0 by {
        if i < p.0.len() {
            assert(r[i] == p.0[i]);
        }
    }
}

proof fn lemma_flushed(s: Splitting)
    requires
        are_words(s.current),
        s.current.len() > 0,
        have_letters(s.parts),
    ensures
        all_letters(flushed(s).parts) == all_letters(s.parts) + concat(s.current),
        have_letters(flushed(s).parts),
{
    let part = join(s.current, " "@);
    lemma_letters_join(s.current);
    lemma_all_letters_push(s.parts, part);
    lemma_drop_words(s.current);
    assert(concat(s.current).len() > 0);
    let p = flushed(s).parts;
    assert forall|i: int| 0 <= i < p.len() implies letters(#[trigger] p[i]).len() > 0 by {
        if i < s.parts.len() {
            assert(p[i] == s.parts[i]);
        }
    }
}

proof fn lemma_text_words(ws: Seq<Seq<char>>, budget: nat)
    requires
        are_words(ws),
    ensures
        ({
            let s = with_text_words(ws, budget);
            &&& are_words(s.current)
            &&& have_letters(s.parts)
            &&& all_letters(s.parts) + concat(s.current) == concat(ws)
        }),
    decreases ws.len(),
{
    if ws.len() == 0 {
        let s = with_text_words(ws, budget);
        assert(all_letters(s.parts) + concat(s.current) =~= concat(ws));
    } else {
        lemma_drop_words(ws);
        lemma_text_words(ws.drop_last(), budget);
        let s = with_text_words(ws.drop_last(), budget);
        let w = ws.last();
        let t = tokens(w);
        let s1 = if s.current.len() > 0 && s.tokens + t > budget {
            flushed(s)
        } else {
            s
        };
        if s.current.len() > 0 && s.tokens + t > budget {
            lemma_flushed(s);
            assert(all_letters(s1.parts) + concat(s1.current) =~= concat(ws.drop_last()));
        }
        let n = with_text_words(ws, budget);
        if t > budget {
            assert(s1.current.len() == 0);
            lemma_long_word_parts(w, budget);
            lemma_all_letters_add(s1.parts, long_word_parts(w, budget));
            assert(concat(s1.current) =~= seq![]);
            assert(all_letters(s1.parts) =~= concat(ws.drop_last()));
            assert(all_letters(n.parts) + concat(n.current) =~= concat(ws));
            assert(have_letters(n.parts)) by {
                assert forall|i: int| 0 <= i < n.parts.len() implies letters(
                    #[trigger] n.parts[i],
                ).len() > 0 by {
                    if i < s1.parts.len() {
                        assert(n.parts[i] == s1.parts[i]);
                    } else {
                        assert(n.parts[i] == long_word_parts(w, budget)[i - s1.parts.len()]);
                    }
                }
            }
        } else {
            assert(n.current.drop_last() =~= s1.current);
            assert(all_letters(n.parts) + concat(n.current) =~= all_letters(s1.parts) + concat(
                s1.current,
            ) + w);
            assert forall|i: int| 0 <= i < n.current.len() implies is_word(
                #[trigger] n.current[i],
                CharClass::White,
            ) by {
                if i < s1.current.len() {
                    assert(n.current[i] == s1.current[i]);
                }
            }
        }
    }
}

/// Splitting a text loses none of its letters and keeps their order, and no part is
/// without letters.
pub proof fn law_split_keeps_letters(text: Seq<char>, token_budget: nat)
    ensures
        all_letters(text_parts(text, token_budget)) == letters(text),
        have_letters(text_parts(text, token_budget)),
{
    let ws = words(text, CharClass::White);
    let budget = part_budget(token_budget);
    crate::text::lemma_words(text, CharClass::White);
    lemma_text_words(ws, budget);
    lemma_letters_split(text);
    lemma_concat_nonempty(split(text, CharClass::White));
    let s = with_text_words(ws, budget);
    if s.current.len() > 0 {
        lemma_flushed(s);
    } else {
        assert(all_letters(s.parts) + concat(s.current) =~= all_letters(s.parts));
    }
}

// -------------------------------------------------------------------- embedding

/// Why passages have no embeddings.
#[derive(Debug, PartialEq, Eq)]
pub enum EmbeddingError {
    /// The provider gave an error, in its words.
    Provider(String),
    /// The provider gave another number of embeddings.
    Count { expected: usize, received: usize },
}

impl EmbeddingError {
    pub open spec fn spec_message(self) -> Seq<char> {
        match self {
            EmbeddingError::Provider(text) => text@,
            EmbeddingError::Count { expected, received } => "Se esperaban "@ + decimal(
                expected as nat,
            ) + " embeddings y llegaron "@ + decimal(received as nat),
        }
    }

    /// The error in words.
    pub fn message(&self) -> (r: String)
        ensures
            r@ == self.spec_message(),
    {
        match self {
            EmbeddingError::Provider(text) => text.clone(),
            EmbeddingError::Count { expected, received } => {
                let mut r = "Se esperaban ".to_owned();
                r.append(decimal_string(*expected as u128).as_str());
                r.append(" embeddings y llegaron ");
                r.append(decimal_string(*received as u128).as_str());
                r
            },
        }
    }
}

/// The error, in small letters, says that the input has too many tokens.
pub open spec fn says_too_large(small: Seq<char>) -> bool {
    &&& contains(small, "input"@)
    &&& contains(small, "token"@)
    &&& contains(small, "too large"@) || contains(small, "maximum"@) || contains(small, "limit"@)
}

/// Whether the error says that the input has too many tokens.
pub fn input_tokens_are_too_large(message: &str) -> (r: bool)
    ensures
        r == says_too_large(ascii_lower(message@)),
{
    let small = to_ascii_lower(message);
    has(small.as_str(), "input") && has(small.as_str(), "token") && (has(
        small.as_str(),
        "too large",
    ) || has(small.as_str(), "maximum") || has(small.as_str(), "limit"))
}

/// The chunk with each of the contents in turn.
pub open spec fn with_contents(c: ChunkView, parts: Seq<Seq<char>>) -> Seq<ChunkView> {
    parts.map_values(|p: Seq<char>| ChunkView { content: p, ..c })
}

/// The parts of a chunk.
pub open spec fn chunk_parts(c: ChunkView, token_budget: nat) -> Seq<ChunkView> {
    with_contents(c, text_parts(c.content, token_budget))
}

/// The parts of a chunk.
pub fn split_chunk_for_embedding(chunk: &Chunk, token_budget: usize) -> (r: Vec<Chunk>)
    ensures
        chunk_views(r@) == chunk_parts(chunk@, token_budget as nat),
{
    let parts = split_text_for_embedding(chunk.content.as_str(), token_budget);
    let ghost want = chunk_parts(chunk@, token_budget as nat);
    let mut r: Vec<Chunk> = Vec::new();
    let mut i: usize = 0;
    while i < parts.len()
        invariant
            i <= parts.len(),
            want == with_contents(chunk@, views(parts@)),
            chunk_views(r@) == want.take(i as int),
        decreases parts.len() - i,
    {
        let ghost before = chunk_views(r@);
        let mut c = chunk.clone();
        c.content = parts[i].clone();
        r.push(c);
        assert(c@ == (ChunkView { content: parts@[i as int]@, ..chunk@ }));
        assert(chunk_views(r@) =~= before.push(c@));
        assert(chunk_views(r@) =~= want.take(i + 1));
        i += 1;
    }
    assert(want.take(i as int) =~= want);
    r
}

/// The parts of chunks, one chunk after the other.
pub open spec fn prepared(chunks: Seq<ChunkView>) -> Seq<ChunkView>
    decreases chunks.len(),
{
    if chunks.len() == 0 {
        seq![]
    } else {
        prepared(chunks.drop_last()) + chunk_parts(chunks.last(), SAFE_EMBEDDING_TOKENS as nat)
    }
}

/// Chunks in parts that an embedding model takes.
pub fn prepare_embedding_chunks(chunks: &Vec<Chunk>) -> (r: Vec<Chunk>)
    ensures
        chunk_views(r@) == prepared(chunk_views(chunks@)),
{
    let ghost all = chunk_views(chunks@);
    let mut r: Vec<Chunk> = Vec::new();
    let mut i: usize = 0;
    assert(chunk_views(r@) =~= prepared(all.take(0)));
    while i < chunks.len()
        invariant
            i <= chunks.len(),
            all == chunk_views(chunks@),
            chunk_views(r@) == prepared(all.take(i as int)),
        decreases chunks.len() - i,
    {
        assert(all.take(i + 1).drop_last() =~= all.take(i as int));
        let ghost before = chunk_views(r@);
        let mut parts = split_chunk_for_embedding(&chunks[i], SAFE_EMBEDDING_TOKENS);
        let ghost added = chunk_views(parts@);
        r.append(&mut parts);
        assert(chunk_views(r@) =~= before + added);
        i += 1;
    }
    assert(all.take(i as int) =~= all);
    r
}

/// The contents of chunks.
pub open spec fn chunk_contents(chunks: Seq<ChunkView>) -> Seq<Seq<char>> {
    chunks.map_values(|c: ChunkView| c.content)
}

fn contents_of_chunks(chunks: &Vec<Chunk>) -> (r: Vec<String>)
    ensures
        views(r@) == chunk_contents(chunk_views(chunks@)),
{
    let ghost want = chunk_contents(chunk_views(chunks@));
    let mut r: Vec<String> = Vec::new();
    let mut i: usize = 0;
    while i < chunks.len()
        invariant
            i <= chunks.len(),
            want == chunk_contents(chunk_views(chunks@)),
            views(r@) == want.take(i as int),
        decreases chunks.len() - i,
    {
        let ghost before = views(r@);
        let s = chunks[i].content.clone();
        r.push(s);
        assert(views(r@) =~= before.push(s@));
        assert(views(r@) =~= want.take(i + 1));
        i += 1;
    }
    assert(want.take(i as int) =~= want);
    r
}

/// The chunks with their embeddings, where there is one for each.
pub fn attach_embeddings(chunks: Vec<Chunk>, vectors: &Vec<Vec<u32>>) -> (r: Result<
    Vec<Chunk>,
    EmbeddingError,
>)
    ensures
        match r {
            Ok(v) => vectors@.len() == chunks@.len() && v@.len() == chunks@.len() && forall|i: int|
                0 <= i < chunks@.len() ==> (#[trigger] v@[i])@ == (ChunkView {
                    embedding: vectors@[i]@,
                    ..chunks@[i]@
                }),
            Err(e) => vectors@.len() != chunks@.len() && e == (EmbeddingError::Count {
                expected: chunks@.len() as usize,
                received: vectors@.len() as usize,
            }),
        },
{
    if vectors.len() != chunks.len() {
        return Err(EmbeddingError::Count { expected: chunks.len(), received: vectors.len() });
    }
    let mut r: Vec<Chunk> = Vec::new();
    let mut i: usize = 0;
    while i < chunks.len()
        invariant
            i <= chunks.len() == vectors.len(),
            r.len() == i,
            forall|j: int|
                0 <= j < i ==> (#[trigger] r@[j])@ == (ChunkView {
                    embedding: vectors@[j]@,
                    ..chunks@[j]@
                }),
        decreases chunks.len() - i,
    {
        let mut c = chunks[i].clone();
        c.embedding = copy_bits(&vectors[i]);
        r.push(c);
        i += 1;
    }
    Ok(r)
}

/// What to do when the provider has given an error.
pub enum Retry {
    /// Give up.
    GiveUp,
    /// Embed the parts of the only chunk.
    Smaller(Vec<Chunk>),
    /// Embed the chunks in two halves.
    Halves(Vec<Chunk>, Vec<Chunk>),
}

/// The size of the first of two halves, the greater where they differ.
pub open spec fn first_half(n: int) -> int {
    (n + 1) / 2
}

/// The parts of a chunk with about half of its tokens each.
pub open spec fn smaller_parts(c: ChunkView) -> Seq<ChunkView> {
    chunk_parts(c, ((tokens(c.content) + 1) / 2) as nat)
}

/// What to do when the provider has given an error: only if that says that the
/// input is too large, try with less at a time, and give up where one chunk cannot
/// be split any further.
pub fn plan_retry(chunks: &Vec<Chunk>, error: &str) -> (r: Retry)
    requires
        chunks@.len() > 0,
    ensures
        ({
            let all = chunk_views(chunks@);
            let large = says_too_large(ascii_lower(error@));
            if large && all.len() > 1 {
                r matches Retry::Halves(a, b) && chunk_views(a@) == all.take(
                    first_half(all.len() as int),
                ) && chunk_views(b@) == all.skip(first_half(all.len() as int))
            } else if large && smaller_parts(all[0]).len() > 1 {
                r matches Retry::Smaller(p) && chunk_views(p@) == smaller_parts(all[0])
            } else {
                r is GiveUp
            }
        }),
{
    let ghost all = chunk_views(chunks@);
    assert(all.len() == chunks@.len());
    if !input_tokens_are_too_large(error) {
        return Retry::GiveUp;
    }
    if chunks.len() == 1 {
        assert(all[0] == chunks@[0]@);
        let estimate = estimated_tokens(chunks[0].content.as_str());
        let half: usize = if estimate % 2 == 0 {
            estimate / 2
        } else {
            estimate / 2 + 1
        };
        assert(half == (tokens(all[0].content) + 1) / 2);
        let parts = split_chunk_for_embedding(&chunks[0], half);
        assert(chunk_views(parts@).len() == parts@.len());
        if parts.len() <= 1 {
            return Retry::GiveUp;
        }
        return Retry::Smaller(parts);
    }
    let half: usize = if chunks.len() % 2 == 0 {
        chunks.len() / 2
    } else {
        chunks.len() / 2 + 1
    };
    assert(half == first_half(all.len() as int));
    let left = copy_range(chunks, 0, half);
    let right = copy_range(chunks, half, chunks.len());
    assert(all.subrange(0, half as int) =~= all.take(half as int));
    assert(all.subrange(half as int, all.len() as int) =~= all.skip(half as int));
    Retry::Halves(left, right)
}

fn copy_range(chunks: &Vec<Chunk>, from: usize, to: usize) -> (r: Vec<Chunk>)
    requires
        from <= to <= chunks@.len(),
    ensures
        chunk_views(r@) == chunk_views(chunks@).subrange(from as int, to as int),
{
    let ghost all = chunk_views(chunks@);
    let mut r: Vec<Chunk> = Vec::new();
    let mut i: usize = from;
    while i < to
        invariant
            from <= i <= to <= chunks.len(),
            all == chunk_views(chunks@),
            chunk_views(r@) == all.subrange(from as int, i as int),
        decreases to - i,
    {
        let ghost before = chunk_views(r@);
        let c = chunks[i].clone();
        r.push(c);
        assert(chunk_views(r@) =~= before.push(c@));
        assert(chunk_views(r@) =~= all.subrange(from as int, i + 1));
        i += 1;
    }
    r
}

/// The letters of the contents of chunks.
pub open spec fn chunk_letters(chunks: Seq<ChunkView>) -> Seq<char> {
    all_letters(chunk_contents(chunks))
}

/// The two differ in nothing but content and embedding.
pub open spec fn same_place(a: ChunkView, b: ChunkView) -> bool {
    a == (ChunkView { content: a.content, embedding: a.embedding, ..b })
}

/// What one chunk can be cut into: each part stands where the chunk does, and together
/// they have its letters, in their order.
pub open spec fn is_part_of(parts: Seq<ChunkView>, c: ChunkView) -> bool {
    &&& forall|i: int| 0 <= i < parts.len() ==> same_place(#[trigger] parts[i], c)
    &&& chunk_letters(parts) == letters(c.content)
}

/// What chunks can be cut into: the parts of the first, then those of the second, and
/// so on.
pub open spec fn is_cut_of(v: Seq<ChunkView>, chunks: Seq<ChunkView>) -> bool
    decreases chunks.len(),
{
    if chunks.len() == 0 {
        v.len() == 0
    } else {
        exists|n: int|
            0 <= n <= v.len() && is_cut_of(v.take(n), chunks.drop_last()) && is_part_of(
                #[trigger] v.skip(n),
                chunks.last(),
            )
    }
}

proof fn lemma_cut_push(v: Seq<ChunkView>, chunks: Seq<ChunkView>, parts: Seq<ChunkView>, c: ChunkView)
    requires
        is_cut_of(v, chunks),
        is_part_of(parts, c),
    ensures
        is_cut_of(v + parts, chunks.push(c)),
{
    let w = v + parts;
    let n = v.len() as int;
    assert(w.take(n) =~= v);
    assert(w.skip(n) =~= parts);
    assert(chunks.push(c).drop_last() =~= chunks);
    assert(is_part_of(w.skip(n), chunks.push(c).last()));
}

/// The cuts of two lists, one behind the other, are a cut of both lists.
pub proof fn lemma_cut_add(v: Seq<ChunkView>, a: Seq<ChunkView>, w: Seq<ChunkView>, b: Seq<ChunkView>)
    requires
        is_cut_of(v, a),
        is_cut_of(w, b),
    ensures
        is_cut_of(v + w, a + b),
    decreases b.len(),
{
    if b.len() == 0 {
        assert(v + w =~= v);
        assert(a + b =~= a);
    } else {
        let n = choose|n: int|
            0 <= n <= w.len() && is_cut_of(w.take(n), b.drop_last()) && is_part_of(
                #[trigger] w.skip(n),
                b.last(),
            );
        lemma_cut_add(v, a, w.take(n), b.drop_last());
        lemma_cut_push(v + w.take(n), a + b.drop_last(), w.skip(n), b.last());
        assert((v + w.take(n)) + w.skip(n) =~= v + w);
        assert((a + b.drop_last()).push(b.last()) =~= a + b);
    }
}

proof fn lemma_cut_split(v: Seq<ChunkView>, a: Seq<ChunkView>, b: Seq<ChunkView>) -> (m: int)
    requires
        is_cut_of(v, a + b),
    ensures
        0 <= m <= v.len(),
        is_cut_of(v.take(m), a),
        is_cut_of(v.skip(m), b),
    decreases b.len(),
{
    if b.len() == 0 {
        assert(a + b =~= a);
        assert(v.take(v.len() as int) =~= v);
        v.len() as int
    } else {
        let both = a + b;
        assert(both.drop_last() =~= a + b.drop_last());
        assert(both.last() == b.last());
        let n = choose|n: int|
            0 <= n <= v.len() && is_cut_of(v.take(n), both.drop_last()) && is_part_of(
                #[trigger] v.skip(n),
                both.last(),
            );
        let m = lemma_cut_split(v.take(n), a, b.drop_last());
        assert(v.take(n).take(m) =~= v.take(m));
        lemma_cut_push(v.take(n).skip(m), b.drop_last(), v.skip(n), b.last());
        assert(v.take(n).skip(m) + v.skip(n) =~= v.skip(m));
        assert(b.drop_last().push(b.last()) =~= b);
        m
    }
}

/// Cutting loses no letter, keeps the order of the letters, and puts every part where
/// a chunk stood.
pub proof fn law_cut_keeps_letters(v: Seq<ChunkView>, chunks: Seq<ChunkView>)
    requires
        is_cut_of(v, chunks),
    ensures
        chunk_letters(v) == chunk_letters(chunks),
        forall|i: int| 0 <= i < v.len() ==> exists|j: int|
            0 <= j < chunks.len() && same_place(#[trigger] v[i], #[trigger] chunks[j]),
    decreases chunks.len(),
{
    if chunks.len() == 0 {
        assert(chunk_contents(v) =~= chunk_contents(chunks));
    } else {
        let n = choose|n: int|
            0 <= n <= v.len() && is_cut_of(v.take(n), chunks.drop_last()) && is_part_of(
                #[trigger] v.skip(n),
                chunks.last(),
            );
        let p = chunks.drop_last();
        law_cut_keeps_letters(v.take(n), p);
        assert(v.take(n) + v.skip(n) =~= v);
        lemma_contents_add(v.take(n), v.skip(n));
        assert(chunk_contents(chunks).drop_last() =~= chunk_contents(p));
        assert forall|i: int| 0 <= i < v.len() implies exists|j: int|
            0 <= j < chunks.len() && same_place(#[trigger] v[i], #[trigger] chunks[j]) by {
            if i < n {
                assert(v.take(n)[i] == v[i]);
                let j = choose|j: int| 0 <= j < p.len() && same_place(v.take(n)[i], #[trigger] p[j]);
                assert(chunks[j] == p[j]);
                assert(same_place(v[i], chunks[j]));
            } else {
                assert(v.skip(n)[i - n] == v[i]);
                assert(same_place(v[i], chunks[chunks.len() - 1]));
            }
        }
    }
}

/// To cut the parts once more is to cut the chunks.
pub proof fn law_cut_of_cut(v: Seq<ChunkView>, w: Seq<ChunkView>, chunks: Seq<ChunkView>)
    requires
        is_cut_of(v, w),
        is_cut_of(w, chunks),
    ensures
        is_cut_of(v, chunks),
    decreases chunks.len(),
{
    if chunks.len() > 0 {
        let n = choose|n: int|
            0 <= n <= w.len() && is_cut_of(w.take(n), chunks.drop_last()) && is_part_of(
                #[trigger] w.skip(n),
                chunks.last(),
            );
        let x = w.take(n);
        let y = w.skip(n);
        assert(x + y =~= w);
        let m = lemma_cut_split(v, x, y);
        law_cut_of_cut(v.take(m), x, chunks.drop_last());
        law_cut_keeps_letters(v.skip(m), y);
        let rest = v.skip(m);
        assert forall|i: int| 0 <= i < rest.len() implies same_place(
            #[trigger] rest[i],
            chunks.last(),
        ) by {
            let j = choose|j: int| 0 <= j < y.len() && same_place(rest[i], #[trigger] y[j]);
            assert(same_place(y[j], chunks.last()));
        }
        assert(is_part_of(v.skip(m), chunks.last()));
    }
}

/// Chunks with other embeddings are a cut of the chunks.
proof fn lemma_cut_alike(v: Seq<ChunkView>, chunks: Seq<ChunkView>)
    requires
        v.len() == chunks.len(),
        forall|i: int|
            0 <= i < v.len() ==> #[trigger] v[i] == (ChunkView {
                embedding: v[i].embedding,
                ..chunks[i]
            }),
    ensures
        is_cut_of(v, chunks),
    decreases chunks.len(),
{
    if chunks.len() > 0 {
        let n = v.len() - 1;
        lemma_cut_alike(v.take(n), chunks.drop_last());
        let one = v.skip(n);
        assert(one =~= seq![v[n]]);
        assert(v[n] == (ChunkView { embedding: v[n].embedding, ..chunks[n] }));
        lemma_one_letters(one);
        assert(is_part_of(v.skip(n), chunks.last()));
    }
}

proof fn lemma_one_letters(one: Seq<ChunkView>)
    requires
        one.len() == 1,
    ensures
        chunk_letters(one) == letters(one[0].content),
{
    let c = chunk_contents(one);
    assert(c.drop_last() =~= seq![]);
    assert(all_letters(c.drop_last()) =~= seq![]);
    assert(c.last() == one[0].content);
    assert(all_letters(c) =~= letters(one[0].content));
}

proof fn lemma_contents_with(c: ChunkView, parts: Seq<Seq<char>>)
    ensures
        chunk_contents(with_contents(c, parts)) == parts,
{
    assert(chunk_contents(with_contents(c, parts)) =~= parts);
}

proof fn lemma_chunk_parts(c: ChunkView, token_budget: nat)
    ensures
        chunk_letters(chunk_parts(c, token_budget)) == letters(c.content),
        have_letters(chunk_contents(chunk_parts(c, token_budget))),
        is_part_of(chunk_parts(c, token_budget), c),
{
    law_split_keeps_letters(c.content, token_budget);
    lemma_contents_with(c, text_parts(c.content, token_budget));
}

proof fn lemma_contents_add(a: Seq<ChunkView>, b: Seq<ChunkView>)
    ensures
        chunk_contents(a + b) == chunk_contents(a) + chunk_contents(b),
        chunk_letters(a + b) == chunk_letters(a) + chunk_letters(b),
{
    assert(chunk_contents(a + b) =~= chunk_contents(a) + chunk_contents(b));
    lemma_all_letters_add(chunk_contents(a), chunk_contents(b));
}

/// Preparing chunks cuts them: no letter is lost, their order stays, and every part
/// keeps the place of its chunk. No part is without letters.
pub proof fn law_prepared_keeps_letters(chunks: Seq<ChunkView>)
    ensures
        is_cut_of(prepared(chunks), chunks),
        chunk_letters(prepared(chunks)) == chunk_letters(chunks),
        have_letters(chunk_contents(prepared(chunks))),
    decreases chunks.len(),
{
    if chunks.len() > 0 {
        let p = chunks.drop_last();
        let last = chunks.last();
        law_prepared_keeps_letters(p);
        let a = prepared(p);
        let b = chunk_parts(last, SAFE_EMBEDDING_TOKENS as nat);
        lemma_chunk_parts(last, SAFE_EMBEDDING_TOKENS as nat);
        lemma_contents_add(a, b);
        lemma_cut_push(a, p, b, last);
        assert(p.push(last) =~= chunks);
        let r = prepared(chunks);
        let rc = chunk_contents(r);
        assert forall|i: int| 0 <= i < rc.len() implies letters(#[trigger] rc[i]).len() > 0 by {
            if i < a.len() {
                assert(rc[i] == chunk_contents(a)[i]);
            } else {
                assert(rc[i] == chunk_contents(b)[i - a.len()]);
            }
        }
    }
    law_cut_keeps_letters(prepared(chunks), chunks);
}

proof fn lemma_letters_needed(chunks: Seq<ChunkView>)
    requires
        chunks.len() > 0,
        have_letters(chunk_contents(chunks)),
    ensures
        chunk_letters(chunks).len() > 0,
{
    let c = chunk_contents(chunks);
    assert(letters(c[c.len() - 1]).len() > 0);
    assert(all_letters(c).len() >= letters(c.last()).len());
}

proof fn lemma_have_letters_part(chunks: Seq<ChunkView>, part: Seq<ChunkView>)
    requires
        have_letters(chunk_contents(chunks)),
        forall|i: int| 0 <= i < part.len() ==> chunks.contains(#[trigger] part[i]),
    ensures
        have_letters(chunk_contents(part)),
{
    let pc = chunk_contents(part);
    assert forall|i: int| 0 <= i < pc.len() implies letters(#[trigger] pc[i]).len() > 0 by {
        assert(chunks.contains(part[i]));
        let j = choose|j: int| 0 <= j < chunks.len() && chunks[j] == part[i];
        assert(chunk_contents(chunks)[j] == pc[i]);
    }
}

proof fn lemma_prepared_count(chunks: Seq<ChunkView>)
    requires
        have_letters(chunk_contents(chunks)),
    ensures
        prepared(chunks).len() >= chunks.len(),
    decreases chunks.len(),
{
    if chunks.len() > 0 {
        let p = chunks.drop_last();
        assert forall|i: int| 0 <= i < p.len() implies chunks.contains(#[trigger] p[i]) by {
            assert(chunks[i] == p[i]);
        }
        lemma_have_letters_part(chunks, p);
        lemma_prepared_count(p);
        let last = chunks.last();
        let b = chunk_parts(last, SAFE_EMBEDDING_TOKENS as nat);
        lemma_chunk_parts(last, SAFE_EMBEDDING_TOKENS as nat);
        let c = chunk_contents(chunks);
        assert(letters(c[c.len() - 1]).len() > 0);
        assert(b.len() > 0) by {
            if b.len() == 0 {
                assert(chunk_contents(b).len() == 0);
                assert(chunk_letters(b).len() == 0);
            }
        }
    }
}

/// A measure of the work that is left: the letters, and whether they are all in one
/// part.
pub open spec fn one_part(chunks: Seq<ChunkView>) -> nat {
    if prepared(chunks).len() == 1 {
        1
    } else {
        0
    }
}

// ------------------------------------------------------------ what a provider gives

/// What comes of embedding chunks.
pub enum Embedded {
    /// The parts with their embeddings.
    Done(Seq<ChunkView>),
    /// The reason why there are none.
    Failed(EmbeddingError),
}

/// What came of embedding chunks.
pub open spec fn embedded(r: Result<Vec<Chunk>, EmbeddingError>) -> Embedded {
    match r {
        Ok(v) => Embedded::Done(chunk_views(v@)),
        Err(e) => Embedded::Failed(e),
    }
}

/// The provider can answer so when it is asked for the embeddings of texts.
pub open spec fn may_answer<P: EmbeddingProvider>(
    provider: P,
    texts: Seq<Seq<char>>,
    answer: Result<Vec<Vec<u32>>, String>,
) -> bool {
    exists|inputs: Vec<String>|
        views(inputs@) == texts && #[trigger] call_ensures(
            P::embed_documents,
            (&provider, &inputs),
            answer,
        )
}

/// The provider can give this embedding for this text: it stands in one of its answers
/// where the text stands in the question.
pub open spec fn may_give<P: EmbeddingProvider>(
    provider: P,
    text: Seq<char>,
    embedding: Seq<u32>,
) -> bool {
    exists|texts: Seq<Seq<char>>, vectors: Vec<Vec<u32>>, i: int|
        #[trigger] may_answer(provider, texts, Ok(vectors)) && 0 <= i < texts.len()
            && texts.len() == vectors@.len() && texts[i] == text && (#[trigger] vectors@[i])@
            == embedding
}

/// The chunks with their embeddings, where there is one for each.
pub open spec fn attached(chunks: Seq<ChunkView>, vectors: Seq<Vec<u32>>) -> Embedded {
    if vectors.len() == chunks.len() {
        Embedded::Done(
            Seq::new(
                chunks.len(),
                |i: int| ChunkView { embedding: vectors[i]@, ..chunks[i] },
            ),
        )
    } else {
        Embedded::Failed(
            EmbeddingError::Count {
                expected: chunks.len() as usize,
                received: vectors.len() as usize,
            },
        )
    }
}

/// What came of a second half, behind the parts of the first.
pub open spec fn behind(first: Seq<ChunkView>, second: Embedded) -> Embedded {
    match second {
        Embedded::Failed(_) => second,
        Embedded::Done(v) => Embedded::Done(first + v),
    }
}

/// What can come of an answer to the question for parts, when at most so many further
/// questions in a row are answered by saying that they are too large. Parts that are too
/// large are asked for in two halves, the second only after the first is there, and a
/// single one in smaller parts.
pub open spec fn embeds_after<P: EmbeddingProvider>(
    provider: P,
    parts: Seq<ChunkView>,
    depth: nat,
    answer: Result<Vec<Vec<u32>>, String>,
    out: Embedded,
) -> bool
    decreases depth, 0nat,
{
    match answer {
        Ok(vectors) => out == attached(parts, vectors@),
        Err(error) => {
            let large = says_too_large(ascii_lower(error@));
            let half = first_half(parts.len() as int);
            if large && parts.len() > 1 {
                depth > 0 && {
                    let d = (depth - 1) as nat;
                    ||| out is Failed && embeds_within(provider, parts.take(half), d, out)
                    ||| exists|a: Seq<ChunkView>, second: Embedded|
                        {
                            &&& embeds_within(provider, parts.take(half), d, Embedded::Done(a))
                            &&& embeds_within(provider, parts.skip(half), d, second)
                            &&& out == #[trigger] behind(a, second)
                        }
                }
            } else if large && smaller_parts(parts[0]).len() > 1 {
                depth > 0 && embeds_within(
                    provider,
                    smaller_parts(parts[0]),
                    (depth - 1) as nat,
                    out,
                )
            } else {
                out == Embedded::Failed(EmbeddingError::Provider(error))
            }
        },
    }
}

/// What can come of embedding chunks when at most so many questions in a row are
/// answered by saying that they are too large: the prepared parts are asked for.
pub open spec fn embeds_within<P: EmbeddingProvider>(
    provider: P,
    chunks: Seq<ChunkView>,
    depth: nat,
    out: Embedded,
) -> bool
    decreases depth, 1nat,
{
    let parts = prepared(chunks);
    if parts.len() == 0 {
        out == Embedded::Done(seq![])
    } else {
        exists|answer: Result<Vec<Vec<u32>>, String>|
            #[trigger] may_answer(provider, chunk_contents(parts), answer) && embeds_after(
                provider,
                parts,
                depth,
                answer,
                out,
            )
    }
}

/// What can come of embedding chunks.
pub open spec fn may_embed<P: EmbeddingProvider>(
    provider: P,
    chunks: Seq<ChunkView>,
    out: Embedded,
) -> bool {
    exists|depth: nat| embeds_within(provider, chunks, depth, out)
}

proof fn lemma_deeper<P: EmbeddingProvider>(
    provider: P,
    chunks: Seq<ChunkView>,
    depth: nat,
    more: nat,
    out: Embedded,
)
    requires
        embeds_within(provider, chunks, depth, out),
        depth <= more,
    ensures
        embeds_within(provider, chunks, more, out),
    decreases depth,
{
    let parts = prepared(chunks);
    if parts.len() > 0 {
        let answer = choose|answer: Result<Vec<Vec<u32>>, String>|
            #[trigger] may_answer(provider, chunk_contents(parts), answer) && embeds_after(
                provider,
                parts,
                depth,
                answer,
                out,
            );
        if depth > 0 {
            let d = (depth - 1) as nat;
            let m = (more - 1) as nat;
            let half = first_half(parts.len() as int);
            assert(embeds_after(provider, parts, depth, answer, out));
            if answer is Err && says_too_large(ascii_lower(answer->Err_0@)) {
                if parts.len() > 1 {
                    if out is Failed && embeds_within(provider, parts.take(half), d, out) {
                        lemma_deeper(provider, parts.take(half), d, m, out);
                    } else {
                        let (a, second) = choose|a: Seq<ChunkView>, second: Embedded| {
                            &&& embeds_within(provider, parts.take(half), d, Embedded::Done(a))
                            &&& embeds_within(provider, parts.skip(half), d, second)
                            &&& out == #[trigger] behind(a, second)
                        };
                        lemma_deeper(provider, parts.take(half), d, m, Embedded::Done(a));
                        lemma_deeper(provider, parts.skip(half), d, m, second);
                    }
                } else if smaller_parts(parts[0]).len() > 1 {
                    lemma_deeper(provider, smaller_parts(parts[0]), d, m, out);
                }
            }
        }
        assert(embeds_after(provider, parts, more, answer, out));
    }
}

proof fn lemma_embedded_is_a_cut<P: EmbeddingProvider>(
    provider: P,
    chunks: Seq<ChunkView>,
    depth: nat,
    v: Seq<ChunkView>,
)
    requires
        embeds_within(provider, chunks, depth, Embedded::Done(v)),
    ensures
        is_cut_of(v, chunks),
        forall|i: int|
            0 <= i < v.len() ==> may_give(provider, (#[trigger] v[i]).content, v[i].embedding),
    decreases depth,
{
    let parts = prepared(chunks);
    let out = Embedded::Done(v);
    law_prepared_keeps_letters(chunks);
    if parts.len() == 0 {
        assert(v =~= parts);
    } else {
        let texts = chunk_contents(parts);
        let answer = choose|answer: Result<Vec<Vec<u32>>, String>|
            #[trigger] may_answer(provider, texts, answer) && embeds_after(
                provider,
                parts,
                depth,
                answer,
                out,
            );
        assert(embeds_after(provider, parts, depth, answer, out));
        match answer {
            Ok(vectors) => {
                lemma_cut_alike(v, parts);
                law_cut_of_cut(v, parts, chunks);
                assert forall|i: int| 0 <= i < v.len() implies may_give(
                    provider,
                    (#[trigger] v[i]).content,
                    v[i].embedding,
                ) by {
                    assert(may_answer(provider, texts, Ok(vectors)));
                    assert(texts[i] == v[i].content);
                    assert(vectors@[i]@ == v[i].embedding);
                }
            },
            Err(error) => {
                let d = (depth - 1) as nat;
                if parts.len() > 1 {
                    let half = first_half(parts.len() as int);
                    let x = parts.take(half);
                    let y = parts.skip(half);
                    let (a, second) = choose|a: Seq<ChunkView>, second: Embedded|
                        {
                            &&& embeds_within(provider, x, d, Embedded::Done(a))
                            &&& embeds_within(provider, y, d, second)
                            &&& out == #[trigger] behind(a, second)
                        };
                    let b = second->Done_0;
                    lemma_embedded_is_a_cut(provider, x, d, a);
                    lemma_embedded_is_a_cut(provider, y, d, b);
                    lemma_cut_add(a, x, b, y);
                    assert(x + y =~= parts);
                    law_cut_of_cut(v, parts, chunks);
                    assert forall|i: int| 0 <= i < v.len() implies may_give(
                        provider,
                        (#[trigger] v[i]).content,
                        v[i].embedding,
                    ) by {
                        if i < a.len() {
                            assert(v[i] == a[i]);
                        } else {
                            assert(v[i] == b[i - a.len()]);
                        }
                    }
                } else {
                    let less = smaller_parts(parts[0]);
                    lemma_embedded_is_a_cut(provider, less, d, v);
                    lemma_smaller_is_a_cut(parts);
                    law_cut_of_cut(v, less, parts);
                    law_cut_of_cut(v, parts, chunks);
                }
            },
        }
    }
}

proof fn lemma_smaller_is_a_cut(parts: Seq<ChunkView>)
    requires
        parts.len() == 1,
    ensures
        is_cut_of(smaller_parts(parts[0]), parts),
        chunk_letters(smaller_parts(parts[0])) == chunk_letters(parts),
        have_letters(chunk_contents(smaller_parts(parts[0]))),
{
    let less = smaller_parts(parts[0]);
    lemma_chunk_parts(parts[0], ((tokens(parts[0].content) + 1) / 2) as nat);
    lemma_one_letters(parts);
    let none = Seq::<ChunkView>::empty();
    lemma_cut_push(none, none, less, parts[0]);
    assert(none + less =~= less);
    assert(none.push(parts[0]) =~= parts);
}

/// Whatever the provider answers: where there are embeddings, the parts that have them
/// are a cut of the chunks, and each has an embedding that the provider can give for it.
pub proof fn law_embedding_cuts_chunks<P: EmbeddingProvider>(
    provider: P,
    chunks: Seq<ChunkView>,
    v: Seq<ChunkView>,
)
    requires
        may_embed(provider, chunks, Embedded::Done(v)),
    ensures
        is_cut_of(v, chunks),
        forall|i: int|
            0 <= i < v.len() ==> may_give(provider, (#[trigger] v[i]).content, v[i].embedding),
{
    let depth = choose|depth: nat| embeds_within(provider, chunks, depth, Embedded::Done(v));
    lemma_embedded_is_a_cut(provider, chunks, depth, v);
}

/// What comes of an answer with embeddings.
proof fn lemma_embeds_at_once<P: EmbeddingProvider>(
    provider: P,
    chunks: Seq<ChunkView>,
    answer: Result<Vec<Vec<u32>>, String>,
    out: Embedded,
)
    requires
        prepared(chunks).len() > 0,
        may_answer(provider, chunk_contents(prepared(chunks)), answer),
        match answer {
            Ok(vectors) => out == attached(prepared(chunks), vectors@),
            Err(error) => {
                &&& out == Embedded::Failed(EmbeddingError::Provider(error))
                &&& !says_too_large(ascii_lower(error@)) || (prepared(chunks).len() == 1
                    && smaller_parts(prepared(chunks)[0]).len() <= 1)
            },
        },
    ensures
        may_embed(provider, chunks, out),
{
    assert(embeds_after(provider, prepared(chunks), 0, answer, out));
    assert(embeds_within(provider, chunks, 0, out));
}

/// What comes of embedding a single chunk in smaller parts.
proof fn lemma_embeds_smaller<P: EmbeddingProvider>(
    provider: P,
    chunks: Seq<ChunkView>,
    error: String,
    out: Embedded,
)
    requires
        prepared(chunks).len() == 1,
        may_answer(provider, chunk_contents(prepared(chunks)), Err(error)),
        says_too_large(ascii_lower(error@)),
        smaller_parts(prepared(chunks)[0]).len() > 1,
        may_embed(provider, smaller_parts(prepared(chunks)[0]), out),
    ensures
        may_embed(provider, chunks, out),
{
    let less = smaller_parts(prepared(chunks)[0]);
    let depth = choose|depth: nat| embeds_within(provider, less, depth, out);
    assert((depth + 1 - 1) as nat == depth);
    assert(embeds_after(provider, prepared(chunks), depth + 1, Err(error), out));
    assert(embeds_within(provider, chunks, depth + 1, out));
}

/// What comes of embedding chunks in halves.
proof fn lemma_embeds_halves<P: EmbeddingProvider>(
    provider: P,
    chunks: Seq<ChunkView>,
    error: String,
    first: Embedded,
    second: Embedded,
    out: Embedded,
)
    requires
        prepared(chunks).len() > 1,
        may_answer(provider, chunk_contents(prepared(chunks)), Err(error)),
        says_too_large(ascii_lower(error@)),
        ({
            let parts = prepared(chunks);
            let half = first_half(parts.len() as int);
            &&& may_embed(provider, parts.take(half), first)
            &&& match first {
                Embedded::Failed(_) => out == first,
                Embedded::Done(a) => may_embed(provider, parts.skip(half), second) && out
                    == behind(a, second),
            }
        }),
    ensures
        may_embed(provider, chunks, out),
{
    let parts = prepared(chunks);
    let half = first_half(parts.len() as int);
    let x = parts.take(half);
    let y = parts.skip(half);
    let d = choose|d: nat| embeds_within(provider, x, d, first);
    if first is Failed {
        assert((d + 1 - 1) as nat == d);
        assert(embeds_after(provider, parts, d + 1, Err(error), out));
        assert(embeds_within(provider, chunks, d + 1, out));
    } else {
        let e = choose|e: nat| embeds_within(provider, y, e, second);
        let m = if d < e {
            e
        } else {
            d
        };
        lemma_deeper(provider, x, d, m, first);
        lemma_deeper(provider, y, e, m, second);
        assert((m + 1 - 1) as nat == m);
        assert(first == Embedded::Done(first->Done_0));
        assert(out == behind(first->Done_0, second));
        assert(embeds_after(provider, parts, m + 1, Err(error), out));
        assert(embeds_within(provider, chunks, m + 1, out));
    }
}

proof fn lemma_outcome<P: EmbeddingProvider>(
    provider: P,
    given: Seq<ChunkView>,
    r: Result<Vec<Chunk>, EmbeddingError>,
)
    requires
        may_embed(provider, given, embedded(r)),
    ensures
        r matches Ok(v) ==> is_cut_of(chunk_views(v@), given) && forall|i: int|
            0 <= i < v@.len() ==> may_give(
                provider,
                (#[trigger] v@[i])@.content,
                v@[i]@.embedding,
            ),
        chunk_letters(given).len() == 0 ==> (r matches Ok(v) && v@.len() == 0),
{
    law_prepared_keeps_letters(given);
    match r {
        Ok(v) => {
            let got = chunk_views(v@);
            law_embedding_cuts_chunks(provider, given, got);
            assert forall|i: int| 0 <= i < v@.len() implies may_give(
                provider,
                (#[trigger] v@[i])@.content,
                v@[i]@.embedding,
            ) by {
                assert(got[i] == v@[i]@);
            }
            assert(got.len() == v@.len());
        },
        Err(_) => {},
    }
    if prepared(given).len() > 0 {
        lemma_letters_needed(prepared(given));
    } else {
        let depth = choose|depth: nat| embeds_within(provider, given, depth, embedded(r));
        assert(embedded(r) == Embedded::Done(seq![]));
    }
}

/// Embeds chunks, in parts where they are too long, and in ever smaller parts where
/// the provider says that they are too large. Chunks without letters need no provider.
pub fn embed_chunks_with_retry<P: EmbeddingProvider>(provider: &P, chunks: &Vec<Chunk>) -> (r:
    Result<Vec<Chunk>, EmbeddingError>)
    ensures
        may_embed(*provider, chunk_views(chunks@), embedded(r)),
        r matches Ok(v) ==> is_cut_of(chunk_views(v@), chunk_views(chunks@)) && forall|i: int|
            0 <= i < v@.len() ==> may_give(
                *provider,
                (#[trigger] v@[i])@.content,
                v@[i]@.embedding,
            ),
        chunk_letters(chunk_views(chunks@)).len() == 0 ==> (r matches Ok(v) && v@.len() == 0),
    decreases chunk_letters(chunk_views(chunks@)).len(), one_part(chunk_views(chunks@)),
{
    let ghost given = chunk_views(chunks@);
    let parts = prepare_embedding_chunks(chunks);
    let ghost all = chunk_views(parts@);
    proof {
        law_prepared_keeps_letters(given);
        assert(all.len() == parts@.len());
    }
    if parts.len() == 0 {
        proof {
            assert(all =~= seq![]);
            assert(embeds_within(*provider, given, 0, Embedded::Done(all)));
            lemma_outcome(*provider, given, Ok(parts));
        }
        return Ok(parts);
    }
    let inputs = contents_of_chunks(&parts);
    let answer = provider.embed_documents(&inputs);
    assert(may_answer(*provider, chunk_contents(all), answer));
    let r = match answer {
        Ok(vectors) => {
            let r = attach_embeddings(parts, &vectors);
            proof {
                if r is Ok {
                    let got = chunk_views(r->Ok_0@);
                    assert(attached(all, vectors@)->Done_0 =~= got);
                }
                lemma_embeds_at_once(*provider, given, Ok(vectors), embedded(r));
            }
            r
        },
        Err(error) => {
            match plan_retry(&parts, error.as_str()) {
                Retry::GiveUp => {
                    proof {
                        lemma_embeds_at_once(
                            *provider,
                            given,
                            Err(error),
                            Embedded::Failed(EmbeddingError::Provider(error)),
                        );
                    }
                    Err(EmbeddingError::Provider(error))
                },
                Retry::Smaller(smaller) => {
                    let ghost less = chunk_views(smaller@);
                    proof {
                        lemma_smaller_is_a_cut(all);
                        lemma_prepared_count(less);
                    }
                    let r = embed_chunks_with_retry(provider, &smaller);
                    proof {
                        lemma_embeds_smaller(*provider, given, error, embedded(r));
                    }
                    r
                },
                Retry::Halves(left, right) => {
                    let ghost a = chunk_views(left@);
                    let ghost b = chunk_views(right@);
                    proof {
                        assert(a + b =~= all);
                        lemma_contents_add(a, b);
                        assert forall|i: int| 0 <= i < a.len() implies all.contains(
                            #[trigger] a[i],
                        ) by {
                            assert(all[i] == a[i]);
                        }
                        assert forall|i: int| 0 <= i < b.len() implies all.contains(
                            #[trigger] b[i],
                        ) by {
                            assert(all[a.len() + i] == b[i]);
                        }
                        lemma_have_letters_part(all, a);
                        lemma_have_letters_part(all, b);
                        lemma_letters_needed(a);
                        lemma_letters_needed(b);
                    }
                    let first = embed_chunks_with_retry(provider, &left);
                    let ghost x = embedded(first);
                    match first {
                        Err(e) => {
                            proof {
                                lemma_embeds_halves(*provider, given, error, x, x, x);
                            }
                            Err(e)
                        },
                        Ok(mut v) => {
                            let second = embed_chunks_with_retry(provider, &right);
                            let ghost y = embedded(second);
                            match second {
                                Err(e) => {
                                    proof {
                                        lemma_embeds_halves(*provider, given, error, x, y, y);
                                    }
                                    Err(e)
                                },
                                Ok(mut w) => {
                                    let ghost before = chunk_views(v@);
                                    let ghost added = chunk_views(w@);
                                    v.append(&mut w);
                                    proof {
                                        assert(chunk_views(v@) =~= before + added);
                                        lemma_embeds_halves(
                                            *provider,
                                            given,
                                            error,
                                            x,
                                            y,
                                            Embedded::Done(before + added),
                                        );
                                    }
                                    Ok(v)
                                },
                            }
                        },
                    }
                },
            }
        },
    };
    proof {
        lemma_outcome(*provider, given, r);
    }
    r
}

// ---------------------------------------------------------------- parts that fit

/// An estimate of the tokens of words, each by itself.
pub open spec fn weight(ws: Seq<Seq<char>>) -> nat
    decreases ws.len(),
{
    if ws.len() == 0 {
        0
    } else {
        weight(ws.drop_last()) + tokens(ws.last())
    }
}

/// The estimate is the smallest number that is at least one, a third of the characters and
/// three for two words.
pub proof fn law_estimate(s: Seq<char>)
    ensures
        tokens(s) >= 1,
        3 * tokens(s) >= s.len(),
        2 * tokens(s) >= 3 * words(s, CharClass::White).len(),
        tokens(s) > 1 ==> 3 * (tokens(s) - 1) < s.len() || 2 * (tokens(s) - 1) < 3 * words(
            s,
            CharClass::White,
        ).len(),
{
}

proof fn lemma_one_word(w: Seq<char>)
    requires
        is_word(w, CharClass::White),
    ensures
        words(w, CharClass::White) == seq![w],
{
    let v = seq![w];
    reveal_strlit(" ");
    assert(CharClass::White.has(' '));
    crate::text::law_words_of_joined(v, ' ', CharClass::White);
    assert(join(v, seq![' ']) == w);
}

proof fn lemma_weight_one(w: Seq<char>)
    ensures
        weight(seq![w]) == tokens(w),
{
    assert(seq![w].drop_last() =~= Seq::<Seq<char>>::empty());
    assert(weight(seq![w].drop_last()) == 0);
}

/// The budget, or two tokens, which a single character takes.
pub open spec fn allowed(budget: nat) -> nat {
    if budget < 2 {
        2
    } else {
        budget
    }
}

proof fn lemma_piece_tokens(p: Seq<char>)
    requires
        is_word(p, CharClass::White),
    ensures
        tokens(p) == if p.len() <= 6 {
            2
        } else {
            (p.len() + 2) / 3
        },
{
    lemma_one_word(p);
}

proof fn lemma_char_pieces_fit(w: Seq<char>, budget: nat)
    requires
        budget >= 1,
        is_free_of(w, CharClass::White),
    ensures
        ({
            let p = char_pieces(w, budget);
            &&& forall|i: int|
                0 <= i < p.0.len() ==> is_word(#[trigger] p.0[i], CharClass::White) && tokens(
                    p.0[i],
                ) <= allowed(budget)
            &&& is_free_of(p.1, CharClass::White)
            &&& p.1.len() > 0 ==> tokens(p.1) < budget
        }),
    decreases w.len(),
{
    if w.len() > 0 {
        let q = w.drop_last();
        assert forall|i: int| 0 <= i < q.len() implies !CharClass::White.has(#[trigger] q[i]) by {
            assert(q[i] == w[i]);
        }
        lemma_char_pieces_fit(q, budget);
        let before = char_pieces(q, budget);
        let piece = before.1.push(w.last());
        assert(!CharClass::White.has(w[w.len() - 1]));
        assert forall|i: int| 0 <= i < piece.len() implies !CharClass::White.has(
            #[trigger] piece[i],
        ) by {
            if i < before.1.len() {
                assert(piece[i] == before.1[i]);
            }
        }
        lemma_piece_tokens(piece);
        if before.1.len() > 0 {
            lemma_piece_tokens(before.1);
        }
    }
}

proof fn lemma_long_word_fits(w: Seq<char>, budget: nat)
    requires
        budget >= 1,
        is_word(w, CharClass::White),
    ensures
        forall|i: int|
            0 <= i < long_word_parts(w, budget).len() ==> fits_in(
                #[trigger] long_word_parts(w, budget)[i],
                budget,
            ),
{
    let p = char_pieces(w, budget);
    let r = long_word_parts(w, budget);
    lemma_char_pieces_fit(w, budget);
    assert forall|i: int| 0 <= i < r.len() implies fits_in(#[trigger] r[i], budget) by {
        if i < p.0.len() {
            assert(r[i] == p.0[i]);
        } else {
            assert(r[i] == p.1);
        }
        lemma_one_word(r[i]);
        lemma_weight_one(r[i]);
    }
}

/// The words of a part together take no more tokens than the budget, or two where it is
/// one.
pub open spec fn fits_in(part: Seq<char>, budget: nat) -> bool {
    weight(words(part, CharClass::White)) <= allowed(budget)
}

proof fn lemma_joined_words(v: Seq<Seq<char>>)
    requires
        are_words(v),
    ensures
        words(join(v, " "@), CharClass::White) == v,
{
    reveal_strlit(" ");
    assert(" "@ =~= seq![' ']);
    assert(CharClass::White.has(' '));
    crate::text::law_words_of_joined(v, ' ', CharClass::White);
}

proof fn lemma_splitting_fits(ws: Seq<Seq<char>>, budget: nat)
    requires
        budget >= 1,
        are_words(ws),
    ensures
        ({
            let s = with_text_words(ws, budget);
            &&& forall|i: int|
                0 <= i < s.parts.len() ==> fits_in(#[trigger] s.parts[i], budget)
            &&& are_words(s.current)
            &&& s.tokens == weight(s.current)
            &&& s.tokens <= budget
            &&& weight(ws) <= budget ==> s.parts.len() == 0 && s.current == ws
        }),
    decreases ws.len(),
{
    let s = with_text_words(ws, budget);
    if ws.len() > 0 {
        let q = ws.drop_last();
        assert forall|i: int| 0 <= i < q.len() implies is_word(#[trigger] q[i], CharClass::White) by {
            assert(q[i] == ws[i]);
        }
        lemma_splitting_fits(q, budget);
        let b = with_text_words(q, budget);
        let w = ws.last();
        let t = tokens(w);
        assert(is_word(ws[ws.len() - 1], CharClass::White));
        let full = b.current.len() > 0 && b.tokens + t > budget;
        let s1 = if full {
            flushed(b)
        } else {
            b
        };
        if full {
            lemma_joined_words(b.current);
            assert(fits_in(join(b.current, " "@), budget));
        }
        assert forall|i: int| 0 <= i < s1.parts.len() implies fits_in(
            #[trigger] s1.parts[i],
            budget,
        ) by {
            if i < b.parts.len() {
                assert(s1.parts[i] == b.parts[i]);
            }
        }
        assert(s1.tokens == weight(s1.current));
        if t > budget {
            lemma_long_word_fits(w, budget);
            assert forall|i: int| 0 <= i < s.parts.len() implies fits_in(
                #[trigger] s.parts[i],
                budget,
            ) by {
                if i < s1.parts.len() {
                    assert(s.parts[i] == s1.parts[i]);
                } else {
                    assert(s.parts[i] == long_word_parts(w, budget)[i - s1.parts.len()]);
                }
            }
        } else {
            assert(s.current == s1.current.push(w));
            assert(s.current.drop_last() =~= s1.current);
            assert forall|i: int| 0 <= i < s.current.len() implies is_word(
                #[trigger] s.current[i],
                CharClass::White,
            ) by {
                if i < s1.current.len() {
                    assert(s.current[i] == s1.current[i]);
                }
            }
            if s1.current.len() == 0 {
                assert(weight(s1.current) == 0);
            }
        }
        if weight(ws) <= budget {
            assert(b.current == q);
            assert(weight(q) + t <= budget);
            assert(!full);
            assert(s.current =~= ws);
        }
    }
}

/// Every part of a text takes no more tokens than the budget, its words counted one by one;
/// a text that fits as a whole stays in one part.
pub proof fn law_parts_fit(text: Seq<char>, token_budget: nat)
    ensures
        forall|i: int|
            0 <= i < text_parts(text, token_budget).len() ==> fits_in(
                #[trigger] text_parts(text, token_budget)[i],
                part_budget(token_budget),
            ),
        weight(words(text, CharClass::White)) <= part_budget(token_budget) && words(
            text,
            CharClass::White,
        ).len() > 0 ==> text_parts(text, token_budget) == seq![
            join(words(text, CharClass::White), " "@),
        ],
        part_budget(token_budget) == token_budget || (token_budget == 0 && part_budget(token_budget)
            == 1),
{
    let ws = words(text, CharClass::White);
    let budget = part_budget(token_budget);
    crate::text::lemma_words(text, CharClass::White);
    lemma_splitting_fits(ws, budget);
    let s = with_text_words(ws, budget);
    let r = text_parts(text, token_budget);
    if s.current.len() > 0 {
        lemma_joined_words(s.current);
        assert forall|i: int| 0 <= i < r.len() implies fits_in(#[trigger] r[i], budget) by {
            if i < s.parts.len() {
                assert(r[i] == s.parts[i]);
            }
        }
    }
    if weight(ws) <= budget && ws.len() > 0 {
        assert(r =~= seq![join(ws, " "@)]);
    }
}

} // verus!
