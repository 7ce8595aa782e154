//! Overviews of a library: what the model says about each document is checked
//! against the document's own passages before it reaches the reader.

use vstd::prelude::*;
use vstd::string::StringExecFns;

use crate::ai::prompts::{page_or_dash, page_or_dash_text};
use crate::ai::sanitize::{has_address, sanitize_document_output, sanitized};
use crate::models::opt_text;
use crate::rag::search::{scored_views, DocumentOverviewInput, OverviewView, ScoredChunk, ScoredChunkView};
use crate::text::{
    all_digits, alphanumerics, any_digit, ascii_lower, blank, byte_len, bytes_of, char_count, chars,
    contains, count_matches, decimal, decimal_string, distinct, ends_with, find, find_chars, halves,
    has, has_digit, integer, integer_string, is_among, is_blank, is_one_of, join, joined,
    lemma_add_on_one_line, lemma_contains_add, lemma_contains_between, lemma_contains_chain,
    lemma_contains_run, lemma_distinct, lemma_find, lemma_join_on_one_line, lemma_line_breaks_add,
    lemma_lines, lemma_quoted, lemma_run_push, lemma_split_contains, lemma_trim_stands, quotes,
    run_together,
    lemma_no_line_breaks, lemma_replace_on_one_line, lemma_span, lemma_trim_end_on_one_line,
    lemma_trim_on_one_line, line_breaks, line_feed, lines, lowercase, number, occurrences, on_one_line, only_alphanumerics, only_digits, parse_number, pieces,
    pieces_of_words, replace, replaced, same, same_ignoring_ascii_case, span, split, split_once,
    str_views, string, strip_prefix, text_lines, trim, trim_class, trim_end, trim_start, trimmed,
    trimmed_class, trimmed_end, trimmed_start, views, without_repeats, words, CharClass,
};

verus! {

/// What is written where the documents say nothing.
pub const NO_EVIDENCE: &'static str = "SIN EVIDENCIA SUFICIENTE";

// --------------------------------------------------------------- normal forms

/// The text in lower case with plain vowels.
pub open spec fn normal(s: Seq<char>) -> Seq<char> {
    plain(lowercase(s))
}

/// The text with plain vowels.
pub open spec fn plain(s: Seq<char>) -> Seq<char> {
    let a = replace(s, "á"@, "a"@);
    let e = replace(a, "é"@, "e"@);
    let i = replace(e, "í"@, "i"@);
    let o = replace(i, "ó"@, "o"@);
    let u = replace(o, "ú"@, "u"@);
    replace(u, "ü"@, "u"@)
}

/// The text with plain vowels.
pub fn made_plain(s: &str) -> (r: String)
    ensures
        r@ == plain(s@),
{
    proof {
        reveal_strlit("á");
        reveal_strlit("é");
        reveal_strlit("í");
        reveal_strlit("ó");
        reveal_strlit("ú");
        reveal_strlit("ü");
    }
    let a = replaced(s, "á", "a");
    let e = replaced(a.as_str(), "é", "e");
    let i = replaced(e.as_str(), "í", "i");
    let o = replaced(i.as_str(), "ó", "o");
    let u = replaced(o.as_str(), "ú", "u");
    replaced(u.as_str(), "ü", "u")
}

/// The text in lower case with plain vowels.
pub fn normalize_for_validation(value: &str) -> (r: String)
    ensures
        r@ == normal(value@),
{
    let lower = value.to_lowercase();
    made_plain(lower.as_str())
}

/// The letters and digits of a label, in lower case with plain vowels.
pub open spec fn label_key(s: Seq<char>) -> Seq<char> {
    alphanumerics(normal(s))
}

/// The letters and digits of a label, in lower case with plain vowels.
pub fn normalize_field_label(value: &str) -> (r: String)
    ensures
        r@ == label_key(value@),
{
    let n = normalize_for_validation(value);
    only_alphanumerics(n.as_str())
}

/// Whether the text holds a web address.
pub fn contains_url(value: &str) -> (r: bool)
    ensures
        r == has_address(value@),
{
    has(value, "http://") || has(value, "https://")
}

// ------------------------------------------------------------ supported claims

/// The measurable thing that a normalized word stands for: a word with a digit, a
/// currency or a period of time.
pub open spec fn concrete_term(w: Seq<char>) -> Option<Seq<char>> {
    if has_digit(w) {
        Some(w)
    } else if w == "mxn"@ || w == "usd"@ || w == "eur"@ {
        Some(w)
    } else if w == "semana"@ || w == "semanas"@ || w == "semanal"@ || w == "semanales"@ {
        Some("periodo:semana"@)
    } else if w == "quincena"@ || w == "quincenas"@ || w == "quincenal"@ || w == "quincenales"@ {
        Some("periodo:quincena"@)
    } else if w == "dia"@ || w == "dias"@ || w == "diario"@ || w == "diaria"@ || w == "diarios"@
        || w == "diarias"@ {
        Some("periodo:dia"@)
    } else if w == "mes"@ || w == "meses"@ || w == "mensual"@ || w == "mensuales"@ {
        Some("periodo:mes"@)
    } else if w == "ano"@ || w == "anos"@ || w == "anual"@ || w == "anuales"@ {
        Some("periodo:ano"@)
    } else {
        None
    }
}

/// The measurable thing that a normalized word stands for.
pub fn concrete_term_of(w: &str) -> (r: Option<String>)
    ensures
        opt_text(r) == concrete_term(w@),
{
    if any_digit(w) {
        Some(w.to_owned())
    } else if same(w, "mxn") || same(w, "usd") || same(w, "eur") {
        Some(w.to_owned())
    } else if same(w, "semana") || same(w, "semanas") || same(w, "semanal") || same(
        w,
        "semanales",
    ) {
        Some("periodo:semana".to_owned())
    } else if same(w, "quincena") || same(w, "quincenas") || same(w, "quincenal") || same(
        w,
        "quincenales",
    ) {
        Some("periodo:quincena".to_owned())
    } else if same(w, "dia") || same(w, "dias") || same(w, "diario") || same(w, "diaria") || same(
        w,
        "diarios",
    ) || same(w, "diarias") {
        Some("periodo:dia".to_owned())
    } else if same(w, "mes") || same(w, "meses") || same(w, "mensual") || same(w, "mensuales") {
        Some("periodo:mes".to_owned())
    } else if same(w, "ano") || same(w, "anos") || same(w, "anual") || same(w, "anuales") {
        Some("periodo:ano".to_owned())
    } else {
        None
    }
}

/// The measurable things among words, in their order.
pub open spec fn concrete_among(w: Seq<Seq<char>>) -> Seq<Seq<char>>
    decreases w.len(),
{
    if w.len() == 0 {
        seq![]
    } else {
        let before = concrete_among(w.drop_last());
        match concrete_term(w.last()) {
            Some(t) => before.push(t),
            None => before,
        }
    }
}

/// The different measurable things that a text mentions.
pub open spec fn concrete(s: Seq<char>) -> Seq<Seq<char>> {
    distinct(concrete_among(split(normal(s), CharClass::NonAlphanumeric)))
}

/// The different measurable things that a text mentions.
pub fn concrete_terms(value: &str) -> (r: Vec<String>)
    ensures
        views(r@) == concrete(value@),
{
    let n = normalize_for_validation(value);
    let w = pieces(n.as_str(), CharClass::NonAlphanumeric);
    let ghost all = views(w@);
    let mut found: Vec<String> = Vec::new();
    let mut i: usize = 0;
    assert(views(found@) =~= concrete_among(all.take(0)));
    while i < w.len()
        invariant
            i <= w.len(),
            all == views(w@),
            views(found@) == concrete_among(all.take(i as int)),
        decreases w.len() - i,
    {
        assert(all.take(i + 1).drop_last() =~= all.take(i as int));
        match concrete_term_of(w[i].as_str()) {
            Some(t) => {
                let ghost before = views(found@);
                found.push(t);
                assert(views(found@) =~= before.push(t@));
            },
            None => {},
        }
        i += 1;
    }
    assert(all.take(i as int) =~= all);
    without_repeats(found)
}

/// Every element of the first sequence is in the second.
pub open spec fn all_in(a: Seq<Seq<char>>, b: Seq<Seq<char>>) -> bool {
    forall|i: int| 0 <= i < a.len() ==> b.contains(#[trigger] a[i])
}

/// Whether every measurable thing in the claim is in the evidence.
pub fn concrete_claim_supported(claim: &str, evidence: &str) -> (r: bool)
    ensures
        r == all_in(concrete(claim@), concrete(evidence@)),
{
    let known = concrete_terms(evidence);
    let claimed = concrete_terms(claim);
    let mut i: usize = 0;
    while i < claimed.len()
        invariant
            i <= claimed.len(),
            views(known@) == concrete(evidence@),
            views(claimed@) == concrete(claim@),
            forall|j: int|
                0 <= j < i ==> concrete(evidence@).contains(#[trigger] concrete(claim@)[j]),
        decreases claimed.len() - i,
    {
        assert(concrete(claim@)[i as int] == claimed@[i as int]@);
        if !is_among(claimed[i].as_str(), &known) {
            assert(views(claimed@).len() == claimed@.len());
            return false;
        }
        i += 1;
    }
    assert(views(claimed@).len() == claimed@.len());
    true
}

/// Words that say nothing about what a document holds.
pub open spec fn stopwords() -> Seq<Seq<char>> {
    seq![
        "para"@, "como"@, "este"@, "esta"@, "estos"@, "estas"@, "documento"@, "archivo"@,
        "sobre"@, "entre"@, "desde"@, "hasta"@, "tiene"@, "indica"@, "incluye"@, "principal"@,
        "tipo"@, "dato"@, "publico"@, "objetivo"@, "informacion"@, "evidencia"@, "suficiente"@,
        "chunk"@,
    ]
}

fn is_stopword(w: &str) -> (r: bool)
    ensures
        r == stopwords().contains(w@),
{
    let list = [
        "para", "como", "este", "esta", "estos", "estas", "documento", "archivo",
        "sobre", "entre", "desde", "hasta", "tiene", "indica", "incluye", "principal",
        "tipo", "dato", "publico", "objetivo", "informacion", "evidencia", "suficiente",
        "chunk",
    ];
    assert(str_views(list@) =~= stopwords());
    is_one_of(w, &list)
}

/// The normalized word can support a claim: it has three bytes or more, or only
/// digits, and is no stopword.
pub open spec fn is_telling(w: Seq<char>) -> bool {
    (byte_len(w) >= 3 || all_digits(w)) && !stopwords().contains(w)
}

/// The different words of a text that can support a claim.
pub open spec fn telling(s: Seq<char>) -> Seq<Seq<char>> {
    distinct(
        split(normal(s), CharClass::NonAlphanumeric).filter(|w: Seq<char>| is_telling(w)),
    )
}

/// The different words of a text that can support a claim.
pub fn evidence_terms(value: &str) -> (r: Vec<String>)
    ensures
        views(r@) == telling(value@),
{
    let n = normalize_for_validation(value);
    let w = pieces(n.as_str(), CharClass::NonAlphanumeric);
    let ghost all = views(w@);
    let ghost keep = |w: Seq<char>| is_telling(w);
    let mut kept: Vec<String> = Vec::new();
    let mut i: usize = 0;
    while i < w.len()
        invariant
            i <= w.len(),
            all == views(w@),
            keep == (|w: Seq<char>| is_telling(w)),
            views(kept@) == all.take(i as int).filter(keep),
        decreases w.len() - i,
    {
        proof {
            assert(all.take(i + 1).drop_last() =~= all.take(i as int));
            reveal_with_fuel(Seq::filter, 2);
        }
        if (bytes_of(w[i].as_str()) >= 3 || only_digits(w[i].as_str())) && !is_stopword(
            w[i].as_str(),
        ) {
            let ghost before = views(kept@);
            kept.push(w[i].clone());
            assert(views(kept@) =~= before.push(w@[i as int]@));
        }
        i += 1;
    }
    assert(all.take(i as int) =~= all);
    without_repeats(kept)
}

/// How many of the claim's words the evidence has.
pub open spec fn matched_words(claim: Seq<Seq<char>>, evidence: Seq<Seq<char>>) -> nat {
    claim.filter(|w: Seq<char>| evidence.contains(w)).len()
}

/// The evidence has enough of the claim's words: all of one or two, and at least
/// two and half of more.
pub open spec fn words_support(claim: Seq<Seq<char>>, evidence: Seq<Seq<char>>) -> bool {
    let matched = matched_words(claim, evidence);
    if claim.len() == 0 {
        false
    } else if claim.len() <= 2 {
        matched == claim.len()
    } else {
        matched >= 2 && matched * 2 >= claim.len()
    }
}

/// Whether the evidence has enough of the claim's words.
pub fn claim_supported_by_chunk(claim: &str, evidence: &str) -> (r: bool)
    ensures
        r == words_support(telling(claim@), telling(evidence@)),
{
    let claimed = evidence_terms(claim);
    assert(views(claimed@).len() == claimed@.len());
    if claimed.len() == 0 {
        return false;
    }
    let known = evidence_terms(evidence);
    let ghost all = views(claimed@);
    let ghost keep = |w: Seq<char>| telling(evidence@).contains(w);
    let mut matched: usize = 0;
    let mut i: usize = 0;
    while i < claimed.len()
        invariant
            matched <= i <= claimed.len(),
            all == views(claimed@),
            views(known@) == telling(evidence@),
            keep == (|w: Seq<char>| telling(evidence@).contains(w)),
            matched == all.take(i as int).filter(keep).len(),
        decreases claimed.len() - i,
    {
        proof {
            assert(all.take(i + 1).drop_last() =~= all.take(i as int));
            reveal_with_fuel(Seq::filter, 2);
        }
        if is_among(claimed[i].as_str(), &known) {
            matched += 1;
        }
        i += 1;
    }
    assert(all.take(i as int) =~= all);
    if claimed.len() <= 2 {
        matched == claimed.len()
    } else {
        matched >= 2 && matched as u128 * 2 >= claimed.len() as u128
    }
}

/// Verbs that state a fact.
pub open spec fn factual_verbs() -> Seq<Seq<char>> {
    seq![
        "es"@, "son"@, "incluye"@, "incluyen"@, "contiene"@, "contienen"@, "requiere"@,
        "requieren"@, "evalua"@, "evaluan"@, "presenta"@, "presentan"@, "explica"@, "explican"@,
        "indica"@, "indican"@, "establece"@,
    ]
}

/// Some word is a verb that states a fact.
pub open spec fn has_factual_verb(w: Seq<Seq<char>>) -> bool {
    exists|i: int| 0 <= i < w.len() && factual_verbs().contains(#[trigger] w[i])
}

fn any_factual_verb(w: &Vec<String>) -> (r: bool)
    ensures
        r == has_factual_verb(views(w@)),
{
    let list = [
        "es", "son", "incluye", "incluyen", "contiene", "contienen", "requiere",
        "requieren", "evalua", "evaluan", "presenta", "presentan", "explica", "explican",
        "indica", "indican", "establece",
    ];
    assert(str_views(list@) =~= factual_verbs());
    let mut i: usize = 0;
    while i < w.len()
        invariant
            i <= w.len(),
            str_views(list@) == factual_verbs(),
            forall|j: int| 0 <= j < i ==> !factual_verbs().contains(#[trigger] views(w@)[j]),
        decreases w.len() - i,
    {
        assert(views(w@)[i as int] == w@[i as int]@);
        if is_one_of(w[i].as_str(), &list) {
            return true;
        }
        i += 1;
    }
    false
}

/// The number of characters that a fact may have.
pub const FACT_MAX_CHARS: usize = 180;

/// The claim states something: it is one short line that mentions a measurable
/// thing or has a verb that states a fact.
pub open spec fn is_useful(claim: Seq<char>) -> bool {
    &&& !contains(claim, "\n"@)
    &&& claim.len() <= FACT_MAX_CHARS
    &&& concrete(claim).len() > 0 || has_factual_verb(
        split(normal(claim), CharClass::NonAlphanumeric),
    )
}

/// Whether the claim states something.
pub fn useful_factual_claim(claim: &str) -> (r: bool)
    ensures
        r == is_useful(claim@),
{
    if has(claim, "\n") || char_count(claim) > FACT_MAX_CHARS {
        return false;
    }
    let found = concrete_terms(claim);
    assert(views(found@).len() == found@.len());
    if found.len() > 0 {
        return true;
    }
    let n = normalize_for_validation(claim);
    let w = pieces(n.as_str(), CharClass::NonAlphanumeric);
    any_factual_verb(&w)
}

/// The evidence bears out a claim that sums it up.
pub open spec fn synthesis_supported(claim: Seq<char>, evidence: Seq<char>) -> bool {
    !is_blank(claim) && all_in(concrete(claim), concrete(evidence))
}

/// Whether the evidence bears out a claim that sums it up.
pub fn synthesis_claim_supported(claim: &str, evidence: &str) -> (r: bool)
    ensures
        r == synthesis_supported(claim@, evidence@),
{
    !blank(claim) && concrete_claim_supported(claim, evidence)
}

/// The evidence bears out a claim that states a fact.
pub open spec fn fact_supported(claim: Seq<char>, evidence: Seq<char>) -> bool {
    &&& is_useful(claim)
    &&& all_in(concrete(claim), concrete(evidence))
    &&& words_support(telling(claim), telling(evidence))
}

/// Whether the evidence bears out a claim that states a fact.
pub fn factual_claim_supported(claim: &str, evidence: &str) -> (r: bool)
    ensures
        r == fact_supported(claim@, evidence@),
{
    useful_factual_claim(claim) && concrete_claim_supported(claim, evidence)
        && claim_supported_by_chunk(claim, evidence)
}

// ------------------------------------------------------- references to evidence

/// The digits behind the `C` of a reference such as `C12`.
pub open spec fn reference_digits(token: Seq<char>) -> Option<Seq<char>> {
    if token.len() > 1 && (token[0] == 'C' || token[0] == 'c') && all_digits(token.skip(1)) {
        Some(token.skip(1))
    } else {
        None
    }
}

/// The digits behind the `C` of a reference.
pub fn digits_of_reference(token: &str) -> (r: Option<String>)
    ensures
        opt_text(r) == reference_digits(token@),
{
    proof {
        reveal_strlit("C");
        reveal_strlit("c");
        crate::text::lemma_one_char_prefix(token@, "C"@);
        crate::text::lemma_one_char_prefix(token@, "c"@);
    }
    let rest = match strip_prefix(token, "C") {
        Some(d) => Some(d),
        None => strip_prefix(token, "c"),
    };
    match rest {
        Some(d) => {
            if !d.as_str().is_empty() && only_digits(d.as_str()) {
                Some(d)
            } else {
                None
            }
        },
        None => None,
    }
}

/// The numbers in ascending order with `n` among them once.
pub open spec fn insert_unique(s: Seq<int>, n: int) -> Seq<int>
    decreases s.len(),
{
    if s.len() == 0 {
        seq![n]
    } else if s.last() == n {
        s
    } else if s.last() < n {
        s.push(n)
    } else {
        insert_unique(s.drop_last(), n).push(s.last())
    }
}

proof fn lemma_insert_unique(s: Seq<int>, n: int, p: int)
    requires
        0 <= p <= s.len(),
        forall|j: int| p <= j < s.len() ==> #[trigger] s[j] > n,
        p > 0 ==> s[p - 1] <= n,
    ensures
        insert_unique(s, n) == if p > 0 && s[p - 1] == n {
            s
        } else {
            s.insert(p, n)
        },
    decreases s.len(),
{
    if s.len() == 0 {
        assert(s.insert(p, n) =~= seq![n]);
    } else if p == s.len() {
        assert(s.insert(p, n) =~= s.push(n));
    } else {
        assert(s[s.len() - 1] > n);
        lemma_insert_unique(s.drop_last(), n, p);
        if p > 0 && s[p - 1] == n {
            assert(s.drop_last().push(s.last()) =~= s);
        } else {
            assert(s.drop_last().insert(p, n).push(s.last()) =~= s.insert(p, n));
        }
    }
}

/// The numbers of the references among tokens, ascending and without repetition;
/// numbers beyond the machine's range are no references.
pub open spec fn references_among(tokens: Seq<Seq<char>>) -> Seq<int>
    decreases tokens.len(),
{
    if tokens.len() == 0 {
        seq![]
    } else {
        let before = references_among(tokens.drop_last());
        match reference_digits(tokens.last()) {
            Some(d) if number(d) <= usize::MAX => insert_unique(before, number(d) as int),
            _ => before,
        }
    }
}

/// The numbers of the passages that a claim refers to.
pub open spec fn references(value: Seq<char>) -> Seq<int> {
    references_among(split(value, CharClass::NonAlphanumeric))
}

/// The numbers of the passages that a claim refers to.
pub fn short_evidence_references(value: &str) -> (r: Vec<usize>)
    ensures
        crate::order::indices(r@) == references(value@),
{
    let tokens = pieces(value, CharClass::NonAlphanumeric);
    let ghost all = views(tokens@);
    let mut r: Vec<usize> = Vec::new();
    let mut i: usize = 0;
    assert(crate::order::indices(r@) =~= references_among(all.take(0)));
    while i < tokens.len()
        invariant
            i <= tokens.len(),
            all == views(tokens@),
            crate::order::indices(r@) == references_among(all.take(i as int)),
        decreases tokens.len() - i,
    {
        assert(all.take(i + 1).drop_last() =~= all.take(i as int));
        match digits_of_reference(tokens[i].as_str()) {
            Some(d) => {
                match parse_number(d.as_str()) {
                    Some(n) => {
                        add_reference(&mut r, n);
                    },
                    None => {},
                }
            },
            None => {},
        }
        i += 1;
    }
    assert(all.take(i as int) =~= all);
    r
}

fn add_reference(r: &mut Vec<usize>, n: usize)
    ensures
        crate::order::indices(final(r)@) == insert_unique(
            crate::order::indices(old(r)@),
            n as int,
        ),
{
    let ghost s = crate::order::indices(r@);
    let mut p: usize = r.len();
    while p > 0 && r[p - 1] > n
        invariant
            p <= r.len(),
            s == crate::order::indices(r@),
            forall|j: int| p <= j < s.len() ==> #[trigger] s[j] > n,
        decreases p,
    {
        p -= 1;
    }
    proof {
        if p > 0 {
            assert(s[p - 1] == r@[p - 1]);
        }
        lemma_insert_unique(s, n as int, p as int);
    }
    if !(p > 0 && r[p - 1] == n) {
        r.insert(p, n);
        assert(crate::order::indices(r@) =~= s.insert(p as int, n as int));
    }
}

/// What stands between brackets is nothing but references.
pub open spec fn is_reference_marker(marker: Seq<char>) -> bool {
    let tokens = words(marker, CharClass::NonAlphanumeric);
    &&& tokens.len() > 0
    &&& forall|i: int| 0 <= i < tokens.len() ==> reference_digits(#[trigger] tokens[i]) is Some
}

fn is_marker(marker: &str) -> (r: bool)
    ensures
        r == is_reference_marker(marker@),
{
    let tokens = pieces_of_words(marker, CharClass::NonAlphanumeric);
    let ghost all = views(tokens@);
    assert(all.len() == tokens@.len());
    if tokens.len() == 0 {
        return false;
    }
    let mut i: usize = 0;
    while i < tokens.len()
        invariant
            i <= tokens.len(),
            all == views(tokens@),
            all == words(marker@, CharClass::NonAlphanumeric),
            forall|j: int| 0 <= j < i ==> reference_digits(#[trigger] all[j]) is Some,
        decreases tokens.len() - i,
    {
        assert(all[i as int] == tokens@[i as int]@);
        match digits_of_reference(tokens[i].as_str()) {
            Some(_) => {},
            None => {
                return false;
            },
        }
        i += 1;
    }
    true
}

/// The text without its reference markers, and whether every bracket is closed;
/// from a bracket that is not, the text stays as it is.
pub open spec fn strip_markers(s: Seq<char>) -> (Seq<char>, bool)
    decreases s.len(),
{
    let open = span(s, CharClass::One('[')) as int;
    if open >= s.len() {
        (s, true)
    } else {
        let inner = s.skip(open + 1);
        let close = span(inner, CharClass::One(']')) as int;
        if close >= inner.len() {
            (s, false)
        } else {
            let rest = strip_markers(inner.skip(close + 1));
            let kept = if is_reference_marker(inner.take(close)) {
                s.take(open)
            } else {
                s.take(open + 1 + close + 1)
            };
            (kept + rest.0, rest.1)
        }
    }
}

/// A claim without its references.
pub open spec fn without_references(s: Seq<char>) -> Seq<char> {
    let stripped = strip_markers(s);
    if stripped.1 {
        trim(stripped.0)
    } else {
        stripped.0
    }
}

/// A claim without its references.
pub fn strip_short_reference(value: &str) -> (r: String)
    ensures
        r@ == without_references(value@),
{
    let mut cleaned = String::new();
    let mut rest = value.to_owned();
    assert(cleaned@ + strip_markers(value@).0 =~= strip_markers(value@).0);
    loop
        invariant
            cleaned@ + strip_markers(rest@).0 == strip_markers(value@).0,
            strip_markers(rest@).1 == strip_markers(value@).1,
        decreases rest@.len(),
    {
        let ghost s = rest@;
        match halves(rest.as_str(), '[') {
            None => {
                cleaned.append(rest.as_str());
                return trimmed(cleaned.as_str());
            },
            Some((head, inner)) => {
                let ghost open = span(s, CharClass::One('[')) as int;
                match halves(inner.as_str(), ']') {
                    None => {
                        cleaned.append(rest.as_str());
                        return cleaned;
                    },
                    Some((marker, tail)) => {
                        let ghost close = span(inner@, CharClass::One(']')) as int;
                        let ghost before = cleaned@;
                        cleaned.append(head.as_str());
                        if !is_marker(marker.as_str()) {
                            cleaned.append("[");
                            cleaned.append(marker.as_str());
                            cleaned.append("]");
                            proof {
                                reveal_strlit("[");
                                reveal_strlit("]");
                                crate::text::lemma_span(s, CharClass::One('['));
                                crate::text::lemma_span(inner@, CharClass::One(']'));
                                assert(head@ + "["@ + marker@ + "]"@ =~= s.take(
                                    open + 1 + close + 1,
                                ));
                                assert(cleaned@ =~= before + s.take(open + 1 + close + 1));
                            }
                        }
                        proof {
                            let kept = if is_reference_marker(marker@) {
                                s.take(open)
                            } else {
                                s.take(open + 1 + close + 1)
                            };
                            assert(cleaned@ == before + kept);
                            assert(cleaned@ + strip_markers(tail@).0 =~= before + (kept
                                + strip_markers(tail@).0));
                        }
                        rest = tail;
                    },
                }
            },
        }
    }
}

// ------------------------------------------------------ checking an analysis

pub const ANALYSIS_BEFORE: &'static str =
    "Crea una ficha interna compacta de un solo documento local. DOCUMENTO: ";

pub const ANALYSIS_RULES: &'static str =
    ". Usa solo la evidencia incluida. No escribas introduccion, tabla, conclusion, URLs ni secciones por fragmento. OBJETIVO, TIPO, PUBLICO e INCERTIDUMBRE pueden sintetizar o parafrasear el conjunto de evidencia sin copiarlo literalmente ni agregar una referencia a cada campo. DATO 1, DATO 2 y DATO 3 deben ser afirmaciones breves, concretas y representativas, cada una terminada con una o varias referencias validas como [C1] o [C1][C2]. No uses encabezados, preguntas ni fragmentos truncados como datos. Si no hay respaldo, escribe SIN EVIDENCIA SUFICIENTE. No conviertas inferencias en hechos. Devuelve exactamente estas siete lineas: OBJETIVO, TIPO, PUBLICO, DATO 1, DATO 2, DATO 3, INCERTIDUMBRE.\n\nEVIDENCIA DEL DOCUMENTO:\n";

pub const ANALYSIS_EMPTY: &'static str = "[Sin evidencia recuperada para este documento.]\n";

/// The passages of a document under the references by which claims cite them.
pub open spec fn cited_passages(items: Seq<ScoredChunkView>) -> Seq<char>
    decreases items.len(),
{
    if items.len() == 0 {
        seq![]
    } else {
        cited_passages(items.drop_last()) + ("[C"@ + decimal(items.len()) + "] pagina "@
            + page_or_dash(items.last().chunk.page_number) + ":\n"@ + items.last().chunk.content
            + "\n"@)
    }
}

fn cited_passages_text(items: &Vec<ScoredChunk>) -> (r: String)
    ensures
        r@ == cited_passages(scored_views(items@)),
{
    let ghost all = scored_views(items@);
    let mut r = String::new();
    let mut i: usize = 0;
    while i < items.len()
        invariant
            i <= items.len(),
            all == scored_views(items@),
            r@ == cited_passages(all.take(i as int)),
        decreases items.len() - i,
    {
        assert(all.take(i + 1).drop_last() =~= all.take(i as int));
        let mut e = "[C".to_owned();
        e.append(decimal_string(i as u128 + 1).as_str());
        e.append("] pagina ");
        e.append(page_or_dash_text(items[i].chunk.page_number).as_str());
        e.append(":\n");
        e.append(items[i].chunk.content.as_str());
        e.append("\n");
        r.append(e.as_str());
        i += 1;
    }
    assert(all.take(i as int) =~= all);
    r
}

/// The instruction to analyse one document.
pub fn document_overview_analysis_prompt(document: &DocumentOverviewInput, question: &str) -> (r:
    String)
    ensures
        r@ == ANALYSIS_BEFORE@ + document@.filename + ". Pregunta: "@ + question@ + ANALYSIS_RULES@
            + if document@.chunks.len() == 0 {
            ANALYSIS_EMPTY@
        } else {
            cited_passages(document@.chunks)
        },
{
    let mut r = ANALYSIS_BEFORE.to_owned();
    r.append(document.filename.as_str());
    r.append(". Pregunta: ");
    r.append(question);
    r.append(ANALYSIS_RULES);
    assert(document@.chunks.len() == document.representative_chunks@.len());
    if document.representative_chunks.len() == 0 {
        r.append(ANALYSIS_EMPTY);
    } else {
        r.append(cited_passages_text(&document.representative_chunks).as_str());
    }
    r
}

/// How a field of an analysis has to be borne out.
#[derive(Debug, Clone, Copy, PartialEq, Eq, Structural)]
pub enum EvidenceKind {
    Factual,
    Synthesis,
}

/// How a field has to be borne out.
pub open spec fn kind_of(field: Seq<char>) -> EvidenceKind {
    let key = label_key(field);
    if key == "dato1"@ || key == "dato2"@ || key == "dato3"@ {
        EvidenceKind::Factual
    } else {
        EvidenceKind::Synthesis
    }
}

/// How a field has to be borne out.
pub fn overview_evidence_kind(field: &str) -> (r: EvidenceKind)
    ensures
        r == kind_of(field@),
{
    let key = normalize_field_label(field);
    if same(key.as_str(), "dato1") || same(key.as_str(), "dato2") || same(key.as_str(), "dato3") {
        EvidenceKind::Factual
    } else {
        EvidenceKind::Synthesis
    }
}

/// A line of an analysis without list marks and emphasis.
pub open spec fn clean_line(line: Seq<char>) -> Seq<char> {
    trim_class(
        trim_start(trim(line), CharClass::Three('-', '*', ' ')),
        CharClass::One('*'),
    )
}

/// What the first line under the label says.
pub open spec fn labelled(l: Seq<Seq<char>>, field: Seq<char>) -> Option<Seq<char>>
    decreases l.len(),
{
    if l.len() == 0 {
        None
    } else {
        match split_once(clean_line(l[0]), ':') {
            Some(halves) if label_key(halves.0) == label_key(field) => Some(trim(halves.1)),
            _ => labelled(l.skip(1), field),
        }
    }
}

/// What the first line under the label says.
fn value_under(l: &Vec<String>, field: &str) -> (r: Option<String>)
    ensures
        opt_text(r) == labelled(views(l@), field@),
{
    let ghost all = views(l@);
    let key = normalize_field_label(field);
    let mut i: usize = 0;
    assert(all.skip(0) =~= all);
    while i < l.len()
        invariant
            i <= l.len(),
            all == views(l@),
            key@ == label_key(field@),
            labelled(all, field@) == labelled(all.skip(i as int), field@),
        decreases l.len() - i,
    {
        assert(all.skip(i as int)[0] == l@[i as int]@);
        assert(all.skip(i as int).skip(1) =~= all.skip(i + 1));
        let t = trimmed(l[i].as_str());
        let s = trimmed_start(t.as_str(), CharClass::Three('-', '*', ' '));
        let clean = trimmed_class(s.as_str(), CharClass::One('*'));
        match halves(clean.as_str(), ':') {
            Some((label, value)) => {
                let own = normalize_field_label(label.as_str());
                if own == key {
                    return Some(trimmed(value.as_str()));
                }
            },
            None => {},
        }
        i += 1;
    }
    None
}

/// The passages with the given numbers, counted from one, where each exists.
pub open spec fn cited(items: Seq<ScoredChunkView>, refs: Seq<int>) -> Option<Seq<ScoredChunkView>> {
    if forall|i: int| 0 <= i < refs.len() ==> 1 <= #[trigger] refs[i] <= items.len() {
        Some(refs.map_values(|n: int| items[n - 1]))
    } else {
        None
    }
}

/// Every passage belongs to the document.
pub open spec fn all_of_document(items: Seq<ScoredChunkView>, id: i64) -> bool {
    forall|i: int| 0 <= i < items.len() ==> (#[trigger] items[i]).chunk.document_id == id
}

/// The passages that a value of a field rests on: those it cites or, for a field
/// that sums up, all of them; none where they are missing or of another document.
pub open spec fn evidence_for(document: OverviewView, field: Seq<char>, value: Seq<char>) -> Option<
    Seq<ScoredChunkView>,
> {
    let refs = references(value);
    let found = if refs.len() > 0 {
        cited(document.chunks, refs)
    } else if kind_of(field) == EvidenceKind::Factual {
        None
    } else {
        Some(document.chunks)
    };
    match found {
        Some(items) => if items.len() > 0 && all_of_document(items, document.document_id) {
            Some(items)
        } else {
            None
        },
        None => None,
    }
}

/// The contents of passages.
pub open spec fn contents(items: Seq<ScoredChunkView>) -> Seq<Seq<char>> {
    items.map_values(|i: ScoredChunkView| i.chunk.content)
}

/// The identifiers of passages, in base ten.
pub open spec fn identifiers(items: Seq<ScoredChunkView>) -> Seq<Seq<char>> {
    items.map_values(|i: ScoredChunkView| integer(i.chunk.id as int))
}

/// The passages bear out the claim, as the field demands.
pub open spec fn borne_out(field: Seq<char>, claim: Seq<char>, items: Seq<ScoredChunkView>) -> bool {
    let evidence = join(contents(items), "\n"@);
    match kind_of(field) {
        EvidenceKind::Factual => fact_supported(claim, evidence),
        EvidenceKind::Synthesis => synthesis_supported(claim, evidence),
    }
}

/// The line of a field for which there is no evidence.
pub open spec fn unsupported_line(field: Seq<char>) -> Seq<char> {
    field + ": "@ + NO_EVIDENCE@
}

/// The line of a field whose claim the passages bear out.
pub open spec fn supported_line(
    field: Seq<char>,
    claim: Seq<char>,
    items: Seq<ScoredChunkView>,
) -> Seq<char> {
    field + ": "@ + claim + " [chunk_id="@ + join(identifiers(items), ","@) + "]"@
}

/// The line of a field, given what the analysis says under it.
pub open spec fn checked_value(document: OverviewView, field: Seq<char>, value: Seq<char>) -> Seq<
    char,
> {
    let claim = trim(without_references(value));
    match evidence_for(document, field, value) {
        Some(items) => if ascii_lower(value) != ascii_lower(NO_EVIDENCE@) && claim.len() > 0
            && !has_address(claim) && borne_out(field, claim, items) {
            supported_line(field, claim, items)
        } else {
            unsupported_line(field)
        },
        None => unsupported_line(field),
    }
}

/// The line of a field in the checked analysis.
pub open spec fn checked_line(document: OverviewView, analysis: Seq<char>, field: Seq<char>) -> Seq<
    char,
> {
    match labelled(lines(analysis), field) {
        Some(value) => checked_value(document, field, value),
        None => unsupported_line(field),
    }
}

fn unsupported(field: &str) -> (r: String)
    ensures
        r@ == unsupported_line(field@),
{
    let mut r = field.to_owned();
    r.append(": ");
    r.append(NO_EVIDENCE);
    r
}

/// The passages that a value of a field rests on.
#[verifier::loop_isolation(false)]
fn passages_for(document: &DocumentOverviewInput, field: &str, value: &str) -> (r: Option<
    Vec<ScoredChunk>,
>)
    ensures
        match r {
            Some(v) => evidence_for(document@, field@, value@) == Some(scored_views(v@)),
            None => evidence_for(document@, field@, value@) is None,
        },
{
    let refs = short_evidence_references(value);
    let ghost numbers = references(value@);
    let ghost items = document@.chunks;
    assert(numbers.len() == refs@.len());
    assert(items.len() == document.representative_chunks@.len());
    let mut found: Vec<ScoredChunk> = Vec::new();
    let mut i: usize = 0;
    if refs.len() > 0 {
        while i < refs.len()
            invariant
                i <= refs.len(),
                numbers == crate::order::indices(refs@),
                items == scored_views(document.representative_chunks@),
                forall|j: int| 0 <= j < i ==> 1 <= #[trigger] numbers[j] <= items.len(),
                scored_views(found@) == numbers.take(i as int).map_values(|n: int| items[n - 1]),
            decreases refs.len() - i,
        {
            assert(numbers[i as int] == refs@[i as int]);
            if refs[i] == 0 || refs[i] > document.representative_chunks.len() {
                return None;
            }
            let ghost before = scored_views(found@);
            let item = document.representative_chunks[refs[i] - 1].clone();
            found.push(item);
            proof {
                assert(scored_views(found@) =~= before.push(item@));
                assert(scored_views(found@) =~= numbers.take(i + 1).map_values(
                    |n: int| items[n - 1],
                ));
            }
            i += 1;
        }
        assert(numbers.take(i as int) =~= numbers);
    } else {
        match overview_evidence_kind(field) {
            EvidenceKind::Factual => {
                return None;
            },
            EvidenceKind::Synthesis => {},
        }
        while i < document.representative_chunks.len()
            invariant
                i <= document.representative_chunks.len(),
                items == scored_views(document.representative_chunks@),
                scored_views(found@) == items.take(i as int),
            decreases document.representative_chunks.len() - i,
        {
            let ghost before = scored_views(found@);
            let item = document.representative_chunks[i].clone();
            found.push(item);
            proof {
                assert(scored_views(found@) =~= before.push(item@));
                assert(scored_views(found@) =~= items.take(i + 1));
            }
            i += 1;
        }
        assert(items.take(i as int) =~= items);
    }
    let ghost got = scored_views(found@);
    assert(got.len() == found@.len());
    if found.len() == 0 {
        return None;
    }
    let mut j: usize = 0;
    while j < found.len()
        invariant
            j <= found.len(),
            got == scored_views(found@),
            forall|m: int|
                0 <= m < j ==> (#[trigger] got[m]).chunk.document_id == document.document_id,
        decreases found.len() - j,
    {
        assert(got[j as int] == found@[j as int]@);
        if found[j].chunk.document_id != document.document_id {
            return None;
        }
        j += 1;
    }
    Some(found)
}

fn contents_of(items: &Vec<ScoredChunk>) -> (r: Vec<String>)
    ensures
        views(r@) == contents(scored_views(items@)),
{
    let ghost want = contents(scored_views(items@));
    let mut r: Vec<String> = Vec::new();
    let mut i: usize = 0;
    while i < items.len()
        invariant
            i <= items.len(),
            want == contents(scored_views(items@)),
            views(r@) == want.take(i as int),
        decreases items.len() - i,
    {
        let ghost before = views(r@);
        let s = items[i].chunk.content.clone();
        r.push(s);
        assert(views(r@) =~= before.push(s@));
        assert(views(r@) =~= want.take(i + 1));
        i += 1;
    }
    assert(want.take(i as int) =~= want);
    r
}

fn identifiers_of(items: &Vec<ScoredChunk>) -> (r: Vec<String>)
    ensures
        views(r@) == identifiers(scored_views(items@)),
{
    let ghost want = identifiers(scored_views(items@));
    let mut r: Vec<String> = Vec::new();
    let mut i: usize = 0;
    while i < items.len()
        invariant
            i <= items.len(),
            want == identifiers(scored_views(items@)),
            views(r@) == want.take(i as int),
        decreases items.len() - i,
    {
        let ghost before = views(r@);
        let s = integer_string(items[i].chunk.id);
        r.push(s);
        assert(views(r@) =~= before.push(s@));
        assert(views(r@) =~= want.take(i + 1));
        i += 1;
    }
    assert(want.take(i as int) =~= want);
    r
}

/// The line of a field, given what the analysis says under it.
pub fn check_value(document: &DocumentOverviewInput, field: &str, value: &str) -> (r: String)
    ensures
        r@ == checked_value(document@, field@, value@),
{
    if same_ignoring_ascii_case(value, NO_EVIDENCE) {
        return unsupported(field);
    }
    let items = match passages_for(document, field, value) {
        Some(items) => items,
        None => {
            return unsupported(field);
        },
    };
    let stripped = strip_short_reference(value);
    let claim = trimmed(stripped.as_str());
    let texts = contents_of(&items);
    let evidence = joined(&texts, "\n");
    let supported = match overview_evidence_kind(field) {
        EvidenceKind::Factual => factual_claim_supported(claim.as_str(), evidence.as_str()),
        EvidenceKind::Synthesis => synthesis_claim_supported(claim.as_str(), evidence.as_str()),
    };
    if claim.as_str().is_empty() || contains_url(claim.as_str()) || !supported {
        return unsupported(field);
    }
    let ids = identifiers_of(&items);
    let mut r = field.to_owned();
    r.append(": ");
    r.append(claim.as_str());
    r.append(" [chunk_id=");
    r.append(joined(&ids, ",").as_str());
    r.append("]");
    r
}

/// The line of a field in the checked analysis.
fn check_line(document: &DocumentOverviewInput, analysis: &Vec<String>, field: &str) -> (r: String)
    ensures
        r@ == match labelled(views(analysis@), field@) {
            Some(value) => checked_value(document@, field@, value),
            None => unsupported_line(field@),
        },
{
    match value_under(analysis, field) {
        Some(value) => check_value(document, field, value.as_str()),
        None => unsupported(field),
    }
}

/// The fields of an analysis.
pub open spec fn fields() -> Seq<Seq<char>> {
    seq![
        "OBJETIVO"@,
        "TIPO"@,
        "PUBLICO"@,
        "DATO 1"@,
        "DATO 2"@,
        "DATO 3"@,
        "INCERTIDUMBRE"@,
    ]
}

/// The lines of the checked analysis, field by field.
pub open spec fn checked_lines(document: OverviewView, analysis: Seq<char>) -> Seq<Seq<char>> {
    fields().map_values(|f: Seq<char>| checked_line(document, analysis, f))
}

/// No field is supported.
pub open spec fn nothing_supported(l: Seq<Seq<char>>) -> bool {
    forall|i: int| 0 <= i < l.len() ==> NO_EVIDENCE@.is_suffix_of(#[trigger] l[i])
}

/// The checked analysis: each field with its claim where the document's passages
/// bear it out; where none is borne out, short concrete sentences of the document
/// itself stand as facts.
pub open spec fn checked_analysis(document: OverviewView, analysis: Seq<char>) -> Seq<char> {
    let l = checked_lines(document, analysis);
    let facts = fallback_facts(document.chunks);
    join(
        Seq::new(
            l.len(),
            |i: int|
                if nothing_supported(l) && 3 <= i < 3 + facts.len() {
                    fact_line((i - 3) as nat, facts[i - 3])
                } else {
                    l[i]
                },
        ),
        "\n"@,
    )
}

// ------------------------------------------------------------ fallback facts

/// The number of facts that can stand in for an analysis.
pub const FALLBACK_FACTS: usize = 3;

/// The length of the shortest sentence that can be a fact.
pub const FALLBACK_MIN_CHARS: usize = 8;

/// The length of the longest sentence that can be a fact.
pub const FALLBACK_MAX_CHARS: usize = 140;

/// A sentence of a passage can stand as a fact: it is neither short nor long and
/// mentions a measurable thing.
pub open spec fn can_stand(sentence: Seq<char>) -> bool {
    FALLBACK_MIN_CHARS <= sentence.len() <= FALLBACK_MAX_CHARS && concrete(sentence).len() > 0
}

/// The facts with one more sentence, unless there are enough, it cannot stand, or
/// it repeats one of them.
pub open spec fn with_sentence(
    facts: Seq<(Seq<char>, i64)>,
    sentence: Seq<char>,
    id: i64,
) -> Seq<(Seq<char>, i64)> {
    if facts.len() < FALLBACK_FACTS && can_stand(sentence) && forall|j: int|
        0 <= j < facts.len() ==> normal((#[trigger] facts[j]).0) != normal(sentence) {
        facts.push((sentence, id))
    } else {
        facts
    }
}

/// The facts with those of the pieces of a passage.
pub open spec fn with_pieces(
    facts: Seq<(Seq<char>, i64)>,
    p: Seq<Seq<char>>,
    id: i64,
) -> Seq<(Seq<char>, i64)>
    decreases p.len(),
{
    if p.len() == 0 {
        facts
    } else {
        with_sentence(with_pieces(facts, p.drop_last(), id), trim(p.last()), id)
    }
}

/// The first concrete sentences of the passages, each with its passage.
pub open spec fn fallback_facts(items: Seq<ScoredChunkView>) -> Seq<(Seq<char>, i64)>
    decreases items.len(),
{
    if items.len() == 0 {
        seq![]
    } else {
        with_pieces(
            fallback_facts(items.drop_last()),
            split(items.last().chunk.content, CharClass::Three('\n', '.', ';')),
            items.last().chunk.id,
        )
    }
}

/// The line of a fact.
pub open spec fn fact_line(offset: nat, fact: (Seq<char>, i64)) -> Seq<char> {
    "DATO "@ + decimal(offset + 1) + ": "@ + fact.0 + " [chunk_id="@ + integer(fact.1 as int)
        + "]"@
}

/// The texts and passages of a list of facts.
pub open spec fn fact_views(v: Seq<(String, i64)>) -> Seq<(Seq<char>, i64)> {
    v.map_values(|f: (String, i64)| (f.0@, f.1))
}

fn add_sentence(facts: &mut Vec<(String, i64)>, sentence: String, id: i64)
    ensures
        fact_views(final(facts)@) == with_sentence(fact_views(old(facts)@), sentence@, id),
{
    let ghost had = fact_views(facts@);
    assert(had.len() == facts@.len());
    if facts.len() >= FALLBACK_FACTS {
        return ;
    }
    let length = char_count(sentence.as_str());
    if length < FALLBACK_MIN_CHARS || length > FALLBACK_MAX_CHARS {
        return ;
    }
    let found = concrete_terms(sentence.as_str());
    assert(views(found@).len() == found@.len());
    if found.len() == 0 {
        return ;
    }
    let key = normalize_for_validation(sentence.as_str());
    let mut j: usize = 0;
    while j < facts.len()
        invariant
            j <= facts.len(),
            had == fact_views(facts@),
            key@ == normal(sentence@),
            forall|m: int| 0 <= m < j ==> normal((#[trigger] had[m]).0) != normal(sentence@),
        decreases facts.len() - j,
    {
        assert(had[j as int] == (facts@[j as int].0@, facts@[j as int].1));
        let other = normalize_for_validation(facts[j].0.as_str());
        if other == key {
            assert(normal(had[j as int].0) == normal(sentence@));
            return ;
        }
        j += 1;
    }
    facts.push((sentence, id));
    assert(fact_views(facts@) =~= had.push((sentence@, id)));
}

/// The first concrete sentences of a document's passages.
pub fn safe_factual_fallback(document: &DocumentOverviewInput) -> (r: Vec<(String, i64)>)
    ensures
        fact_views(r@) == fallback_facts(document@.chunks),
{
    let ghost all = document@.chunks;
    let items = &document.representative_chunks;
    let mut facts: Vec<(String, i64)> = Vec::new();
    let mut i: usize = 0;
    assert(fact_views(facts@) =~= fallback_facts(all.take(0)));
    while i < items.len()
        invariant
            i <= items.len(),
            all == scored_views(items@),
            fact_views(facts@) == fallback_facts(all.take(i as int)),
        decreases items.len() - i,
    {
        assert(all.take(i + 1).drop_last() =~= all.take(i as int));
        let id = items[i].chunk.id;
        let p = pieces(items[i].chunk.content.as_str(), CharClass::Three('\n', '.', ';'));
        let ghost had = fact_views(facts@);
        let ghost ps = views(p@);
        let mut k: usize = 0;
        assert(with_pieces(had, ps.take(0), id) == had);
        while k < p.len()
            invariant
                k <= p.len(),
                ps == views(p@),
                fact_views(facts@) == with_pieces(had, ps.take(k as int), id),
            decreases p.len() - k,
        {
            assert(ps.take(k + 1).drop_last() =~= ps.take(k as int));
            let sentence = trimmed(p[k].as_str());
            add_sentence(&mut facts, sentence, id);
            k += 1;
        }
        assert(ps.take(k as int) =~= ps);
        i += 1;
    }
    assert(all.take(i as int) =~= all);
    facts
}

/// The analysis of a document with only what its passages bear out.
pub fn validate_overview_analysis(document: &DocumentOverviewInput, analysis: &str) -> (r: String)
    ensures
        r@ == checked_analysis(document@, analysis@),
{
    let names = [
        "OBJETIVO",
        "TIPO",
        "PUBLICO",
        "DATO 1",
        "DATO 2",
        "DATO 3",
        "INCERTIDUMBRE",
    ];
    assert(str_views(names@) =~= fields());
    let text = text_lines(analysis);
    let ghost l = checked_lines(document@, analysis@);
    let mut out: Vec<String> = Vec::new();
    let mut none: bool = true;
    let mut i: usize = 0;
    while i < 7
        invariant
            i <= 7,
            str_views(names@) == fields(),
            views(text@) == lines(analysis@),
            l == checked_lines(document@, analysis@),
            views(out@) == l.take(i as int),
            none <==> forall|j: int| 0 <= j < i ==> NO_EVIDENCE@.is_suffix_of(#[trigger] l[j]),
        decreases 7 - i,
    {
        assert(fields()[i as int] == names@[i as int]@);
        let line = check_line(document, &text, names[i]);
        assert(line@ == l[i as int]);
        if !ends_with(line.as_str(), NO_EVIDENCE) {
            none = false;
        }
        let ghost before = views(out@);
        out.push(line);
        assert(views(out@) =~= before.push(line@));
        assert(views(out@) =~= l.take(i + 1));
        i += 1;
    }
    assert(l.take(7) =~= l);
    assert(none == nothing_supported(l));
    let ghost facts = fallback_facts(document@.chunks);
    let ghost want = Seq::new(
        l.len(),
        |i: int|
            if nothing_supported(l) && 3 <= i < 3 + facts.len() {
                fact_line((i - 3) as nat, facts[i - 3])
            } else {
                l[i]
            },
    );
    if none {
        let found = safe_factual_fallback(document);
        proof {
            lemma_few_facts(document@.chunks);
            assert(facts.len() == found@.len());
        }
        let mut k: usize = 0;
        while k < found.len()
            invariant
                k <= found.len() <= 3,
                facts == fact_views(found@),
                out.len() == 7,
                l.len() == 7,
                forall|j: int|
                    0 <= j < 7 ==> (#[trigger] out@[j])@ == if 3 <= j < 3 + k {
                        fact_line((j - 3) as nat, facts[j - 3])
                    } else {
                        l[j]
                    },
            decreases found.len() - k,
        {
            assert(facts[k as int] == (found@[k as int].0@, found@[k as int].1));
            let mut line = "DATO ".to_owned();
            line.append(decimal_string(k as u128 + 1).as_str());
            line.append(": ");
            line.append(found[k].0.as_str());
            line.append(" [chunk_id=");
            line.append(integer_string(found[k].1).as_str());
            line.append("]");
            assert(line@ == fact_line(k as nat, facts[k as int]));
            out[3 + k] = line;
            k += 1;
        }
        assert(views(out@) =~= want);
    } else {
        assert(views(out@) =~= want);
    }
    joined(&out, "\n")
}

proof fn lemma_pieces_keep_few(facts: Seq<(Seq<char>, i64)>, p: Seq<Seq<char>>, id: i64)
    requires
        facts.len() <= FALLBACK_FACTS,
    ensures
        with_pieces(facts, p, id).len() <= FALLBACK_FACTS,
    decreases p.len(),
{
    if p.len() > 0 {
        lemma_pieces_keep_few(facts, p.drop_last(), id);
    }
}

proof fn lemma_few_facts(items: Seq<ScoredChunkView>)
    ensures
        fallback_facts(items).len() <= FALLBACK_FACTS,
    decreases items.len(),
{
    if items.len() > 0 {
        lemma_few_facts(items.drop_last());
        lemma_pieces_keep_few(
            fallback_facts(items.drop_last()),
            split(items.last().chunk.content, CharClass::Three('\n', '.', ';')),
            items.last().chunk.id,
        );
    }
}

/// A field of a checked analysis says nothing, or it says what passages of the
/// very document bear out, and names no web address.
pub proof fn law_checked_value(document: OverviewView, field: Seq<char>, value: Seq<char>)
    ensures
        checked_value(document, field, value) == unsupported_line(field) || exists|
            claim: Seq<char>,
            items: Seq<ScoredChunkView>,
        |
            #![trigger supported_line(field, claim, items)]
            {
                &&& checked_value(document, field, value) == supported_line(field, claim, items)
                &&& items.len() > 0
                &&& all_of_document(items, document.document_id)
                &&& forall|i: int|
                    0 <= i < items.len() ==> document.chunks.contains(#[trigger] items[i])
                &&& claim.len() > 0
                &&& !has_address(claim)
                &&& borne_out(field, claim, items)
            },
{
    let claim = trim(without_references(value));
    if checked_value(document, field, value) != unsupported_line(field) {
        let items = evidence_for(document, field, value).unwrap();
        let refs = references(value);
        assert forall|i: int| 0 <= i < items.len() implies document.chunks.contains(
            #[trigger] items[i],
        ) by {
            if refs.len() > 0 {
                assert(1 <= refs[i] <= document.chunks.len());
                assert(items[i] == document.chunks[refs[i] - 1]);
            }
        }
        assert(checked_value(document, field, value) == supported_line(field, claim, items));
    }
}

// ----------------------------------------------- facts are in the passages

/// The words of a text, in lower case with plain vowels.
pub open spec fn plain_words(s: Seq<char>) -> Set<Seq<char>> {
    split(normal(s), CharClass::NonAlphanumeric).to_set()
}

/// The words of a text that tell something: those of three bytes or more and numbers, but
/// no word that any document has.
pub open spec fn telling_words(s: Seq<char>) -> Set<Seq<char>> {
    plain_words(s).filter(
        |w: Seq<char>| (byte_len(w) >= 3 || all_digits(w)) && !stopwords().contains(w),
    )
}

/// Enough of the claim's telling words stand in the evidence: all of one or two, and of
/// more at least two and at least half.
pub open spec fn shares_words(claim: Seq<char>, evidence: Seq<char>) -> bool {
    let told = telling_words(claim);
    let shared = told.filter(|w: Seq<char>| plain_words(evidence).contains(w));
    &&& told.len() > 0
    &&& told.len() <= 2 ==> shared == told
    &&& told.len() > 2 ==> shared.len() >= 2 && 2 * shared.len() >= told.len()
}

proof fn lemma_telling(s: Seq<char>)
    ensures
        telling(s).to_set() == telling_words(s),
        telling(s).len() == telling_words(s).len(),
        telling(s).no_duplicates(),
        telling_words(s).finite(),
{
    let all = split(normal(s), CharClass::NonAlphanumeric);
    let keep = |w: Seq<char>| is_telling(w);
    let kept = all.filter(keep);
    lemma_distinct(kept);
    let t = telling(s);
    assert forall|w: Seq<char>| t.to_set().contains(w) <==> #[trigger] telling_words(s).contains(
        w,
    ) by {
        if t.contains(w) {
            assert(kept.contains(w));
            all.lemma_filter_contains_rev(keep, w);
            let i = choose|i: int| 0 <= i < kept.len() && kept[i] == w;
            all.lemma_filter_pred(keep, i);
        }
        if telling_words(s).contains(w) {
            let i = choose|i: int| 0 <= i < all.len() && all[i] == w;
            all.lemma_filter_contains(keep, i);
            assert(t.contains(w));
        }
    }
    assert(t.to_set() =~= telling_words(s));
    t.unique_seq_to_set();
}

proof fn lemma_matched(claim: Seq<char>, evidence: Seq<char>)
    ensures
        matched_words(telling(claim), telling(evidence)) == telling_words(claim).filter(
            |w: Seq<char>| plain_words(evidence).contains(w),
        ).len(),
        matched_words(telling(claim), telling(evidence)) == telling(claim).len()
            ==> telling_words(claim).filter(|w: Seq<char>| plain_words(evidence).contains(w))
            == telling_words(claim),
{
    let t = telling(claim);
    let known = telling(evidence);
    let told = telling_words(claim);
    let keep = |w: Seq<char>| known.contains(w);
    let stands = |w: Seq<char>| plain_words(evidence).contains(w);
    let matched = t.filter(keep);
    let shared = told.filter(stands);
    lemma_telling(claim);
    lemma_telling(evidence);
    let at = crate::order::lemma_kept_places(t, keep);
    assert(matched.no_duplicates()) by {
        assert forall|a: int, b: int| 0 <= a < b < matched.len() implies matched[a]
            != matched[b] by {
            assert(at[a] < at[b]);
            assert(matched[a] == t[at[a]] && matched[b] == t[at[b]]);
        }
    }
    assert forall|w: Seq<char>| matched.to_set().contains(w) <==> #[trigger] shared.contains(w) by {
        if matched.contains(w) {
            let i = choose|i: int| 0 <= i < matched.len() && matched[i] == w;
            assert(keep(t[at[i]]));
            assert(t.to_set().contains(w));
            assert(known.to_set().contains(w));
        }
        if shared.contains(w) {
            assert(t.to_set().contains(w));
            let i = choose|i: int| 0 <= i < t.len() && t[i] == w;
            assert(telling_words(evidence).contains(w));
            assert(known.to_set().contains(w));
            assert(at.contains(i));
            let j = choose|j: int| 0 <= j < at.len() && at[j] == i;
            assert(matched[j] == w);
        }
    }
    assert(matched.to_set() =~= shared);
    matched.unique_seq_to_set();
    assert(shared.subset_of(told));
    if shared.len() == told.len() {
        vstd::set_lib::lemma_subset_equality(shared, told);
    }
}

/// A claim rests on its evidence exactly where enough of its words stand there: all of one
/// or two telling words, and of more at least two and at least half. A claim none of whose
/// telling words stands in the evidence does not rest on it.
pub proof fn law_claim_shares_words(claim: Seq<char>, evidence: Seq<char>)
    ensures
        words_support(telling(claim), telling(evidence)) <==> shares_words(claim, evidence),
        telling_words(claim).disjoint(plain_words(evidence)) ==> !words_support(
            telling(claim),
            telling(evidence),
        ),
{
    let told = telling_words(claim);
    let shared = told.filter(|w: Seq<char>| plain_words(evidence).contains(w));
    lemma_telling(claim);
    lemma_matched(claim, evidence);
    if told.disjoint(plain_words(evidence)) {
        assert(shared =~= Set::empty());
    }
    if shared == told {
        assert(shared.len() == told.len());
    }
}

proof fn lemma_concrete_among(w: Seq<Seq<char>>, t: Seq<char>)
    ensures
        concrete_among(w).contains(t) <==> exists|i: int|
            0 <= i < w.len() && concrete_term(#[trigger] w[i]) == Some(t),
    decreases w.len(),
{
    if w.len() > 0 {
        let p = w.drop_last();
        let before = concrete_among(p);
        let r = concrete_among(w);
        lemma_concrete_among(p, t);
        if r.contains(t) {
            let j = choose|j: int| 0 <= j < r.len() && r[j] == t;
            if j < before.len() {
                assert(before[j] == t);
                let i = choose|i: int| 0 <= i < p.len() && concrete_term(#[trigger] p[i]) == Some(t);
                assert(w[i] == p[i]);
            } else {
                assert(concrete_term(w[w.len() - 1]) == Some(t));
            }
        }
        if exists|i: int| 0 <= i < w.len() && concrete_term(#[trigger] w[i]) == Some(t) {
            let i = choose|i: int| 0 <= i < w.len() && concrete_term(#[trigger] w[i]) == Some(t);
            if i < p.len() {
                assert(p[i] == w[i]);
                let j = choose|j: int| 0 <= j < before.len() && before[j] == t;
                assert(r[j] == t);
            } else {
                assert(r[before.len() as int] == t);
            }
        }
    }
}

/// Two words stand for the same measurable thing.
pub open spec fn same_measure(a: Seq<char>, b: Seq<char>) -> bool {
    concrete_term(a) is Some && concrete_term(a) == concrete_term(b)
}

/// Every measurable thing of the claim is measured in the evidence: each word of the claim
/// with a digit, each currency and each period of time has a word of the evidence for it.
pub open spec fn measures_agree(claim: Seq<char>, evidence: Seq<char>) -> bool {
    forall|w: Seq<char>| #[trigger]
        plain_words(claim).contains(w) && concrete_term(w) is Some ==> exists|v: Seq<char>|
            #[trigger] plain_words(evidence).contains(v) && same_measure(w, v)
}

/// What a claim measures is in its evidence exactly where each of its measures has one
/// there; a number, above all, stands in the evidence as it is, and so does a currency.
pub proof fn law_measures_are_in_the_evidence(claim: Seq<char>, evidence: Seq<char>)
    ensures
        all_in(concrete(claim), concrete(evidence)) <==> measures_agree(claim, evidence),
        all_in(concrete(claim), concrete(evidence)) ==> forall|w: Seq<char>| #[trigger]
            plain_words(claim).contains(w) && (has_digit(w) || w == "mxn"@ || w == "usd"@ || w
                == "eur"@) ==> plain_words(evidence).contains(w),
{
    let cw = split(normal(claim), CharClass::NonAlphanumeric);
    let ew = split(normal(evidence), CharClass::NonAlphanumeric);
    let c = concrete(claim);
    let e = concrete(evidence);
    lemma_distinct(concrete_among(cw));
    lemma_distinct(concrete_among(ew));
    if all_in(c, e) {
        assert forall|w: Seq<char>| #[trigger]
            plain_words(claim).contains(w) && concrete_term(w) is Some implies exists|v: Seq<char>|
            #[trigger] plain_words(evidence).contains(v) && same_measure(w, v) by {
            let t = concrete_term(w).unwrap();
            let i = choose|i: int| 0 <= i < cw.len() && cw[i] == w;
            lemma_concrete_among(cw, t);
            assert(concrete_among(cw).contains(t));
            assert(c.contains(t));
            let k = choose|k: int| 0 <= k < c.len() && c[k] == t;
            assert(e.contains(c[k]));
            lemma_concrete_among(ew, t);
            let j = choose|j: int| 0 <= j < ew.len() && concrete_term(#[trigger] ew[j]) == Some(t);
            assert(plain_words(evidence).contains(ew[j]));
            assert(same_measure(w, ew[j]));
        }
        assert forall|w: Seq<char>| #[trigger]
            plain_words(claim).contains(w) && (has_digit(w) || w == "mxn"@ || w == "usd"@ || w
                == "eur"@) implies plain_words(evidence).contains(w) by {
            assert(concrete_term(w) == Some(w));
            let v = choose|v: Seq<char>| #[trigger]
                plain_words(evidence).contains(v) && same_measure(w, v);
            lemma_measure_of_number(w, v);
        }
    }
    if measures_agree(claim, evidence) {
        assert forall|k: int| 0 <= k < c.len() implies e.contains(#[trigger] c[k]) by {
            let t = c[k];
            assert(c.contains(t));
            assert(concrete_among(cw).contains(t));
            lemma_concrete_among(cw, t);
            let i = choose|i: int| 0 <= i < cw.len() && concrete_term(#[trigger] cw[i]) == Some(t);
            assert(plain_words(claim).contains(cw[i]));
            let v = choose|v: Seq<char>| #[trigger]
                plain_words(evidence).contains(v) && same_measure(cw[i], v);
            let j = choose|j: int| 0 <= j < ew.len() && ew[j] == v;
            assert(concrete_term(ew[j]) == Some(t));
            lemma_concrete_among(ew, t);
            assert(concrete_among(ew).contains(t));
        }
    }
}

proof fn lemma_measure_of_number(w: Seq<char>, v: Seq<char>)
    requires
        has_digit(w) || w == "mxn"@ || w == "usd"@ || w == "eur"@,
        same_measure(w, v),
    ensures
        w == v,
{
    reveal_strlit("mxn");
    reveal_strlit("usd");
    reveal_strlit("eur");
    reveal_strlit("periodo:semana");
    reveal_strlit("periodo:quincena");
    reveal_strlit("periodo:dia");
    reveal_strlit("periodo:mes");
    reveal_strlit("periodo:ano");
    let t = concrete_term(v).unwrap();
    assert(t == w);
    if t != v {
        if has_digit(w) {
            let i = choose|i: int| 0 <= i < w.len() && crate::text::is_digit(#[trigger] w[i]);
            assert(t[i] == w[i]);
        } else {
            assert(w.len() == 3);
        }
        assert(false);
    }
}

/// A short line that measures something or has a verb that states a fact.
pub open spec fn states_fact(claim: Seq<char>) -> bool {
    &&& !claim.contains('\n')
    &&& claim.len() <= 180
    &&& exists|w: Seq<char>| #[trigger]
        plain_words(claim).contains(w) && (concrete_term(w) is Some || factual_verbs().contains(w))
}

/// A claim is a fact of its evidence exactly where it states something, measures nothing
/// that the evidence does not, and shares enough words with it.
pub proof fn law_fact_is_in_the_evidence(claim: Seq<char>, evidence: Seq<char>)
    ensures
        fact_supported(claim, evidence) <==> states_fact(claim) && measures_agree(claim, evidence)
            && shares_words(claim, evidence),
        synthesis_supported(claim, evidence) <==> !is_blank(claim) && measures_agree(
            claim,
            evidence,
        ),
{
    law_claim_shares_words(claim, evidence);
    law_measures_are_in_the_evidence(claim, evidence);
    lemma_useful(claim);
}

proof fn lemma_useful(claim: Seq<char>)
    ensures
        is_useful(claim) <==> states_fact(claim),
{
    let w = split(normal(claim), CharClass::NonAlphanumeric);
    let found = concrete(claim);
    lemma_distinct(concrete_among(w));
    reveal_strlit("\n");
    let feed = "\n"@;
    assert(contains(claim, feed) <==> claim.contains('\n')) by {
        if contains(claim, feed) {
            let i = choose|i: int| crate::text::occurs_at(claim, feed, i);
            assert(claim.subrange(i, i + 1)[0] == claim[i]);
        }
        if claim.contains('\n') {
            let i = choose|i: int| 0 <= i < claim.len() && claim[i] == '\n';
            assert(claim.subrange(i, i + 1) =~= feed);
            assert(crate::text::occurs_at(claim, feed, i));
        }
    }
    if found.len() > 0 {
        let t = found[0];
        assert(found.contains(t));
        assert(concrete_among(w).contains(t));
        lemma_concrete_among(w, t);
        let i = choose|i: int| 0 <= i < w.len() && concrete_term(#[trigger] w[i]) == Some(t);
        assert(plain_words(claim).contains(w[i]));
    }
    if has_factual_verb(w) {
        let i = choose|i: int| 0 <= i < w.len() && factual_verbs().contains(#[trigger] w[i]);
        assert(plain_words(claim).contains(w[i]));
    }
    if states_fact(claim) {
        let x = choose|x: Seq<char>| #[trigger]
            plain_words(claim).contains(x) && (concrete_term(x) is Some
                || factual_verbs().contains(x));
        let i = choose|i: int| 0 <= i < w.len() && w[i] == x;
        if concrete_term(x) is Some {
            let t = concrete_term(x).unwrap();
            lemma_concrete_among(w, t);
            assert(concrete_term(w[i]) == Some(t));
            assert(concrete_among(w).contains(t));
            assert(found.contains(t));
        } else {
            assert(factual_verbs().contains(w[i]));
        }
    }
}

/// The passages at these places, their contents on lines of their own.
pub open spec fn evidence_at(document: OverviewView, at: Seq<int>) -> Seq<char> {
    join(Seq::new(at.len(), |i: int| document.chunks[at[i]].chunk.content), "\n"@)
}

/// The line gives a claim under its field, and the passages at these places, which are
/// passages of the document, as what it rests on.
pub open spec fn gives_claim(
    line: Seq<char>,
    document: OverviewView,
    field: Seq<char>,
    claim: Seq<char>,
    at: Seq<int>,
) -> bool {
    &&& at.len() > 0
    &&& forall|i: int|
        0 <= i < at.len() ==> 0 <= #[trigger] at[i] < document.chunks.len()
            && document.chunks[at[i]].chunk.document_id == document.document_id
    &&& line == field + ": "@ + claim + " [chunk_id="@ + join(
        Seq::new(at.len(), |i: int| integer(document.chunks[at[i]].chunk.id as int)),
        ","@,
    ) + "]"@
    &&& claim.len() > 0
    &&& !contains(claim, "http://"@)
    &&& !contains(claim, "https://"@)
}

/// A field of a checked analysis says that there is no evidence, or it gives a claim that
/// passages of the document bear out, and names them. A fact shares enough words with the
/// passages that it cites; whatever is claimed measures nothing that they do not.
pub proof fn law_kept_claims_are_in_the_passages(
    document: OverviewView,
    analysis: Seq<char>,
    field: Seq<char>,
)
    ensures
        ({
            let line = checked_line(document, analysis, field);
            let is_fact = label_key(field) == "dato1"@ || label_key(field) == "dato2"@ || label_key(
                field,
            ) == "dato3"@;
            line == field + ": "@ + NO_EVIDENCE@ || exists|claim: Seq<char>, at: Seq<int>|
                {
                    &&& #[trigger] gives_claim(line, document, field, claim, at)
                    &&& measures_agree(claim, evidence_at(document, at))
                    &&& is_fact ==> states_fact(claim) && shares_words(
                        claim,
                        evidence_at(document, at),
                    )
                }
        }),
{
    let line = checked_line(document, analysis, field);
    if line != field + ": "@ + NO_EVIDENCE@ {
        let value = labelled(lines(analysis), field).unwrap();
        let claim = trim(without_references(value));
        let items = evidence_for(document, field, value).unwrap();
        let refs = references(value);
        let at = if refs.len() > 0 {
            refs.map_values(|n: int| n - 1)
        } else {
            Seq::new(document.chunks.len(), |i: int| i)
        };
        assert(items.len() == at.len());
        assert forall|i: int| 0 <= i < at.len() implies 0 <= #[trigger] at[i]
            < document.chunks.len() && document.chunks[at[i]].chunk.document_id
            == document.document_id && items[i] == document.chunks[at[i]] by {
            if refs.len() > 0 {
                assert(1 <= refs[i] <= document.chunks.len());
            }
            assert(items[i].chunk.document_id == document.document_id);
        }
        assert(contents(items) =~= Seq::new(
            at.len(),
            |i: int| document.chunks[at[i]].chunk.content,
        ));
        assert(identifiers(items) =~= Seq::new(
            at.len(),
            |i: int| integer(document.chunks[at[i]].chunk.id as int),
        ));
        law_fact_is_in_the_evidence(claim, evidence_at(document, at));
        assert(gives_claim(line, document, field, claim, at));
    }
}

/// The places of the passages that a value cites are told by its references: the number
/// behind each `C` that stands alone.
pub proof fn law_references_are_in_the_value(value: Seq<char>, n: int)
    ensures
        references(value).contains(n) <==> exists|token: Seq<char>|
            {
                &&& #[trigger] split(value, CharClass::NonAlphanumeric).contains(token)
                &&& token.len() > 1
                &&& token[0] == 'C' || token[0] == 'c'
                &&& all_digits(token.skip(1))
                &&& number(token.skip(1)) == n
                &&& n <= usize::MAX
            },
        forall|i: int, j: int|
            0 <= i < j < references(value).len() ==> #[trigger] references(value)[i]
                < #[trigger] references(value)[j],
{
    let tokens = split(value, CharClass::NonAlphanumeric);
    lemma_references_among(tokens, n);
    if references(value).contains(n) {
        let i = choose|i: int|
            0 <= i < tokens.len() && reference_digits(#[trigger] tokens[i]) is Some && number(
                reference_digits(tokens[i]).unwrap(),
            ) == n && n <= usize::MAX;
        assert(tokens.contains(tokens[i]));
    }
    if exists|token: Seq<char>|
        {
            &&& #[trigger] tokens.contains(token)
            &&& token.len() > 1
            &&& token[0] == 'C' || token[0] == 'c'
            &&& all_digits(token.skip(1))
            &&& number(token.skip(1)) == n
            &&& n <= usize::MAX
        } {
        let token = choose|token: Seq<char>|
            {
                &&& #[trigger] tokens.contains(token)
                &&& token.len() > 1
                &&& token[0] == 'C' || token[0] == 'c'
                &&& all_digits(token.skip(1))
                &&& number(token.skip(1)) == n
                &&& n <= usize::MAX
            };
        let i = choose|i: int| 0 <= i < tokens.len() && tokens[i] == token;
        assert(reference_digits(tokens[i]) == Some(token.skip(1)));
    }
}

proof fn lemma_inserted(s: Seq<int>, n: int)
    requires
        forall|i: int, j: int| 0 <= i < j < s.len() ==> #[trigger] s[i] < #[trigger] s[j],
    ensures
        ({
            let r = insert_unique(s, n);
            &&& forall|i: int, j: int| 0 <= i < j < r.len() ==> #[trigger] r[i] < #[trigger] r[j]
            &&& forall|x: int| #[trigger] r.contains(x) <==> s.contains(x) || x == n
        }),
    decreases s.len(),
{
    let r = insert_unique(s, n);
    if s.len() == 0 {
        assert(r[0] == n);
        assert forall|x: int| #[trigger] r.contains(x) <==> s.contains(x) || x == n by {}
    } else if s.last() == n {
        assert(s[s.len() - 1] == n);
    } else if s.last() < n {
        assert forall|i: int, j: int| 0 <= i < j < r.len() implies #[trigger] r[i]
            < #[trigger] r[j] by {
            if j == s.len() {
                assert(s[i] <= s[s.len() - 1]);
            }
        }
        assert forall|x: int| #[trigger] r.contains(x) <==> s.contains(x) || x == n by {
            if s.contains(x) {
                let i = choose|i: int| 0 <= i < s.len() && s[i] == x;
                assert(r[i] == x);
            }
            assert(r[s.len() as int] == n);
            if r.contains(x) && x != n {
                let i = choose|i: int| 0 <= i < r.len() && r[i] == x;
                assert(s[i] == x);
            }
        }
    } else {
        let p = s.drop_last();
        assert forall|i: int, j: int| 0 <= i < j < p.len() implies #[trigger] p[i]
            < #[trigger] p[j] by {
            assert(s[i] < s[j]);
        }
        lemma_inserted(p, n);
        let q = insert_unique(p, n);
        assert forall|i: int, j: int| 0 <= i < j < r.len() implies #[trigger] r[i]
            < #[trigger] r[j] by {
            if j == q.len() {
                assert(q.contains(q[i]));
                if q[i] != n {
                    let k = choose|k: int| 0 <= k < p.len() && p[k] == q[i];
                    assert(s[k] < s[s.len() - 1]);
                }
            } else {
                assert(q[i] < q[j]);
            }
        }
        assert forall|x: int| #[trigger] r.contains(x) <==> s.contains(x) || x == n by {
            if r.contains(x) {
                let i = choose|i: int| 0 <= i < r.len() && r[i] == x;
                if i < q.len() {
                    assert(q.contains(x));
                    if x != n {
                        let k = choose|k: int| 0 <= k < p.len() && p[k] == x;
                        assert(s[k] == x);
                    }
                } else {
                    assert(s[s.len() - 1] == x);
                }
            }
            if s.contains(x) || x == n {
                if x == s.last() {
                    assert(r[q.len() as int] == x);
                } else {
                    if s.contains(x) {
                        let k = choose|k: int| 0 <= k < s.len() && s[k] == x;
                        assert(p[k] == x);
                    }
                    assert(q.contains(x));
                    let i = choose|i: int| 0 <= i < q.len() && q[i] == x;
                    assert(r[i] == x);
                }
            }
        }
    }
}

proof fn lemma_references_among(tokens: Seq<Seq<char>>, n: int)
    ensures
        references_among(tokens).contains(n) <==> exists|i: int|
            0 <= i < tokens.len() && reference_digits(#[trigger] tokens[i]) is Some && number(
                reference_digits(tokens[i]).unwrap(),
            ) == n && n <= usize::MAX,
        forall|i: int, j: int|
            0 <= i < j < references_among(tokens).len() ==> #[trigger] references_among(tokens)[i]
                < #[trigger] references_among(tokens)[j],
    decreases tokens.len(),
{
    if tokens.len() > 0 {
        let p = tokens.drop_last();
        let before = references_among(p);
        lemma_references_among(p, n);
        if let Some(d) = reference_digits(tokens.last()) {
            if number(d) <= usize::MAX {
                lemma_inserted(before, number(d) as int);
            }
        }
        if exists|i: int|
            0 <= i < p.len() && reference_digits(#[trigger] p[i]) is Some && number(
                reference_digits(p[i]).unwrap(),
            ) == n && n <= usize::MAX {
            let i = choose|i: int|
                0 <= i < p.len() && reference_digits(#[trigger] p[i]) is Some && number(
                    reference_digits(p[i]).unwrap(),
                ) == n && n <= usize::MAX;
            assert(tokens[i] == p[i]);
        }
        if exists|i: int|
            0 <= i < tokens.len() && reference_digits(#[trigger] tokens[i]) is Some && number(
                reference_digits(tokens[i]).unwrap(),
            ) == n && n <= usize::MAX {
            let i = choose|i: int|
                0 <= i < tokens.len() && reference_digits(#[trigger] tokens[i]) is Some && number(
                    reference_digits(tokens[i]).unwrap(),
                ) == n && n <= usize::MAX;
            if i < p.len() {
                assert(p[i] == tokens[i]);
            }
        }
        if references_among(tokens).contains(n) && !before.contains(n) {
            assert(reference_digits(tokens[tokens.len() - 1]) is Some);
        }
    }
}

// ------------------------------------------------------ the whole analysis

/// The fact is a sentence of a passage: neither short nor long, and it measures something.
pub open spec fn is_sentence_of(fact: (Seq<char>, i64), item: ScoredChunkView) -> bool {
    &&& fact.1 == item.chunk.id
    &&& contains(item.chunk.content, fact.0)
    &&& 8 <= fact.0.len() <= 140
    &&& exists|w: Seq<char>| #[trigger]
        plain_words(fact.0).contains(w) && concrete_term(w) is Some
}

/// The fact is a sentence of one of the passages.
pub open spec fn is_sentence_among(fact: (Seq<char>, i64), items: Seq<ScoredChunkView>) -> bool {
    exists|i: int| 0 <= i < items.len() && is_sentence_of(fact, #[trigger] items[i])
}

proof fn lemma_stands_measures(s: Seq<char>)
    requires
        concrete(s).len() > 0,
    ensures
        exists|w: Seq<char>| #[trigger] plain_words(s).contains(w) && concrete_term(w) is Some,
{
    let w = split(normal(s), CharClass::NonAlphanumeric);
    lemma_distinct(concrete_among(w));
    let t = concrete(s)[0];
    assert(concrete(s).contains(t));
    lemma_concrete_among(w, t);
    let i = choose|i: int| 0 <= i < w.len() && concrete_term(#[trigger] w[i]) == Some(t);
    assert(plain_words(s).contains(w[i]));
}

proof fn lemma_pieces_are_sentences(
    facts: Seq<(Seq<char>, i64)>,
    p: Seq<Seq<char>>,
    item: ScoredChunkView,
    n: int,
)
    requires
        p == split(item.chunk.content, CharClass::Three('\n', '.', ';')),
        0 <= n <= p.len(),
    ensures
        ({
            let r = with_pieces(facts, p.take(n), item.chunk.id);
            &&& facts.len() <= r.len()
            &&& forall|j: int| 0 <= j < facts.len() ==> #[trigger] r[j] == facts[j]
            &&& forall|j: int|
                facts.len() <= j < r.len() ==> is_sentence_of(#[trigger] r[j], item)
        }),
    decreases n,
{
    let q = p.take(n);
    if n > 0 {
        assert(q.drop_last() =~= p.take(n - 1));
        assert(q.last() == p[n - 1]);
        lemma_pieces_are_sentences(facts, p, item, n - 1);
        let sentence = trim(p[n - 1]);
        lemma_split_contains(item.chunk.content, CharClass::Three('\n', '.', ';'), n - 1);
        lemma_trim_stands(p[n - 1]);
        lemma_contains_chain(item.chunk.content, p[n - 1], sentence);
        if can_stand(sentence) {
            lemma_stands_measures(sentence);
        }
    }
}

/// What stands in for an analysis are sentences of the passages, three at most, each with
/// the number of its passage; no two say the same.
pub proof fn law_fallback_facts_are_sentences(items: Seq<ScoredChunkView>)
    ensures
        fallback_facts(items).len() <= 3,
        forall|j: int|
            0 <= j < fallback_facts(items).len() ==> is_sentence_among(
                #[trigger] fallback_facts(items)[j],
                items,
            ),
    decreases items.len(),
{
    let r = fallback_facts(items);
    lemma_few_facts(items);
    if items.len() > 0 {
        let p = items.drop_last();
        let last = items.last();
        let before = fallback_facts(p);
        let pieces = split(last.chunk.content, CharClass::Three('\n', '.', ';'));
        law_fallback_facts_are_sentences(p);
        assert(pieces.take(pieces.len() as int) =~= pieces);
        lemma_pieces_are_sentences(before, pieces, last, pieces.len() as int);
        assert forall|j: int| 0 <= j < r.len() implies is_sentence_among(#[trigger] r[j], items) by {
            if j < before.len() {
                assert(r[j] == before[j]);
                let i = choose|i: int| 0 <= i < p.len() && is_sentence_of(before[j], #[trigger] p[i]);
                assert(items[i] == p[i]);
            } else {
                assert(is_sentence_of(r[j], items[items.len() - 1]));
            }
        }
    }
}

/// The line gives a fact, a sentence of a passage of the document, under a number.
pub open spec fn gives_sentence(line: Seq<char>, document: OverviewView, number: nat) -> bool {
    exists|fact: (Seq<char>, i64)|
        {
            &&& #[trigger] is_sentence_among(fact, document.chunks)
            &&& line == "DATO "@ + decimal(number) + ": "@ + fact.0 + " [chunk_id="@ + integer(
                fact.1 as int,
            ) + "]"@
        }
}

/// A checked analysis has seven lines, one for each field and in their order. Each is what
/// was checked under its field; only where no field at all has evidence, sentences of the
/// passages stand under the facts.
pub proof fn law_analysis_has_every_field(document: OverviewView, analysis: Seq<char>)
    ensures
        exists|l: Seq<Seq<char>>|
            {
                let names = seq![
                    "OBJETIVO"@,
                    "TIPO"@,
                    "PUBLICO"@,
                    "DATO 1"@,
                    "DATO 2"@,
                    "DATO 3"@,
                    "INCERTIDUMBRE"@,
                ];
                &&& checked_analysis(document, analysis) == #[trigger] join(l, "\n"@)
                &&& l.len() == 7
                &&& forall|i: int|
                    0 <= i < 7 ==> #[trigger] l[i] == checked_line(document, analysis, names[i])
                        || (3 <= i < 6 && gives_sentence(l[i], document, (i - 2) as nat)
                        && forall|j: int|
                        0 <= j < 7 ==> NO_EVIDENCE@.is_suffix_of(
                            checked_line(document, analysis, #[trigger] names[j]),
                        ))
            },
{
    let names = seq![
        "OBJETIVO"@,
        "TIPO"@,
        "PUBLICO"@,
        "DATO 1"@,
        "DATO 2"@,
        "DATO 3"@,
        "INCERTIDUMBRE"@,
    ];
    let checked = checked_lines(document, analysis);
    let facts = fallback_facts(document.chunks);
    let l = Seq::new(
        checked.len(),
        |i: int|
            if nothing_supported(checked) && 3 <= i < 3 + facts.len() {
                fact_line((i - 3) as nat, facts[i - 3])
            } else {
                checked[i]
            },
    );
    law_fallback_facts_are_sentences(document.chunks);
    assert(fields() =~= names);
    assert(checked_analysis(document, analysis) == join(l, "\n"@));
    assert forall|i: int| 0 <= i < 7 implies #[trigger] l[i] == checked_line(
        document,
        analysis,
        names[i],
    ) || (3 <= i < 6 && gives_sentence(l[i], document, (i - 2) as nat) && forall|j: int|
        0 <= j < 7 ==> NO_EVIDENCE@.is_suffix_of(
            checked_line(document, analysis, #[trigger] names[j]),
        )) by {
        if nothing_supported(checked) && 3 <= i < 3 + facts.len() {
            assert(is_sentence_among(facts[i - 3], document.chunks));
            assert forall|j: int| 0 <= j < 7 implies NO_EVIDENCE@.is_suffix_of(
                checked_line(document, analysis, #[trigger] names[j]),
            ) by {
                assert(NO_EVIDENCE@.is_suffix_of(checked[j]));
            }
        }
    }
}

/// What an analysis says under a field is taken from a line of it, the first with that
/// label; a field without such a line has nothing.
pub proof fn law_labelled(l: Seq<Seq<char>>, field: Seq<char>)
    ensures
        match labelled(l, field) {
            Some(value) => exists|i: int|
                0 <= i < l.len() && has_label(#[trigger] l[i], field) && contains(l[i], value)
                    && forall|j: int| 0 <= j < i ==> !has_label(#[trigger] l[j], field),
            None => forall|i: int| 0 <= i < l.len() ==> !has_label(#[trigger] l[i], field),
        },
    decreases l.len(),
{
    if l.len() > 0 {
        let t = l.skip(1);
        law_labelled(t, field);
        assert forall|i: int| 0 <= i < t.len() implies #[trigger] t[i] == l[i + 1] by {}
        if has_label(l[0], field) {
            let line = clean_line(l[0]);
            let h = split_once(line, ':').unwrap();
            lemma_clean_line_stands(l[0]);
            lemma_span(line, CharClass::One(':'));
            let n = span(line, CharClass::One(':')) as int;
            lemma_contains_add(line.take(n + 1), h.1, h.1);
            lemma_contains_between(seq![], h.1, seq![]);
            assert(Seq::<char>::empty() + h.1 + seq![] =~= h.1);
            assert(line.take(n + 1) + h.1 =~= line);
            lemma_trim_stands(h.1);
            lemma_contains_chain(line, h.1, trim(h.1));
            lemma_contains_chain(l[0], line, trim(h.1));
        } else {
            if let Some(value) = labelled(l, field) {
                let i = choose|i: int|
                    0 <= i < t.len() && has_label(#[trigger] t[i], field) && contains(t[i], value)
                        && forall|j: int| 0 <= j < i ==> !has_label(#[trigger] t[j], field);
                assert(l[i + 1] == t[i]);
                assert forall|j: int| 0 <= j < i + 1 implies !has_label(#[trigger] l[j], field) by {
                    if j > 0 {
                        assert(t[j - 1] == l[j]);
                    }
                }
            } else {
                assert forall|i: int| 0 <= i < l.len() implies !has_label(
                    #[trigger] l[i],
                    field,
                ) by {
                    if i > 0 {
                        assert(t[i - 1] == l[i]);
                    }
                }
            }
        }
    }
}

/// The line, but for list marks and emphasis, begins with the label and a colon.
pub open spec fn has_label(line: Seq<char>, field: Seq<char>) -> bool {
    split_once(clean_line(line), ':') matches Some(h) && label_key(h.0) == label_key(field)
}

proof fn lemma_trim_class_stands(s: Seq<char>, k: CharClass)
    ensures
        contains(s, trim_start(s, k)),
        contains(s, trim_class(s, k)),
{
    let t = trim_start(s, k);
    lemma_trim_start_stands(s, k);
    lemma_trim_end_stands(t, k);
    lemma_contains_chain(s, t, trim_class(s, k));
}

proof fn lemma_trim_start_stands(s: Seq<char>, k: CharClass)
    ensures
        contains(s, trim_start(s, k)),
    decreases s.len(),
{
    if s.len() > 0 && k.has(s[0]) {
        lemma_trim_start_stands(s.skip(1), k);
        lemma_contains_add(seq![s[0]], s.skip(1), trim_start(s, k));
        assert(seq![s[0]] + s.skip(1) =~= s);
    } else {
        lemma_contains_between(seq![], s, seq![]);
        assert(Seq::<char>::empty() + s + seq![] =~= s);
    }
}

proof fn lemma_trim_end_stands(s: Seq<char>, k: CharClass)
    ensures
        contains(s, trim_end(s, k)),
    decreases s.len(),
{
    if s.len() > 0 && k.has(s.last()) {
        lemma_trim_end_stands(s.drop_last(), k);
        lemma_contains_add(s.drop_last(), seq![s.last()], trim_end(s, k));
        assert(s.drop_last() + seq![s.last()] =~= s);
    } else {
        lemma_contains_between(seq![], s, seq![]);
        assert(Seq::<char>::empty() + s + seq![] =~= s);
    }
}

proof fn lemma_clean_line_stands(line: Seq<char>)
    ensures
        contains(line, clean_line(line)),
{
    let t = trim(line);
    let u = trim_start(t, CharClass::Three('-', '*', ' '));
    lemma_trim_stands(line);
    lemma_trim_class_stands(t, CharClass::Three('-', '*', ' '));
    lemma_trim_class_stands(u, CharClass::One('*'));
    lemma_contains_chain(line, t, u);
    lemma_contains_chain(line, u, clean_line(line));
}

/// What is told of a passage that a claim can cite: its number and its page.
pub open spec fn cited_facts(index: nat, item: ScoredChunkView) -> Seq<Seq<char>> {
    seq![
        decimal(index + 1),
        match item.chunk.page_number {
            Some(page) => decimal(page as nat),
            None => "-"@,
        },
    ]
}

spec fn cited_entry(index: nat, item: ScoredChunkView) -> Seq<char> {
    "[C"@ + decimal(index + 1) + "] pagina "@ + page_or_dash(item.chunk.page_number) + ":\n"@
        + item.chunk.content + "\n"@
}

proof fn lemma_cited_entry(index: nat, item: ScoredChunkView)
    ensures
        quotes(cited_entry(index, item), cited_facts(index, item), item.chunk.content),
{
    let c = item.chunk;
    let f0 = "[C"@;
    let f1 = f0 + decimal(index + 1);
    let f2 = f1 + "] pagina "@;
    let f3 = f2 + page_or_dash(c.page_number);
    let f4 = f3 + ":"@;
    let v0 = Seq::<Seq<char>>::empty();
    lemma_run_push(v0, "[C"@);
    let v1 = v0.push("[C"@);
    assert(run_together(v0) + "[C"@ =~= f0);
    assert(run_together(v1) == f0);
    lemma_run_push(v1, decimal(index + 1));
    let v2 = v1.push(decimal(index + 1));
    assert(run_together(v2) == f1);
    lemma_run_push(v2, "] pagina "@);
    let v3 = v2.push("] pagina "@);
    assert(run_together(v3) == f2);
    lemma_run_push(v3, page_or_dash(c.page_number));
    let v4 = v3.push(page_or_dash(c.page_number));
    assert(run_together(v4) == f3);
    lemma_run_push(v4, ":"@);
    let v5 = v4.push(":"@);
    assert(run_together(v5) == f4);
    reveal_strlit(":");
    reveal_strlit(":\n");
    reveal_strlit("\n");
    assert(f3 + ":\n"@ =~= f4 + "\n"@);
    assert(cited_entry(index, item) == run_together(v5) + "\n"@ + c.content + "\n"@);
    let facts = cited_facts(index, item);
    assert(v5[1] == facts[0] && v5[3] == facts[1]);
}

proof fn lemma_cited_run(items: Seq<ScoredChunkView>)
    ensures
        cited_passages(items) == run_together(
            Seq::new(items.len(), |k: int| cited_entry(k as nat, items[k])),
        ),
    decreases items.len(),
{
    let entries = Seq::new(items.len(), |k: int| cited_entry(k as nat, items[k]));
    if items.len() > 0 {
        let p = items.drop_last();
        lemma_cited_run(p);
        assert(entries.drop_last() =~= Seq::new(p.len(), |k: int| cited_entry(k as nat, p[k])));
    }
}

/// The passages that an analysis can cite are all of the document's, in their order and
/// nothing else: each under its number and with its page, and its whole content.
pub proof fn law_analysis_prompt_quotes_every_passage(items: Seq<ScoredChunkView>)
    ensures
        exists|entries: Seq<Seq<char>>|
            {
                &&& cited_passages(items) == #[trigger] run_together(entries)
                &&& entries.len() == items.len()
                &&& forall|k: int|
                    0 <= k < items.len() ==> quotes(
                        #[trigger] entries[k],
                        cited_facts(k as nat, items[k]),
                        items[k].chunk.content,
                    )
            },
        forall|k: int|
            0 <= k < items.len() ==> contains(
                cited_passages(items),
                (#[trigger] items[k]).chunk.content,
            ),
{
    let entries = Seq::new(items.len(), |k: int| cited_entry(k as nat, items[k]));
    lemma_cited_run(items);
    assert forall|k: int| 0 <= k < items.len() implies quotes(
        #[trigger] entries[k],
        cited_facts(k as nat, items[k]),
        items[k].chunk.content,
    ) by {
        lemma_cited_entry(k as nat, items[k]);
    }
    assert forall|k: int| 0 <= k < items.len() implies contains(
        cited_passages(items),
        (#[trigger] items[k]).chunk.content,
    ) by {
        assert(quotes(entries[k], cited_facts(k as nat, items[k]), items[k].chunk.content));
        lemma_quoted(entries[k], cited_facts(k as nat, items[k]), items[k].chunk.content);
        lemma_contains_run(entries, k, items[k].chunk.content);
    }
    assert(cited_passages(items) == run_together(entries));
}

spec fn sheet(a: (i64, Seq<char>, Seq<char>)) -> Seq<char> {
    "\n[document_id="@ + integer(a.0 as int) + "; filename="@ + a.1 + "]\n"@ + a.2 + "\n"@
}

proof fn lemma_sheet(a: (i64, Seq<char>, Seq<char>))
    ensures
        quotes(sheet(a), seq![integer(a.0 as int), a.1], a.2),
{
    let f0 = "\n[document_id="@;
    let f1 = f0 + integer(a.0 as int);
    let f2 = f1 + "; filename="@;
    let f3 = f2 + a.1;
    let f4 = f3 + "]"@;
    let v0 = Seq::<Seq<char>>::empty();
    lemma_run_push(v0, "\n[document_id="@);
    let v1 = v0.push("\n[document_id="@);
    assert(run_together(v0) + "\n[document_id="@ =~= f0);
    assert(run_together(v1) == f0);
    lemma_run_push(v1, integer(a.0 as int));
    let v2 = v1.push(integer(a.0 as int));
    assert(run_together(v2) == f1);
    lemma_run_push(v2, "; filename="@);
    let v3 = v2.push("; filename="@);
    assert(run_together(v3) == f2);
    lemma_run_push(v3, a.1);
    let v4 = v3.push(a.1);
    assert(run_together(v4) == f3);
    lemma_run_push(v4, "]"@);
    let v5 = v4.push("]"@);
    assert(run_together(v5) == f4);
    reveal_strlit("]");
    reveal_strlit("]\n");
    reveal_strlit("\n");
    assert(f3 + "]\n"@ =~= f4 + "\n"@);
    assert(sheet(a) == run_together(v5) + "\n"@ + a.2 + "\n"@);
    assert(v5[1] == integer(a.0 as int) && v5[3] == a.1);
}

proof fn lemma_sheets_run(a: Seq<(i64, Seq<char>, Seq<char>)>)
    ensures
        analysis_sheets(a) == run_together(a.map_values(|x: (i64, Seq<char>, Seq<char>)| sheet(x))),
    decreases a.len(),
{
    let entries = a.map_values(|x: (i64, Seq<char>, Seq<char>)| sheet(x));
    if a.len() > 0 {
        lemma_sheets_run(a.drop_last());
        assert(entries.drop_last() =~= a.drop_last().map_values(
            |x: (i64, Seq<char>, Seq<char>)| sheet(x),
        ));
    }
}

/// The sheets from which a question about the library is answered are those of all
/// documents, in their order and nothing else: each with the number and the name of its
/// document, and its whole analysis.
pub proof fn law_sheets_hold_every_analysis(a: Seq<(i64, Seq<char>, Seq<char>)>)
    ensures
        exists|entries: Seq<Seq<char>>|
            {
                &&& analysis_sheets(a) == #[trigger] run_together(entries)
                &&& entries.len() == a.len()
                &&& forall|k: int|
                    0 <= k < a.len() ==> quotes(
                        #[trigger] entries[k],
                        seq![integer(a[k].0 as int), a[k].1],
                        a[k].2,
                    )
            },
        forall|k: int| 0 <= k < a.len() ==> contains(analysis_sheets(a), (#[trigger] a[k]).2),
{
    let entries = a.map_values(|x: (i64, Seq<char>, Seq<char>)| sheet(x));
    lemma_sheets_run(a);
    assert forall|k: int| 0 <= k < a.len() implies quotes(
        #[trigger] entries[k],
        seq![integer(a[k].0 as int), a[k].1],
        a[k].2,
    ) by {
        lemma_sheet(a[k]);
    }
    assert forall|k: int| 0 <= k < a.len() implies contains(
        analysis_sheets(a),
        (#[trigger] a[k]).2,
    ) by {
        assert(quotes(entries[k], seq![integer(a[k].0 as int), a[k].1], a[k].2));
        lemma_quoted(entries[k], seq![integer(a[k].0 as int), a[k].1], a[k].2);
        lemma_contains_run(entries, k, a[k].2);
    }
    assert(analysis_sheets(a) == run_together(entries));
}

// ---------------------------------------------------------------- synthesis

/// Analyses of documents: the identifier, the name and the checked analysis.
pub open spec fn analysis_views(v: Seq<(i64, String, String)>) -> Seq<(i64, Seq<char>, Seq<char>)> {
    v.map_values(|a: (i64, String, String)| (a.0, a.1@, a.2@))
}

/// The normalized question wants each document in a row of its own.
pub open spec fn wants_rows(normalized: Seq<char>) -> bool {
    contains(normalized, "compara"@) || contains(normalized, "comparacion"@) || contains(
        normalized,
        "tabla"@,
    )
}

/// Whether the normalized question wants each document in a row of its own.
pub fn asks_for_rows(normalized: &str) -> (r: bool)
    ensures
        r == wants_rows(normalized@),
{
    has(normalized, "compara") || has(normalized, "comparacion") || has(normalized, "tabla")
}

/// Whether the question wants each document in a row of its own.
pub fn overview_requires_document_rows(question: &str) -> (r: bool)
    ensures
        r == wants_rows(normal(question@)),
{
    let n = normalize_for_validation(question);
    asks_for_rows(n.as_str())
}

pub const ROW_RULE: &'static str =
    "Si pidio una tabla, devuelve una sola tabla y, como maximo, una nota breve. Incluye exactamente una fila o entidad por documento con su nombre real.";

pub const GLOBAL_RULE: &'static str =
    "La consulta pide una sintesis global: usa las fichas de todos los documentos, responde en el numero de puntos solicitado y no la conviertas obligatoriamente en una tabla o seccion por archivo.";

pub const SYNTHESIS_BEFORE: &'static str = "El usuario pregunto: ";

pub const SYNTHESIS_TASK: &'static str =
    "\n\nProduce unicamente la respuesta final solicitada usando las fichas internas. ";

pub const SYNTHESIS_RULES: &'static str =
    " No muestres las fichas internas, chunk_id ni secciones por fragmento. No generes URLs o enlaces de fuentes; Kuznor muestra las fuentes reales por separado. No inventes relaciones ni datos sin evidencia. No digas que la biblioteca carece de informacion si alguna ficha contiene datos validados. SIN EVIDENCIA SUFICIENTE debe conservarse solo para criterios realmente no respaldados.\n\nFICHAS INTERNAS:\n";

/// The analyses as the model is shown them.
pub open spec fn analysis_sheets(a: Seq<(i64, Seq<char>, Seq<char>)>) -> Seq<char>
    decreases a.len(),
{
    if a.len() == 0 {
        seq![]
    } else {
        analysis_sheets(a.drop_last()) + ("\n[document_id="@ + integer(a.last().0 as int)
            + "; filename="@ + a.last().1 + "]\n"@ + a.last().2 + "\n"@)
    }
}

fn analysis_sheets_text(analyses: &Vec<(i64, String, String)>) -> (r: String)
    ensures
        r@ == analysis_sheets(analysis_views(analyses@)),
{
    let ghost all = analysis_views(analyses@);
    let mut r = String::new();
    let mut i: usize = 0;
    while i < analyses.len()
        invariant
            i <= analyses.len(),
            all == analysis_views(analyses@),
            r@ == analysis_sheets(all.take(i as int)),
        decreases analyses.len() - i,
    {
        assert(all.take(i + 1).drop_last() =~= all.take(i as int));
        let mut e = "\n[document_id=".to_owned();
        e.append(integer_string(analyses[i].0).as_str());
        e.append("; filename=");
        e.append(analyses[i].1.as_str());
        e.append("]\n");
        e.append(analyses[i].2.as_str());
        e.append("\n");
        r.append(e.as_str());
        i += 1;
    }
    assert(all.take(i as int) =~= all);
    r
}

/// The instruction to answer a question about the library from the analyses.
pub fn library_overview_synthesis_prompt(
    analyses: &Vec<(i64, String, String)>,
    question: &str,
) -> (r: String)
    ensures
        r@ == SYNTHESIS_BEFORE@ + question@ + SYNTHESIS_TASK@ + if wants_rows(normal(question@)) {
            ROW_RULE@
        } else {
            GLOBAL_RULE@
        } + SYNTHESIS_RULES@ + analysis_sheets(analysis_views(analyses@)),
{
    let mut r = SYNTHESIS_BEFORE.to_owned();
    r.append(question);
    r.append(SYNTHESIS_TASK);
    if overview_requires_document_rows(question) {
        r.append(ROW_RULE);
    } else {
        r.append(GLOBAL_RULE);
    }
    r.append(SYNTHESIS_RULES);
    r.append(analysis_sheets_text(analyses).as_str());
    r
}

/// Some analysis has a claim that passages bear out.
pub open spec fn any_supported(a: Seq<(i64, Seq<char>, Seq<char>)>) -> bool {
    exists|i: int| 0 <= i < a.len() && contains((#[trigger] a[i]).2, "[chunk_id="@)
}

fn has_support(analyses: &Vec<(i64, String, String)>) -> (r: bool)
    ensures
        r == any_supported(analysis_views(analyses@)),
{
    let ghost all = analysis_views(analyses@);
    let mut i: usize = 0;
    while i < analyses.len()
        invariant
            i <= analyses.len(),
            all == analysis_views(analyses@),
            forall|j: int| 0 <= j < i ==> !contains((#[trigger] all[j]).2, "[chunk_id="@),
        decreases analyses.len() - i,
    {
        assert(all[i as int].2 == analyses@[i as int].2@);
        if has(analyses[i].2.as_str(), "[chunk_id=") {
            return true;
        }
        i += 1;
    }
    false
}

/// The normalized answer says that there is nothing to be found.
pub open spec fn denies_evidence(normalized: Seq<char>) -> bool {
    ||| contains(normalized, "no hay informacion"@)
    ||| contains(normalized, "no contienen informacion"@)
    ||| contains(normalized, "sin evidencia suficiente"@)
    ||| contains(normalized, "no encontre informacion"@)
    ||| contains(normalized, "informacion"@) && contains(normalized, "limitada"@)
}

/// Whether the normalized answer says that there is nothing to be found.
pub fn says_nothing_found(normalized: &str) -> (r: bool)
    ensures
        r == denies_evidence(normalized@),
{
    has(normalized, "no hay informacion") || has(normalized, "no contienen informacion") || has(
        normalized,
        "sin evidencia suficiente",
    ) || has(normalized, "no encontre informacion") || (has(normalized, "informacion") && has(
        normalized,
        "limitada",
    ))
}

/// Whether the answer denies evidence that the analyses have.
pub fn overview_false_negative(answer: &str, analyses: &Vec<(i64, String, String)>) -> (r: bool)
    ensures
        r == (any_supported(analysis_views(analyses@)) && denies_evidence(normal(answer@))),
{
    if !has_support(analyses) {
        return false;
    }
    let n = normalize_for_validation(answer);
    says_nothing_found(n.as_str())
}

// ---------------------------------------------------------------- rendering

/// The claim of a line without the passages that bear it out.
pub open spec fn without_marker(value: Seq<char>) -> Seq<char> {
    match find(value, "[chunk_id="@) {
        Some(i) => trim_end(value.take(i), CharClass::White),
        None => value,
    }
}

/// The claim of a line without the passages that bear it out.
pub fn strip_supporting_marker(value: &str) -> (r: String)
    ensures
        r@ == without_marker(value@),
{
    let v = chars(value);
    let m = chars("[chunk_id=");
    match find_chars(&v, &m) {
        Some(i) => {
            let head = string(vstd::slice::slice_subrange(&v, 0, i));
            assert(head@ =~= value@.take(i as int));
            trimmed_end(head.as_str())
        },
        None => value.to_owned(),
    }
}

/// What the first line under a name says, ASCII case aside, without its marker.
pub open spec fn field_claim(l: Seq<Seq<char>>, name: Seq<char>) -> Option<Seq<char>>
    decreases l.len(),
{
    if l.len() == 0 {
        None
    } else {
        match split_once(l[0], ':') {
            Some(halves) if ascii_lower(trim(halves.0)) == ascii_lower(name) => Some(
                without_marker(trim(halves.1)),
            ),
            _ => field_claim(l.skip(1), name),
        }
    }
}

fn claim_under(l: &Vec<String>, name: &str) -> (r: Option<String>)
    ensures
        opt_text(r) == field_claim(views(l@), name@),
{
    let ghost all = views(l@);
    let mut i: usize = 0;
    assert(all.skip(0) =~= all);
    while i < l.len()
        invariant
            i <= l.len(),
            all == views(l@),
            field_claim(all, name@) == field_claim(all.skip(i as int), name@),
        decreases l.len() - i,
    {
        assert(all.skip(i as int)[0] == l@[i as int]@);
        assert(all.skip(i as int).skip(1) =~= all.skip(i + 1));
        match halves(l[i].as_str(), ':') {
            Some((label, value)) => {
                let t = trimmed(label.as_str());
                if same_ignoring_ascii_case(t.as_str(), name) {
                    let v = trimmed(value.as_str());
                    return Some(strip_supporting_marker(v.as_str()));
                }
            },
            None => {},
        }
        i += 1;
    }
    None
}

/// The claim says that there is no evidence.
pub open spec fn is_empty_claim(claim: Seq<char>) -> bool {
    ascii_lower(claim) == ascii_lower(NO_EVIDENCE@)
}

/// The fields that can speak for a document, in order of preference.
pub open spec fn summary_fields() -> Seq<Seq<char>> {
    seq!["OBJETIVO"@, "TIPO"@, "DATO 1"@, "DATO 2"@, "DATO 3"@]
}

/// The claim of the first field that has one.
pub open spec fn first_claim(l: Seq<Seq<char>>, names: Seq<Seq<char>>) -> Option<Seq<char>>
    decreases names.len(),
{
    if names.len() == 0 {
        None
    } else {
        match field_claim(l, names[0]) {
            Some(claim) if !is_empty_claim(trim(claim)) => Some(trim(claim)),
            _ => first_claim(l, names.skip(1)),
        }
    }
}

fn best_claim(l: &Vec<String>) -> (r: Option<String>)
    ensures
        opt_text(r) == first_claim(views(l@), summary_fields()),
{
    let names = ["OBJETIVO", "TIPO", "DATO 1", "DATO 2", "DATO 3"];
    assert(str_views(names@) =~= summary_fields());
    let ghost wanted = summary_fields();
    let mut i: usize = 0;
    assert(wanted.skip(0) =~= wanted);
    while i < 5
        invariant
            i <= 5,
            wanted == summary_fields(),
            str_views(names@) == wanted,
            first_claim(views(l@), wanted) == first_claim(views(l@), wanted.skip(i as int)),
        decreases 5 - i,
    {
        assert(wanted.skip(i as int)[0] == names@[i as int]@);
        assert(wanted.skip(i as int).skip(1) =~= wanted.skip(i + 1));
        match claim_under(l, names[i]) {
            Some(claim) => {
                let c = trimmed(claim.as_str());
                if !same_ignoring_ascii_case(c.as_str(), NO_EVIDENCE) {
                    return Some(c);
                }
            },
            None => {},
        }
        i += 1;
    }
    None
}

/// The number of documents that a summary speaks of.
pub const SUMMARY_POINTS: usize = 4;

/// The points of a summary: one for each document with a claim, four at most.
pub open spec fn summary_points(a: Seq<(i64, Seq<char>, Seq<char>)>) -> Seq<Seq<char>>
    decreases a.len(),
{
    if a.len() == 0 {
        seq![]
    } else {
        let before = summary_points(a.drop_last());
        if before.len() >= SUMMARY_POINTS {
            before
        } else {
            match first_claim(lines(a.last().2), summary_fields()) {
                Some(claim) => before.push("- **"@ + a.last().1 + ":** "@ + claim),
                None => before,
            }
        }
    }
}

pub const SUMMARY_EMPTY: &'static str =
    "No se obtuvo evidencia documental validada para elaborar el resumen.";

/// The summary that stands in for an answer that cannot be used.
pub open spec fn summary_fallback(a: Seq<(i64, Seq<char>, Seq<char>)>) -> Seq<char> {
    let points = summary_points(a);
    if points.len() == 0 {
        SUMMARY_EMPTY@
    } else {
        join(points, "\n"@)
    }
}

/// The summary that stands in for an answer that cannot be used.
pub fn render_global_summary_fallback(analyses: &Vec<(i64, String, String)>) -> (r: String)
    ensures
        r@ == summary_fallback(analysis_views(analyses@)),
{
    let ghost all = analysis_views(analyses@);
    let mut points: Vec<String> = Vec::new();
    let mut i: usize = 0;
    assert(views(points@) =~= summary_points(all.take(0)));
    while i < analyses.len()
        invariant
            i <= analyses.len(),
            all == analysis_views(analyses@),
            views(points@) == summary_points(all.take(i as int)),
        decreases analyses.len() - i,
    {
        assert(all.take(i + 1).drop_last() =~= all.take(i as int));
        assert(views(points@).len() == points@.len());
        if points.len() < SUMMARY_POINTS {
            let l = text_lines(analyses[i].2.as_str());
            match best_claim(&l) {
                Some(claim) => {
                    let mut point = "- **".to_owned();
                    point.append(analyses[i].1.as_str());
                    point.append(":** ");
                    point.append(claim.as_str());
                    let ghost before = views(points@);
                    points.push(point);
                    assert(views(points@) =~= before.push(point@));
                },
                None => {},
            }
        }
        i += 1;
    }
    assert(all.take(i as int) =~= all);
    assert(views(points@).len() == points@.len());
    if points.len() == 0 {
        SUMMARY_EMPTY.to_owned()
    } else {
        joined(&points, "\n")
    }
}

/// A cell of the table: the claim of a field with its bars made slashes.
pub open spec fn table_cell(l: Seq<Seq<char>>, name: Seq<char>) -> Seq<char> {
    match field_claim(l, name) {
        Some(claim) => trim(replace(claim, "|"@, "/"@)),
        None => NO_EVIDENCE@,
    }
}

fn cell_text(l: &Vec<String>, name: &str) -> (r: String)
    ensures
        r@ == table_cell(views(l@), name@),
{
    proof {
        reveal_strlit("|");
    }
    match claim_under(l, name) {
        Some(claim) => {
            let c = replaced(claim.as_str(), "|", "/");
            trimmed(c.as_str())
        },
        None => NO_EVIDENCE.to_owned(),
    }
}

/// The facts of an analysis in one cell.
pub open spec fn facts_cell(l: Seq<Seq<char>>) -> Seq<char> {
    let facts = seq![
        table_cell(l, "DATO 1"@),
        table_cell(l, "DATO 2"@),
        table_cell(l, "DATO 3"@),
    ].filter(|f: Seq<char>| !is_empty_claim(f));
    if facts.len() == 0 {
        NO_EVIDENCE@
    } else {
        join(facts, "; "@)
    }
}

fn facts_text(l: &Vec<String>) -> (r: String)
    ensures
        r@ == facts_cell(views(l@)),
{
    let ghost keep = |f: Seq<char>| !is_empty_claim(f);
    let cells = vec![cell_text(l, "DATO 1"), cell_text(l, "DATO 2"), cell_text(l, "DATO 3")];
    let ghost all = seq![
        table_cell(views(l@), "DATO 1"@),
        table_cell(views(l@), "DATO 2"@),
        table_cell(views(l@), "DATO 3"@),
    ];
    assert(views(cells@) =~= all);
    let mut facts: Vec<String> = Vec::new();
    let mut i: usize = 0;
    while i < cells.len()
        invariant
            i <= cells.len(),
            all == views(cells@),
            keep == (|f: Seq<char>| !is_empty_claim(f)),
            views(facts@) == all.take(i as int).filter(keep),
        decreases cells.len() - i,
    {
        proof {
            assert(all.take(i + 1).drop_last() =~= all.take(i as int));
            reveal_with_fuel(Seq::filter, 2);
        }
        if !same_ignoring_ascii_case(cells[i].as_str(), NO_EVIDENCE) {
            let ghost before = views(facts@);
            facts.push(cells[i].clone());
            assert(views(facts@) =~= before.push(cells@[i as int]@));
        }
        i += 1;
    }
    assert(all.take(i as int) =~= all);
    assert(views(facts@).len() == facts@.len());
    if facts.len() == 0 {
        NO_EVIDENCE.to_owned()
    } else {
        joined(&facts, "; ")
    }
}

pub const TABLE_HEAD: &'static str =
    "| Archivo | Objetivo principal | Tipo de informacion | Publico | Datos verificables | Que no se puede concluir |\n|---|---|---|---|---|---|\n";

/// The row of a document.
pub open spec fn table_row(a: (i64, Seq<char>, Seq<char>)) -> Seq<char> {
    let l = lines(a.2);
    "| "@ + replace(a.1, "|"@, "/"@) + " | "@ + table_cell(l, "OBJETIVO"@) + " | "@ + table_cell(
        l,
        "TIPO"@,
    ) + " | "@ + table_cell(l, "PUBLICO"@) + " | "@ + facts_cell(l) + " | "@ + table_cell(
        l,
        "INCERTIDUMBRE"@,
    ) + " |\n"@
}

/// The rows of documents, in their order.
pub open spec fn table_rows(a: Seq<(i64, Seq<char>, Seq<char>)>) -> Seq<char>
    decreases a.len(),
{
    if a.len() == 0 {
        seq![]
    } else {
        table_rows(a.drop_last()) + table_row(a.last())
    }
}

fn row_text(filename: &str, analysis: &str) -> (r: String)
    ensures
        forall|id: i64| r@ == #[trigger] table_row((id, filename@, analysis@)),
{
    proof {
        reveal_strlit("|");
    }
    let l = text_lines(analysis);
    let mut r = "| ".to_owned();
    r.append(replaced(filename, "|", "/").as_str());
    r.append(" | ");
    r.append(cell_text(&l, "OBJETIVO").as_str());
    r.append(" | ");
    r.append(cell_text(&l, "TIPO").as_str());
    r.append(" | ");
    r.append(cell_text(&l, "PUBLICO").as_str());
    r.append(" | ");
    r.append(facts_text(&l).as_str());
    r.append(" | ");
    r.append(cell_text(&l, "INCERTIDUMBRE").as_str());
    r.append(" |\n");
    r
}

/// The table that stands in for an answer that cannot be used.
pub fn render_compact_overview_fallback(analyses: &Vec<(i64, String, String)>) -> (r: String)
    ensures
        r@ == trim(TABLE_HEAD@ + table_rows(analysis_views(analyses@))),
{
    let ghost all = analysis_views(analyses@);
    let mut r = TABLE_HEAD.to_owned();
    let mut i: usize = 0;
    assert(TABLE_HEAD@ + table_rows(all.take(0)) =~= TABLE_HEAD@);
    while i < analyses.len()
        invariant
            i <= analyses.len(),
            all == analysis_views(analyses@),
            r@ == TABLE_HEAD@ + table_rows(all.take(i as int)),
        decreases analyses.len() - i,
    {
        assert(all.take(i + 1).drop_last() =~= all.take(i as int));
        let row = row_text(analyses[i].1.as_str(), analyses[i].2.as_str());
        assert(row@ == table_row(all[i as int]));
        r.append(row.as_str());
        assert(r@ =~= TABLE_HEAD@ + (table_rows(all.take(i as int)) + row@));
        i += 1;
    }
    assert(all.take(i as int) =~= all);
    trimmed(r.as_str())
}

/// How often a name stands in a text; an empty name stands at every place.
pub open spec fn mentions(s: Seq<char>, name: Seq<char>) -> nat {
    if name.len() == 0 {
        s.len() + 1
    } else {
        occurrences(s, name)
    }
}

/// The answer names each document exactly once.
pub open spec fn names_each_once(s: Seq<char>, a: Seq<(i64, Seq<char>, Seq<char>)>) -> bool {
    forall|i: int| 0 <= i < a.len() ==> mentions(s, (#[trigger] a[i]).1) == 1
}

fn each_named_once(s: &str, analyses: &Vec<(i64, String, String)>) -> (r: bool)
    ensures
        r == names_each_once(s@, analysis_views(analyses@)),
{
    let ghost all = analysis_views(analyses@);
    let mut i: usize = 0;
    while i < analyses.len()
        invariant
            i <= analyses.len(),
            all == analysis_views(analyses@),
            forall|j: int| 0 <= j < i ==> mentions(s@, (#[trigger] all[j]).1) == 1,
        decreases analyses.len() - i,
    {
        assert(all[i as int].1 == analyses@[i as int].1@);
        let name = analyses[i].1.as_str();
        let once = if name.is_empty() {
            s.is_empty()
        } else {
            count_matches(s, name) == 1
        };
        if !once {
            return false;
        }
        i += 1;
    }
    true
}

/// What the reader is shown for a question about the library: the synthesis,
/// cleaned, where it can be used, and otherwise what the analyses say.
pub open spec fn rendered_overview(
    a: Seq<(i64, Seq<char>, Seq<char>)>,
    cleaned: Seq<char>,
    rows: bool,
) -> Seq<char> {
    let denies = any_supported(a) && denies_evidence(normal(cleaned));
    if rows {
        if names_each_once(cleaned, a) && !denies {
            cleaned
        } else {
            trim(TABLE_HEAD@ + table_rows(a))
        }
    } else if is_blank(cleaned) || denies {
        summary_fallback(a)
    } else {
        cleaned
    }
}

/// What the reader is shown, given the cleaned synthesis.
pub fn render_overview(
    analyses: &Vec<(i64, String, String)>,
    cleaned: String,
    rows: bool,
) -> (r: String)
    ensures
        r@ == rendered_overview(analysis_views(analyses@), cleaned@, rows),
{
    let denies = overview_false_negative(cleaned.as_str(), analyses);
    if rows {
        if each_named_once(cleaned.as_str(), analyses) && !denies {
            cleaned
        } else {
            render_compact_overview_fallback(analyses)
        }
    } else if blank(cleaned.as_str()) || denies {
        render_global_summary_fallback(analyses)
    } else {
        cleaned
    }
}

/// What the reader is shown for a question about the library.
pub fn render_structured_library_overview(
    analyses: &Vec<(i64, String, String)>,
    synthesis: &str,
    question: &str,
) -> (r: String)
    ensures
        r@ == rendered_overview(
            analysis_views(analyses@),
            sanitized(synthesis@),
            wants_rows(normal(question@)),
        ),
{
    let cleaned = sanitize_document_output(synthesis);
    let rows = overview_requires_document_rows(question);
    render_overview(analyses, cleaned, rows)
}

/// The table has one row for each document, and no other: each ends its own line and
/// breaks no other.
pub proof fn law_one_row_per_document(a: Seq<(i64, Seq<char>, Seq<char>)>)
    requires
        forall|i: int| 0 <= i < a.len() ==> on_one_line((#[trigger] a[i]).1),
    ensures
        line_breaks(table_rows(a)) == a.len(),
    decreases a.len(),
{
    if a.len() > 0 {
        let head = a.drop_last();
        assert forall|i: int| 0 <= i < head.len() implies on_one_line((#[trigger] head[i]).1) by {
            assert(on_one_line(a[i].1));
        }
        law_one_row_per_document(head);
        assert(on_one_line(a[a.len() - 1].1));
        lemma_row_ends_its_line(a.last());
        lemma_line_breaks_add(table_rows(head), table_row(a.last()));
    }
}

proof fn lemma_row_ends_its_line(a: (i64, Seq<char>, Seq<char>))
    requires
        on_one_line(a.1),
    ensures
        line_breaks(table_row(a)) == 1,
{
    reveal_strlit("|");
    reveal_strlit("/");
    reveal_strlit("| ");
    reveal_strlit(" | ");
    reveal_strlit(" |\n");
    let l = lines(a.2);
    lemma_lines(a.2);
    lemma_replace_on_one_line(a.1, "|"@, "/"@);
    lemma_cell_on_one_line(l, "OBJETIVO"@);
    lemma_cell_on_one_line(l, "TIPO"@);
    lemma_cell_on_one_line(l, "PUBLICO"@);
    lemma_cell_on_one_line(l, "INCERTIDUMBRE"@);
    lemma_facts_on_one_line(l);
    let r1 = "| "@ + replace(a.1, "|"@, "/"@);
    let r2 = r1 + " | "@;
    let r3 = r2 + table_cell(l, "OBJETIVO"@);
    let r4 = r3 + " | "@;
    let r5 = r4 + table_cell(l, "TIPO"@);
    let r6 = r5 + " | "@;
    let r7 = r6 + table_cell(l, "PUBLICO"@);
    let r8 = r7 + " | "@;
    let r9 = r8 + facts_cell(l);
    let r10 = r9 + " | "@;
    let r11 = r10 + table_cell(l, "INCERTIDUMBRE"@);
    assert(on_one_line("| "@));
    assert(on_one_line(" | "@));
    lemma_add_on_one_line("| "@, replace(a.1, "|"@, "/"@));
    lemma_add_on_one_line(r1, " | "@);
    lemma_add_on_one_line(r2, table_cell(l, "OBJETIVO"@));
    lemma_add_on_one_line(r3, " | "@);
    lemma_add_on_one_line(r4, table_cell(l, "TIPO"@));
    lemma_add_on_one_line(r5, " | "@);
    lemma_add_on_one_line(r6, table_cell(l, "PUBLICO"@));
    lemma_add_on_one_line(r7, " | "@);
    lemma_add_on_one_line(r8, facts_cell(l));
    lemma_add_on_one_line(r9, " | "@);
    lemma_add_on_one_line(r10, table_cell(l, "INCERTIDUMBRE"@));
    lemma_no_line_breaks(r11);
    lemma_line_breaks_add(r11, " |\n"@);
    let end = " |\n"@;
    assert(end.drop_last() =~= seq![' ', '|']);
    assert(on_one_line(end.drop_last()));
    lemma_no_line_breaks(end.drop_last());
    assert(table_row(a) == r11 + end);
}

proof fn lemma_cell_on_one_line(l: Seq<Seq<char>>, name: Seq<char>)
    requires
        forall|i: int| 0 <= i < l.len() ==> on_one_line(#[trigger] l[i]),
    ensures
        on_one_line(table_cell(l, name)),
{
    reveal_strlit("|");
    reveal_strlit("/");
    reveal_strlit("SIN EVIDENCIA SUFICIENTE");
    lemma_claim_on_one_line(l, name);
    if let Some(claim) = field_claim(l, name) {
        lemma_replace_on_one_line(claim, "|"@, "/"@);
        lemma_trim_on_one_line(replace(claim, "|"@, "/"@));
    }
}

proof fn lemma_claim_on_one_line(l: Seq<Seq<char>>, name: Seq<char>)
    requires
        forall|i: int| 0 <= i < l.len() ==> on_one_line(#[trigger] l[i]),
    ensures
        field_claim(l, name) matches Some(claim) ==> on_one_line(claim),
    decreases l.len(),
{
    if l.len() > 0 {
        let tail = l.skip(1);
        assert forall|i: int| 0 <= i < tail.len() implies on_one_line(#[trigger] tail[i]) by {
            assert(on_one_line(l[i + 1]));
        }
        lemma_claim_on_one_line(tail, name);
        assert(on_one_line(l[0]));
        if let Some(halves) = split_once(l[0], ':') {
            let after = halves.1;
            lemma_span(l[0], CharClass::One(':'));
            let n = l[0].len() - after.len();
            assert forall|j: int| 0 <= j < after.len() implies !line_feed().has(
                #[trigger] after[j],
            ) by {
                assert(!line_feed().has(l[0][n + j]));
            }
            lemma_trim_on_one_line(after);
            let value = trim(after);
            lemma_find(value, "[chunk_id="@);
            if let Some(i) = find(value, "[chunk_id="@) {
                let head = value.take(i);
                assert forall|j: int| 0 <= j < head.len() implies !line_feed().has(
                    #[trigger] head[j],
                ) by {
                    assert(!line_feed().has(value[j]));
                }
                lemma_trim_end_on_one_line(head, CharClass::White);
            }
        }
    }
}

proof fn lemma_facts_on_one_line(l: Seq<Seq<char>>)
    requires
        forall|i: int| 0 <= i < l.len() ==> on_one_line(#[trigger] l[i]),
    ensures
        on_one_line(facts_cell(l)),
{
    reveal_strlit("; ");
    reveal_strlit("SIN EVIDENCIA SUFICIENTE");
    let keep = |f: Seq<char>| !is_empty_claim(f);
    let all = seq![
        table_cell(l, "DATO 1"@),
        table_cell(l, "DATO 2"@),
        table_cell(l, "DATO 3"@),
    ];
    lemma_cell_on_one_line(l, "DATO 1"@);
    lemma_cell_on_one_line(l, "DATO 2"@);
    lemma_cell_on_one_line(l, "DATO 3"@);
    let facts = all.filter(keep);
    assert forall|i: int| 0 <= i < facts.len() implies on_one_line(#[trigger] facts[i]) by {
        assert(facts.contains(facts[i]));
        all.lemma_filter_contains_rev(keep, facts[i]);
        let j = all.index_of(facts[i]);
        assert(on_one_line(all[j]));
    }
    lemma_join_on_one_line(facts, "; "@);
}

proof fn lemma_head_stands(value: Seq<char>, i: int)
    requires
        0 <= i <= value.len(),
    ensures
        contains(value, trim_end(value.take(i), CharClass::White)),
{
    let head = value.take(i);
    lemma_trim_end_stands(head, CharClass::White);
    lemma_contains_add(head, value.skip(i), trim_end(head, CharClass::White));
    assert(head + value.skip(i) =~= value);
}

proof fn lemma_without_marker_stands(value: Seq<char>)
    ensures
        contains(value, without_marker(value)),
{
    let m = "[chunk_id="@;
    lemma_find(value, m);
    match find(value, m) {
        Some(i) => {
            assert(crate::text::occurs_at(value, m, i));
            lemma_head_stands(value, i);
        },
        None => {
            lemma_contains_between(seq![], value, seq![]);
            assert(Seq::<char>::empty() + value + seq![] =~= value);
        },
    }
}

/// The line has the name, ASCII case aside, before its first colon.
pub open spec fn is_field_line(line: Seq<char>, name: Seq<char>) -> bool {
    exists|head: Seq<char>, rest: Seq<char>|
        #![trigger head.push(':'), rest.len()]
        line == head.push(':') + rest && !head.contains(':') && ascii_lower(trim(head))
            == ascii_lower(name)
}

/// What an analysis says under a name stands in one of its lines, behind the name.
pub proof fn law_field_claim(l: Seq<Seq<char>>, name: Seq<char>)
    ensures
        field_claim(l, name) matches Some(claim) ==> exists|i: int|
            0 <= i < l.len() && is_field_line(#[trigger] l[i], name) && contains(l[i], claim),
    decreases l.len(),
{
    if l.len() > 0 && field_claim(l, name) is Some {
        let claim = field_claim(l, name).unwrap();
        match split_once(l[0], ':') {
            Some(h) if ascii_lower(trim(h.0)) == ascii_lower(name) => {
                let n = span(l[0], CharClass::One(':')) as int;
                lemma_span(l[0], CharClass::One(':'));
                assert(l[0] =~= h.0.push(':') + h.1);
                assert(!h.0.contains(':')) by {
                    if h.0.contains(':') {
                        let j = choose|j: int| 0 <= j < h.0.len() && h.0[j] == ':';
                        assert(!CharClass::One(':').has(l[0][j]));
                    }
                }
                assert(h.1.len() >= 0);
                assert(is_field_line(l[0], name));
                lemma_contains_between(h.0.push(':'), h.1, seq![]);
                assert(h.0.push(':') + h.1 + seq![] =~= l[0]);
                lemma_trim_stands(h.1);
                lemma_without_marker_stands(trim(h.1));
                lemma_contains_chain(l[0], h.1, trim(h.1));
                lemma_contains_chain(l[0], trim(h.1), claim);
            },
            _ => {
                let t = l.skip(1);
                law_field_claim(t, name);
                let i = choose|i: int|
                    0 <= i < t.len() && is_field_line(#[trigger] t[i], name) && contains(
                        t[i],
                        claim,
                    );
                assert(l[i + 1] == t[i]);
            },
        }
    }
}

proof fn lemma_row_shows(a: (i64, Seq<char>, Seq<char>))
    ensures
        ({
            let l = lines(a.2);
            &&& contains(table_row(a), replace(a.1, "|"@, "/"@))
            &&& contains(table_row(a), table_cell(l, "OBJETIVO"@))
            &&& contains(table_row(a), table_cell(l, "TIPO"@))
            &&& contains(table_row(a), table_cell(l, "PUBLICO"@))
            &&& contains(table_row(a), facts_cell(l))
            &&& contains(table_row(a), table_cell(l, "INCERTIDUMBRE"@))
        }),
{
    let l = lines(a.2);
    let name = replace(a.1, "|"@, "/"@);
    let goal = table_cell(l, "OBJETIVO"@);
    let kind = table_cell(l, "TIPO"@);
    let readers = table_cell(l, "PUBLICO"@);
    let facts = facts_cell(l);
    let doubt = table_cell(l, "INCERTIDUMBRE"@);
    let f0 = "| "@;
    let f1 = f0 + name;
    let f2 = f1 + " | "@;
    let f3 = f2 + goal;
    let f4 = f3 + " | "@;
    let f5 = f4 + kind;
    let f6 = f5 + " | "@;
    let f7 = f6 + readers;
    let f8 = f7 + " | "@;
    let f9 = f8 + facts;
    let f10 = f9 + " | "@;
    let f11 = f10 + doubt;
    let f12 = f11 + " |\n"@;
    let v0 = Seq::<Seq<char>>::empty();
    lemma_run_push(v0, "| "@);
    let v1 = v0.push("| "@);
    assert(run_together(v0) + "| "@ =~= f0);
    assert(run_together(v1) == f0);
    lemma_run_push(v1, name);
    let v2 = v1.push(name);
    assert(run_together(v2) == f1);
    lemma_run_push(v2, " | "@);
    let v3 = v2.push(" | "@);
    assert(run_together(v3) == f2);
    lemma_run_push(v3, goal);
    let v4 = v3.push(goal);
    assert(run_together(v4) == f3);
    lemma_run_push(v4, " | "@);
    let v5 = v4.push(" | "@);
    assert(run_together(v5) == f4);
    lemma_run_push(v5, kind);
    let v6 = v5.push(kind);
    assert(run_together(v6) == f5);
    lemma_run_push(v6, " | "@);
    let v7 = v6.push(" | "@);
    assert(run_together(v7) == f6);
    lemma_run_push(v7, readers);
    let v8 = v7.push(readers);
    assert(run_together(v8) == f7);
    lemma_run_push(v8, " | "@);
    let v9 = v8.push(" | "@);
    assert(run_together(v9) == f8);
    lemma_run_push(v9, facts);
    let v10 = v9.push(facts);
    assert(run_together(v10) == f9);
    lemma_run_push(v10, " | "@);
    let v11 = v10.push(" | "@);
    assert(run_together(v11) == f10);
    lemma_run_push(v11, doubt);
    let v12 = v11.push(doubt);
    assert(run_together(v12) == f11);
    lemma_run_push(v12, " |\n"@);
    let v13 = v12.push(" |\n"@);
    assert(run_together(v13) == f12);
    assert(table_row(a) == run_together(v13));
    lemma_stands_in_run(v13, 1);
    lemma_stands_in_run(v13, 3);
    lemma_stands_in_run(v13, 5);
    lemma_stands_in_run(v13, 7);
    lemma_stands_in_run(v13, 9);
    lemma_stands_in_run(v13, 11);
}

proof fn lemma_stands_in_run(v: Seq<Seq<char>>, i: int)
    requires
        0 <= i < v.len(),
    ensures
        contains(run_together(v), v[i]),
{
    lemma_contains_between(seq![], v[i], seq![]);
    assert(Seq::<char>::empty() + v[i] + seq![] =~= v[i]);
    lemma_contains_run(v, i, v[i]);
}

proof fn lemma_rows_hold(a: Seq<(i64, Seq<char>, Seq<char>)>, i: int, p: Seq<char>)
    requires
        0 <= i < a.len(),
        contains(table_row(a[i]), p),
    ensures
        contains(table_rows(a), p),
    decreases a.len(),
{
    let head = a.drop_last();
    if i < a.len() - 1 {
        assert(head[i] == a[i]);
        lemma_rows_hold(head, i, p);
    }
    lemma_contains_add(table_rows(head), table_row(a.last()), p);
}

/// The table shows every document, with its name and with what its analysis says of its
/// goal, its type, its readers, its facts and what is uncertain.
pub proof fn law_table_shows_every_document(a: Seq<(i64, Seq<char>, Seq<char>)>, i: int)
    requires
        0 <= i < a.len(),
    ensures
        ({
            let l = lines(a[i].2);
            &&& contains(table_rows(a), replace(a[i].1, "|"@, "/"@))
            &&& contains(table_rows(a), table_cell(l, "OBJETIVO"@))
            &&& contains(table_rows(a), table_cell(l, "TIPO"@))
            &&& contains(table_rows(a), table_cell(l, "PUBLICO"@))
            &&& contains(table_rows(a), facts_cell(l))
            &&& contains(table_rows(a), table_cell(l, "INCERTIDUMBRE"@))
        }),
{
    let l = lines(a[i].2);
    lemma_row_shows(a[i]);
    lemma_rows_hold(a, i, replace(a[i].1, "|"@, "/"@));
    lemma_rows_hold(a, i, table_cell(l, "OBJETIVO"@));
    lemma_rows_hold(a, i, table_cell(l, "TIPO"@));
    lemma_rows_hold(a, i, table_cell(l, "PUBLICO"@));
    lemma_rows_hold(a, i, facts_cell(l));
    lemma_rows_hold(a, i, table_cell(l, "INCERTIDUMBRE"@));
}

/// The point is of the document: it has its name and a claim that stands in a line of its
/// analysis and is not that there is no evidence.
pub open spec fn is_point_of(point: Seq<char>, a: (i64, Seq<char>, Seq<char>)) -> bool {
    exists|claim: Seq<char>, j: int|
        {
            &&& point == "- **"@ + a.1 + ":** "@ + claim
            &&& !is_empty_claim(claim)
            &&& 0 <= j < lines(a.2).len()
            &&& #[trigger] contains(lines(a.2)[j], claim)
        }
}

proof fn lemma_first_claim_stands(l: Seq<Seq<char>>, names: Seq<Seq<char>>)
    ensures
        first_claim(l, names) matches Some(claim) ==> !is_empty_claim(claim) && exists|j: int|
            0 <= j < l.len() && #[trigger] contains(l[j], claim),
    decreases names.len(),
{
    if names.len() > 0 {
        match field_claim(l, names[0]) {
            Some(claim) if !is_empty_claim(trim(claim)) => {
                law_field_claim(l, names[0]);
                let i = choose|i: int|
                    0 <= i < l.len() && is_field_line(#[trigger] l[i], names[0]) && contains(
                        l[i],
                        claim,
                    );
                lemma_trim_stands(claim);
                lemma_contains_chain(l[i], claim, trim(claim));
            },
            _ => {
                lemma_first_claim_stands(l, names.skip(1));
            },
        }
    }
}

/// A summary has at most four points; each is of a document; and while there is room, every
/// document with a claim has its point.
pub proof fn law_summary_points(a: Seq<(i64, Seq<char>, Seq<char>)>)
    ensures
        summary_points(a).len() <= SUMMARY_POINTS,
        forall|k: int|
            0 <= k < summary_points(a).len() ==> exists|i: int|
                0 <= i < a.len() && is_point_of(#[trigger] summary_points(a)[k], #[trigger] a[i]),
        summary_points(a).len() < SUMMARY_POINTS ==> forall|i: int|
            0 <= i < a.len() && first_claim(lines((#[trigger] a[i]).2), summary_fields()) is Some
                ==> exists|k: int|
                0 <= k < summary_points(a).len() && is_point_of(
                    #[trigger] summary_points(a)[k],
                    a[i],
                ),
    decreases a.len(),
{
    if a.len() > 0 {
        let head = a.drop_last();
        law_summary_points(head);
        let before = summary_points(head);
        let r = summary_points(a);
        let l = lines(a.last().2);
        lemma_first_claim_stands(l, summary_fields());
        if r.len() > before.len() {
            let claim = first_claim(l, summary_fields()).unwrap();
            let j = choose|j: int| 0 <= j < l.len() && #[trigger] contains(l[j], claim);
            assert(contains(lines(a.last().2)[j], claim));
            assert(is_point_of(r[r.len() - 1], a[a.len() - 1]));
        }
        assert forall|k: int| 0 <= k < r.len() implies exists|i: int|
            0 <= i < a.len() && is_point_of(#[trigger] r[k], #[trigger] a[i]) by {
            if k < before.len() {
                assert(r[k] == before[k]);
                let i = choose|i: int|
                    0 <= i < head.len() && is_point_of(before[k], #[trigger] head[i]);
                assert(a[i] == head[i]);
            }
        }
        if r.len() < SUMMARY_POINTS {
            assert forall|i: int|
                0 <= i < a.len() && first_claim(lines((#[trigger] a[i]).2), summary_fields()) is Some
                implies exists|k: int| 0 <= k < r.len() && is_point_of(#[trigger] r[k], a[i]) by {
                if i < head.len() {
                    assert(head[i] == a[i]);
                    let k = choose|k: int|
                        0 <= k < before.len() && is_point_of(#[trigger] before[k], head[i]);
                    assert(r[k] == before[k]);
                }
            }
        }
    }
}

/// A synthesis that denies what the analyses have found is not shown: what is shown in its
/// place does not depend on it. Neither does what is shown in place of an empty one.
pub proof fn law_denial_is_not_shown(
    a: Seq<(i64, Seq<char>, Seq<char>)>,
    one: Seq<char>,
    other: Seq<char>,
    rows: bool,
)
    ensures
        any_supported(a) && denies_evidence(normal(one)) && denies_evidence(normal(other))
            ==> rendered_overview(a, one, rows) == rendered_overview(a, other, rows),
        is_blank(one) && is_blank(other) ==> rendered_overview(a, one, false) == rendered_overview(
            a,
            other,
            false,
        ),
        !is_blank(one) && !denies_evidence(normal(one)) ==> rendered_overview(a, one, false) == one,
        !denies_evidence(normal(one)) && names_each_once(one, a) ==> rendered_overview(
            a,
            one,
            true,
        ) == one,
{
}

} // verus!
