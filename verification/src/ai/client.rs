//! Requests to a chat endpoint and the replies it gives.

use vstd::prelude::*;
use vstd::string::StringExecFns;

use crate::models::{copy_bits, opt_text};
use crate::order::{by_pair, indices, order_pairs, pairs, picked, stable_order};
use crate::text::{
    ascii_lower, contains_any, decimal, decimal_string, has_any, same, str_views, strip_prefix,
    to_ascii_lower, trim, trimmed,
};

verus! {

/// Why a reply of a server cannot be used.
#[derive(Debug, PartialEq, Eq)]
pub enum ClientError {
    /// The reply has no choice.
    NoChoices,
    /// The stream ended without content.
    NoContent,
    /// The number of embeddings is not that of the inputs.
    EmbeddingCount { expected: usize, received: usize },
}

impl ClientError {
    pub open spec fn spec_message(self) -> Seq<char> {
        match self {
            ClientError::NoChoices => "La respuesta no contiene opciones"@,
            ClientError::NoContent => "El servidor no envio contenido en streaming"@,
            ClientError::EmbeddingCount { expected, received } => "Se esperaban "@ + decimal(
                expected as nat,
            ) + " embeddings y llegaron "@ + decimal(received as nat),
        }
    }

    /// The error in words.
    pub fn message(&self) -> (r: String)
        ensures
            r@ == self.spec_message(),
    {
        match self {
            ClientError::NoChoices => "La respuesta no contiene opciones".to_owned(),
            ClientError::NoContent => "El servidor no envio contenido en streaming".to_owned(),
            ClientError::EmbeddingCount { expected, received } => {
                let mut r = "Se esperaban ".to_owned();
                r.append(decimal_string(*expected as u128).as_str());
                r.append(" embeddings y llegaron ");
                r.append(decimal_string(*received as u128).as_str());
                r
            },
        }
    }
}

// --------------------------------------------------------------- template errors

/// What servers say when the template does not take the roles.
pub open spec fn template_markers() -> Seq<Seq<char>> {
    seq![
        "conversation roles must alternate"@,
        "roles must alternate"@,
        "chat template"@,
        "template"@,
        "system role"@,
    ]
}

/// Whether the error says that the template does not take the roles.
pub fn is_template_error(message: &str) -> (r: bool)
    ensures
        r == contains_any(ascii_lower(message@), template_markers()),
{
    let markers = [
        "conversation roles must alternate",
        "roles must alternate",
        "chat template",
        "template",
        "system role",
    ];
    assert(str_views(markers@) =~= template_markers());
    let small = to_ascii_lower(message);
    has_any(small.as_str(), &markers)
}

/// What to do after the first attempt to get an answer.
#[derive(Debug, Clone, Copy, PartialEq, Eq, Structural)]
pub enum AfterAttempt {
    /// The answer is there.
    Done,
    /// Try again with the conversation without a system message.
    RetryWithoutSystem,
    /// Give up with the error.
    Fail,
}

/// What to do after the first attempt, given its error, if it had one, and
/// whether the user has cancelled the request.
pub fn after_first_attempt(error: &Option<String>, cancelled: bool) -> (r: AfterAttempt)
    ensures
        r == match opt_text(*error) {
            None => AfterAttempt::Done,
            Some(message) => if contains_any(ascii_lower(message), template_markers())
                && !cancelled {
                AfterAttempt::RetryWithoutSystem
            } else {
                AfterAttempt::Fail
            },
        },
{
    match error {
        None => AfterAttempt::Done,
        Some(message) => {
            if is_template_error(message.as_str()) && !cancelled {
                AfterAttempt::RetryWithoutSystem
            } else {
                AfterAttempt::Fail
            }
        },
    }
}

/// The context of the error when the second attempt failed too.
pub fn retry_failure(fallback: &str) -> (r: String)
    ensures
        r@ == "Reintento compatible fallido: "@ + fallback@,
{
    let mut r = "Reintento compatible fallido: ".to_owned();
    r.append(fallback);
    r
}

// --------------------------------------------------------------------- replies

/// The answer of a reply: the content of its first choice.
pub fn first_choice(contents: &Vec<String>) -> (r: Result<String, ClientError>)
    ensures
        match r {
            Ok(answer) => contents@.len() > 0 && answer@ == contents@[0]@,
            Err(e) => contents@.len() == 0 && e == ClientError::NoChoices,
        },
{
    if contents.len() > 0 {
        Ok(contents[0].clone())
    } else {
        Err(ClientError::NoChoices)
    }
}

/// The part of the answer that a piece of a stream brings: what its first choice
/// holds, if it holds anything.
pub fn first_delta(contents: &Vec<Option<String>>) -> (r: Option<String>)
    ensures
        opt_text(r) == if contents@.len() > 0 {
            opt_text(contents@[0])
        } else {
            None
        },
{
    if contents.len() > 0 {
        match &contents[0] {
            Some(s) => Some(s.clone()),
            None => None,
        }
    } else {
        None
    }
}

/// A line of a stream of events.
#[derive(Debug, PartialEq, Eq)]
pub enum StreamLine {
    /// A line that carries no data.
    Ignored,
    /// The end of the stream.
    Done,
    /// A piece of the answer, as JSON.
    Data(String),
}

/// What a line of a stream carries: nothing, the end, or data.
pub open spec fn stream_data(line: Seq<char>) -> Option<Seq<char>> {
    let t = trim(line);
    if "data:"@.is_prefix_of(t) {
        Some(trim(t.skip("data:"@.len() as int)))
    } else {
        None
    }
}

/// Reads a line of a stream.
pub fn read_stream_line(line: &str) -> (r: StreamLine)
    ensures
        match r {
            StreamLine::Ignored => stream_data(line@) is None,
            StreamLine::Done => stream_data(line@) == Some("[DONE]"@),
            StreamLine::Data(d) => stream_data(line@) == Some(d@) && d@ != "[DONE]"@,
        },
{
    let t = trimmed(line);
    match strip_prefix(t.as_str(), "data:") {
        None => StreamLine::Ignored,
        Some(rest) => {
            let data = trimmed(rest.as_str());
            if same(data.as_str(), "[DONE]") {
                StreamLine::Done
            } else {
                StreamLine::Data(data)
            }
        },
    }
}

/// An answer that arrives piece by piece.
#[derive(Debug, PartialEq, Eq)]
pub struct StreamedAnswer {
    pub text: String,
}

impl StreamedAnswer {
    /// Nothing has arrived.
    pub fn new() -> (r: StreamedAnswer)
        ensures
            r.text@.len() == 0,
    {
        StreamedAnswer { text: String::new() }
    }

    /// Takes in a piece.
    pub fn accept(&mut self, delta: &str)
        ensures
            final(self).text@ == old(self).text@ + delta@,
    {
        self.text.append(delta);
    }

    /// The whole answer at the end of the stream; an empty one is an error unless
    /// the user has cancelled the request.
    pub fn finish(self, cancelled: bool) -> (r: Result<String, ClientError>)
        ensures
            match r {
                Ok(answer) => answer@ == self.text@ && (self.text@.len() > 0 || cancelled),
                Err(e) => e == ClientError::NoContent && self.text@.len() == 0 && !cancelled,
            },
    {
        if self.text.as_str().is_empty() && !cancelled {
            Err(ClientError::NoContent)
        } else {
            Ok(self.text)
        }
    }
}

/// The bit patterns of a list of embeddings.
pub open spec fn embedding_views(v: Seq<Vec<u32>>) -> Seq<Seq<u32>> {
    v.map_values(|e: Vec<u32>| e@)
}

/// The embeddings of a list of numbered ones.
pub open spec fn unnumbered(v: Seq<(usize, Vec<u32>)>) -> Seq<Seq<u32>> {
    v.map_values(|e: (usize, Vec<u32>)| e.1@)
}

/// The order of a list of numbered embeddings.
pub open spec fn by_number(v: Seq<(usize, Vec<u32>)>) -> Seq<int> {
    stable_order(v.map_values(|e: (usize, Vec<u32>)| (e.0 as int, 0int)), by_pair())
}

/// The embeddings of a reply in the order of their numbers, where there is one
/// for each input.
pub fn order_embeddings(items: &Vec<(usize, Vec<u32>)>, expected: usize) -> (r: Result<
    Vec<Vec<u32>>,
    ClientError,
>)
    ensures
        match r {
            Ok(v) => items@.len() == expected && embedding_views(v@) == picked(
                unnumbered(items@),
                by_number(items@),
            ),
            Err(e) => items@.len() != expected && e == (ClientError::EmbeddingCount {
                expected,
                received: items@.len() as usize,
            }),
        },
{
    if items.len() != expected {
        return Err(ClientError::EmbeddingCount { expected, received: items.len() });
    }
    let mut keys: Vec<(i128, i128)> = Vec::new();
    let mut i: usize = 0;
    while i < items.len()
        invariant
            i <= items.len(),
            keys.len() == i,
            forall|j: int|
                0 <= j < i ==> (#[trigger] keys@[j]).0 == items@[j].0 && keys@[j].1 == 0,
        decreases items.len() - i,
    {
        keys.push((items[i].0 as i128, 0));
        i += 1;
    }
    assert(pairs(keys@) =~= items@.map_values(|e: (usize, Vec<u32>)| (e.0 as int, 0int)));
    let order = order_pairs(&keys);
    let ghost want = picked(unnumbered(items@), indices(order@));
    let mut r: Vec<Vec<u32>> = Vec::new();
    let mut j: usize = 0;
    while j < order.len()
        invariant
            j <= order.len(),
            want == picked(unnumbered(items@), indices(order@)),
            forall|k: int|
                0 <= k < order.len() ==> 0 <= #[trigger] indices(order@)[k] < items.len(),
            embedding_views(r@) == want.take(j as int),
        decreases order.len() - j,
    {
        assert(0 <= indices(order@)[j as int] < items.len());
        let ghost before = embedding_views(r@);
        let e = copy_bits(&items[order[j]].1);
        r.push(e);
        assert(embedding_views(r@) =~= before.push(e@));
        assert(embedding_views(r@) =~= want.take(j + 1));
        j += 1;
    }
    assert(want.take(j as int) =~= want);
    Ok(r)
}

/// The embeddings of a reply are all there, and in the order of their numbers: where the
/// numbers are those of the inputs, each input gets its own.
pub proof fn law_embeddings_are_in_order(items: Seq<(usize, Vec<u32>)>)
    ensures
        picked(unnumbered(items), by_number(items)).len() == items.len(),
        (forall|i: int, j: int|
            0 <= i < j < items.len() ==> (#[trigger] items[i]).0 != (#[trigger] items[j]).0) && (
        forall|i: int| 0 <= i < items.len() ==> (#[trigger] items[i]).0 < items.len())
            ==> forall|i: int|
            0 <= i < items.len() ==> picked(unnumbered(items), by_number(items))[(
            #[trigger] items[i]).0 as int] == items[i].1@,
{
    let keys = items.map_values(|e: (usize, Vec<u32>)| (e.0 as int, 0int));
    let order = by_number(items);
    let r = picked(unnumbered(items), order);
    crate::order::lemma_by_pair();
    crate::order::law_stable_order(keys, by_pair());
    if (forall|i: int, j: int|
        0 <= i < j < items.len() ==> (#[trigger] items[i]).0 != (#[trigger] items[j]).0) && (
    forall|i: int| 0 <= i < items.len() ==> (#[trigger] items[i]).0 < items.len()) {
        assert forall|n: int| 0 <= n < items.len() implies items[#[trigger] order[n]].0 == n by {
            lemma_numbers_in_place(items, order, n);
        }
        assert forall|i: int| 0 <= i < items.len() implies r[(#[trigger] items[i]).0 as int]
            == items[i].1@ by {
            let n = items[i].0 as int;
            assert(0 <= order[n] < items.len());
            assert(items[order[n]].0 == n);
            if order[n] < i {
                assert(items[order[n]].0 != items[i].0);
            } else if i < order[n] {
                assert(items[i].0 != items[order[n]].0);
            }
        }
    }
}

proof fn lemma_numbers_in_place(items: Seq<(usize, Vec<u32>)>, order: Seq<int>, n: int)
    requires
        crate::order::is_permutation(order, items.len() as int),
        forall|a: int, b: int|
            0 <= a < b < order.len() ==> items[#[trigger] order[a]].0 <= items[#[trigger] order[b]].0,
        forall|i: int, j: int|
            0 <= i < j < items.len() ==> (#[trigger] items[i]).0 != (#[trigger] items[j]).0,
        forall|i: int| 0 <= i < items.len() ==> (#[trigger] items[i]).0 < items.len(),
        0 <= n < items.len(),
    ensures
        items[order[n]].0 == n,
{
    lemma_at_least(items, order, n);
    lemma_at_most(items, order, n);
}

proof fn lemma_strictly(items: Seq<(usize, Vec<u32>)>, order: Seq<int>, a: int, b: int)
    requires
        crate::order::is_permutation(order, items.len() as int),
        forall|a: int, b: int|
            0 <= a < b < order.len() ==> items[#[trigger] order[a]].0 <= items[#[trigger] order[b]].0,
        forall|i: int, j: int|
            0 <= i < j < items.len() ==> (#[trigger] items[i]).0 != (#[trigger] items[j]).0,
        0 <= a < b < items.len(),
    ensures
        items[order[a]].0 < items[order[b]].0,
{
    assert(order[a] != order[b]);
    assert(0 <= order[a] < items.len() && 0 <= order[b] < items.len());
    if order[a] < order[b] {
        assert(items[order[a]].0 != items[order[b]].0);
    } else {
        assert(items[order[b]].0 != items[order[a]].0);
    }
}

proof fn lemma_at_least(items: Seq<(usize, Vec<u32>)>, order: Seq<int>, n: int)
    requires
        crate::order::is_permutation(order, items.len() as int),
        forall|a: int, b: int|
            0 <= a < b < order.len() ==> items[#[trigger] order[a]].0 <= items[#[trigger] order[b]].0,
        forall|i: int, j: int|
            0 <= i < j < items.len() ==> (#[trigger] items[i]).0 != (#[trigger] items[j]).0,
        0 <= n < items.len(),
    ensures
        items[order[n]].0 >= n,
    decreases n,
{
    if n > 0 {
        lemma_at_least(items, order, n - 1);
        lemma_strictly(items, order, n - 1, n);
    }
}

proof fn lemma_at_most(items: Seq<(usize, Vec<u32>)>, order: Seq<int>, n: int)
    requires
        crate::order::is_permutation(order, items.len() as int),
        forall|a: int, b: int|
            0 <= a < b < order.len() ==> items[#[trigger] order[a]].0 <= items[#[trigger] order[b]].0,
        forall|i: int, j: int|
            0 <= i < j < items.len() ==> (#[trigger] items[i]).0 != (#[trigger] items[j]).0,
        forall|i: int| 0 <= i < items.len() ==> (#[trigger] items[i]).0 < items.len(),
        0 <= n < items.len(),
    ensures
        items[order[n]].0 <= n,
    decreases items.len() - n,
{
    assert(0 <= order[n] < items.len());
    if n < items.len() - 1 {
        lemma_at_most(items, order, n + 1);
        lemma_strictly(items, order, n, n + 1);
    }
}

} // verus!
