//! Which files of a project a question is about, and which of their lines answer it.

use vstd::prelude::*;

use crate::code::types::{
    code_chunk_views, file_views, CodeChunk, CodeChunkView, CodeFile, CodeFileView,
};
use crate::models::{is_nan, total_order, Score, ScoreView};
use crate::order::{
    by_pair, indices, is_best, lemma_best, order_pairs, pairs, picked, stable_order,
};
use crate::rag::search::at_most;
use crate::rag::search::score_views;
use crate::text::{
    ascii_lower, byte_len, bytes_of, contains, contains_any, has, has_any, lowercase, pieces, replace,
    replaced, same, split, str_views, to_ascii_lower, views, CharClass,
};

verus! {

/// The bits of the smallest score that counts as relevant, 0.18.
pub const MIN_CODE_RELEVANCE_BITS: u32 = 0x3e38_51ec;

/// A chunk with its relevance for a question.
#[derive(Debug, PartialEq, Eq)]
pub struct ScoredCodeChunk {
    pub chunk: CodeChunk,
    pub score: Score,
}

/// What a `ScoredCodeChunk` holds.
pub struct ScoredCodeView {
    pub chunk: CodeChunkView,
    pub score: ScoreView,
}

impl View for ScoredCodeChunk {
    type V = ScoredCodeView;

    open spec fn view(&self) -> ScoredCodeView {
        ScoredCodeView { chunk: self.chunk@, score: self.score@ }
    }
}

impl Clone for ScoredCodeChunk {
    fn clone(&self) -> (r: ScoredCodeChunk)
        ensures
            r@ == self@,
    {
        ScoredCodeChunk { chunk: self.chunk.clone(), score: self.score.clone() }
    }
}

/// The views of a list of scored chunks.
pub open spec fn scored_code_views(v: Seq<ScoredCodeChunk>) -> Seq<ScoredCodeView> {
    v.map_values(|c: ScoredCodeChunk| c@)
}

// ------------------------------------------------------------- selected file

/// The lower-case question is about the file that is selected.
pub open spec fn is_about_selection(lower: Seq<char>) -> bool {
    contains_any(
        lower,
        seq![
            "archivo seleccionado"@,
            "este archivo"@,
            "esta funcion"@,
            "esta función"@,
            "este codigo"@,
            "este código"@,
            "esta clase"@,
            "refactoriza esta"@,
        ],
    )
}

/// Whether the lower-case question is about the file that is selected.
pub fn speaks_of_selection(lower: &str) -> (r: bool)
    ensures
        r == is_about_selection(lower@),
{
    let phrases = [
        "archivo seleccionado",
        "este archivo",
        "esta funcion",
        "esta función",
        "este codigo",
        "este código",
        "esta clase",
        "refactoriza esta",
    ];
    assert(str_views(phrases@) =~= seq![
        "archivo seleccionado"@,
        "este archivo"@,
        "esta funcion"@,
        "esta función"@,
        "este codigo"@,
        "este código"@,
        "esta clase"@,
        "refactoriza esta"@,
    ]);
    has_any(lower, &phrases)
}

/// Whether the question is about the file that is selected.
pub fn targets_selected_file(query: &str) -> (r: bool)
    ensures
        r == is_about_selection(lowercase(query@)),
{
    let lower = query.to_lowercase();
    speaks_of_selection(lower.as_str())
}

// ------------------------------------------------------------------ search

/// The score reaches the smallest relevant one.
pub open spec fn is_code_relevant(bits: u32) -> bool {
    !is_nan(bits) && total_order(bits) >= total_order(MIN_CODE_RELEVANCE_BITS)
}

fn code_relevant(score: &Score) -> (r: bool)
    ensures
        r == is_code_relevant(score.bits),
{
    let nan = (0x7f80_0000 < score.bits && score.bits < 0x8000_0000) || 0xff80_0000 < score.bits;
    !nan && score.order() >= MIN_CODE_RELEVANCE_BITS as i64
}

/// Some word of three bytes or more of the path stands in the question.
pub open spec fn path_is_mentioned(path: Seq<char>, query: Seq<char>) -> bool {
    exists|i: int|
        0 <= i < split(path, CharClass::NonAlphanumeric).len() && byte_len(
            #[trigger] split(path, CharClass::NonAlphanumeric)[i],
        ) >= 3 && contains(
            ascii_lower(query),
            ascii_lower(split(path, CharClass::NonAlphanumeric)[i]),
        )
}

/// Whether some word of the path stands in the question.
pub fn mentions_path(path: &str, query: &str) -> (r: bool)
    ensures
        r == path_is_mentioned(path@, query@),
{
    let small = to_ascii_lower(query);
    let parts = pieces(path, CharClass::NonAlphanumeric);
    let ghost all = split(path@, CharClass::NonAlphanumeric);
    let mut i: usize = 0;
    while i < parts.len()
        invariant
            i <= parts.len(),
            all == views(parts@),
            all == split(path@, CharClass::NonAlphanumeric),
            small@ == ascii_lower(query@),
            forall|j: int|
                0 <= j < i ==> !(byte_len(#[trigger] all[j]) >= 3 && contains(
                    ascii_lower(query@),
                    ascii_lower(all[j]),
                )),
        decreases parts.len() - i,
    {
        assert(all[i as int] == parts@[i as int]@);
        if bytes_of(parts[i].as_str()) >= 3 {
            let part = to_ascii_lower(parts[i].as_str());
            if has(small.as_str(), part.as_str()) {
                return true;
            }
        }
        i += 1;
    }
    assert(all.len() == parts@.len());
    false
}

/// A path that is mentioned has a stretch of three bytes or more in common with the
/// question, case aside; and a word of the path that stands in the question mentions it.
pub proof fn law_path_mention(path: Seq<char>, query: Seq<char>, n: int)
    requires
        0 <= n < split(path, CharClass::NonAlphanumeric).len(),
    ensures
        path_is_mentioned(path, query) ==> exists|w: Seq<char>|
            contains(path, w) && byte_len(w) >= 3 && #[trigger] contains(
                ascii_lower(query),
                ascii_lower(w),
            ),
        ({
            let w = split(path, CharClass::NonAlphanumeric)[n];
            byte_len(w) >= 3 && contains(ascii_lower(query), ascii_lower(w))
                ==> path_is_mentioned(path, query)
        }),
{
    let all = split(path, CharClass::NonAlphanumeric);
    if path_is_mentioned(path, query) {
        let i = choose|i: int|
            0 <= i < all.len() && byte_len(#[trigger] all[i]) >= 3 && contains(
                ascii_lower(query),
                ascii_lower(all[i]),
            );
        crate::text::lemma_split_contains(path, CharClass::NonAlphanumeric, i);
    }
}

/// The chunk may be given as an answer: it belongs to an allowed file, its
/// embedding has the size of the question's and, where all files are allowed, its
/// score is relevant.
pub open spec fn is_eligible(
    item: ScoredCodeView,
    dimensions: nat,
    allowed: Option<Seq<i64>>,
) -> bool {
    &&& allowed matches Some(ids) ==> ids.contains(item.chunk.file_id)
    &&& item.chunk.embedding.len() == dimensions
    &&& allowed is Some || is_code_relevant(item.score.bits)
}

/// The chunks with their scores.
pub open spec fn code_items(chunks: Seq<CodeChunkView>, scores: Seq<ScoreView>) -> Seq<
    ScoredCodeView,
> {
    Seq::new(chunks.len(), |i: int| ScoredCodeView { chunk: chunks[i], score: scores[i] })
}

/// The items from the best score to the worst.
pub open spec fn ranked_code(items: Seq<ScoredCodeView>) -> Seq<ScoredCodeView> {
    picked(
        items,
        stable_order(
            items.map_values(|c: ScoredCodeView| (-total_order(c.score.bits), 0int)),
            by_pair(),
        ),
    )
}

/// The best eligible chunks, best first.
pub open spec fn best_code(
    items: Seq<ScoredCodeView>,
    dimensions: nat,
    max_results: nat,
    allowed: Option<Seq<i64>>,
) -> Seq<ScoredCodeView> {
    at_most(
        ranked_code(items.filter(|c: ScoredCodeView| is_eligible(c, dimensions, allowed))),
        max_results,
    )
}

/// The identifiers of a list of allowed files.
pub open spec fn allowed_view(allowed: Option<Vec<i64>>) -> Option<Seq<i64>> {
    match allowed {
        Some(v) => Some(v@),
        None => None,
    }
}

fn is_allowed(allowed: &Option<Vec<i64>>, id: i64) -> (r: bool)
    ensures
        r == (allowed_view(*allowed) matches Some(ids) ==> ids.contains(id)),
{
    match allowed {
        None => true,
        Some(ids) => holds_id(ids, id),
    }
}

fn holds_id(ids: &Vec<i64>, id: i64) -> (r: bool)
    ensures
        r == ids@.contains(id),
{
    let mut i: usize = 0;
    while i < ids.len()
        invariant
            i <= ids.len(),
            forall|j: int| 0 <= j < i ==> ids@[j] != id,
        decreases ids.len() - i,
    {
        if ids[i] == id {
            return true;
        }
        i += 1;
    }
    false
}

/// The best chunks of the allowed files for a question; `scores` gives the score
/// of each chunk.
pub fn search_code_scoped(
    chunks: &Vec<CodeChunk>,
    scores: &Vec<Score>,
    dimensions: usize,
    max_results: usize,
    allowed_files: &Option<Vec<i64>>,
) -> (r: Vec<ScoredCodeChunk>)
    requires
        chunks@.len() == scores@.len(),
    ensures
        scored_code_views(r@) == best_code(
            code_items(code_chunk_views(chunks@), score_views(scores@)),
            dimensions as nat,
            max_results as nat,
            allowed_view(*allowed_files),
        ),
{
    let ghost items = code_items(code_chunk_views(chunks@), score_views(scores@));
    let ghost allowed = allowed_view(*allowed_files);
    let ghost keep = |c: ScoredCodeView| is_eligible(c, dimensions as nat, allowed);
    let everywhere = match allowed_files {
        Some(_) => false,
        None => true,
    };
    let mut kept: Vec<ScoredCodeChunk> = Vec::new();
    let mut keys: Vec<(i128, i128)> = Vec::new();
    let mut i: usize = 0;
    while i < chunks.len()
        invariant
            i <= chunks.len() == scores.len(),
            items == code_items(code_chunk_views(chunks@), score_views(scores@)),
            allowed == allowed_view(*allowed_files),
            everywhere == (allowed is None),
            keep == (|c: ScoredCodeView| is_eligible(c, dimensions as nat, allowed)),
            scored_code_views(kept@) == items.take(i as int).filter(keep),
            keys.len() == kept.len(),
            forall|j: int|
                0 <= j < kept.len() ==> (#[trigger] keys@[j]).0 == -total_order(
                    kept@[j].score.bits,
                ) && keys@[j].1 == 0,
        decreases chunks.len() - i,
    {
        proof {
            assert(items.take(i + 1).drop_last() =~= items.take(i as int));
            assert(items.take(i + 1).last() == items[i as int]);
            reveal_with_fuel(Seq::filter, 2);
        }
        if is_allowed(allowed_files, chunks[i].file_id) && chunks[i].embedding.len() == dimensions
            && (!everywhere || code_relevant(&scores[i])) {
            let ghost before = scored_code_views(kept@);
            let item = ScoredCodeChunk { chunk: chunks[i].clone(), score: scores[i].clone() };
            keys.push((-(item.score.order() as i128), 0));
            kept.push(item);
            assert(scored_code_views(kept@) =~= before.push(item@));
        }
        i += 1;
    }
    assert(items.take(i as int) =~= items);
    let ghost found = scored_code_views(kept@);
    assert(pairs(keys@) =~= found.map_values(
        |c: ScoredCodeView| (-total_order(c.score.bits), 0int),
    ));
    let order = order_pairs(&keys);
    let ghost want = picked(found, indices(order@));
    let mut r: Vec<ScoredCodeChunk> = Vec::new();
    let mut j: usize = 0;
    while j < order.len()
        invariant
            j <= order.len(),
            found == scored_code_views(kept@),
            want == picked(found, indices(order@)),
            forall|k: int|
                0 <= k < order.len() ==> 0 <= #[trigger] indices(order@)[k] < kept.len(),
            scored_code_views(r@) == want.take(j as int),
        decreases order.len() - j,
    {
        assert(0 <= indices(order@)[j as int] < kept.len());
        let ghost before = scored_code_views(r@);
        let item = kept[order[j]].clone();
        r.push(item);
        assert(scored_code_views(r@) =~= before.push(item@));
        assert(scored_code_views(r@) =~= want.take(j + 1));
        j += 1;
    }
    assert(want.take(j as int) =~= want);
    if r.len() > max_results {
        let ghost all = scored_code_views(r@);
        r.truncate(max_results);
        assert(scored_code_views(r@) =~= all.take(max_results as int));
    }
    r
}

/// A search gives at most as many chunks as wanted, only chunks that it was given,
/// and only chunks of allowed files.
pub proof fn law_search_keeps_to_scope(
    items: Seq<ScoredCodeView>,
    dimensions: nat,
    max_results: nat,
    allowed: Option<Seq<i64>>,
)
    ensures
        best_code(items, dimensions, max_results, allowed).len() <= max_results,
        forall|x: ScoredCodeView| #[trigger]
            best_code(items, dimensions, max_results, allowed).contains(x) ==> items.contains(x)
                && is_eligible(x, dimensions, allowed),
{
    let keep = |c: ScoredCodeView| is_eligible(c, dimensions, allowed);
    let kept = items.filter(keep);
    let keys = kept.map_values(|c: ScoredCodeView| (-total_order(c.score.bits), 0int));
    let order = stable_order(keys, by_pair());
    crate::order::lemma_by_pair();
    crate::order::law_stable_order(keys, by_pair());
    let r = best_code(items, dimensions, max_results, allowed);
    assert forall|x: ScoredCodeView| #[trigger] r.contains(x) implies items.contains(x)
        && is_eligible(x, dimensions, allowed) by {
        let i = choose|i: int| 0 <= i < r.len() && r[i] == x;
        assert(0 <= order[i] < kept.len());
        assert(kept[order[i]] == x);
        items.lemma_filter_pred(keep, order[i]);
        items.lemma_filter_contains_rev(keep, x);
    }
}

/// A search gives the best chunks, best first: those of allowed files with an embedding
/// of the right size and, where all files are allowed, a score of at least 0.18. No such
/// chunk that was left out is better than one that was given, none is given twice, and one
/// is left out only where there are as many as wanted.
pub proof fn law_best_code(
    chunks: Seq<CodeChunkView>,
    scores: Seq<ScoreView>,
    dimensions: nat,
    max_results: nat,
    allowed: Option<Seq<i64>>,
)
    ensures
        is_best(
            Seq::new(
                chunks.len(),
                |i: int| ScoredCodeView { chunk: chunks[i], score: scores[i] },
            ),
            |c: ScoredCodeView|
                {
                    &&& allowed matches Some(ids) ==> ids.contains(c.chunk.file_id)
                    &&& c.chunk.embedding.len() == dimensions
                    &&& allowed is Some || 0x3e38_51ec <= c.score.bits <= 0x7f80_0000
                },
            |c: ScoredCodeView| total_order(c.score.bits),
            max_results,
            best_code(code_items(chunks, scores), dimensions, max_results, allowed),
        ),
{
    let items = code_items(chunks, scores);
    assert(items =~= Seq::new(
        chunks.len(),
        |i: int| ScoredCodeView { chunk: chunks[i], score: scores[i] },
    ));
    let wanted = |c: ScoredCodeView|
        {
            &&& allowed matches Some(ids) ==> ids.contains(c.chunk.file_id)
            &&& c.chunk.embedding.len() == dimensions
            &&& allowed is Some || 0x3e38_51ec <= c.score.bits <= 0x7f80_0000
        };
    let keep = |c: ScoredCodeView| is_eligible(c, dimensions, allowed);
    let rank = |c: ScoredCodeView| total_order(c.score.bits);
    assert(keep =~= wanted);
    let kept = items.filter(keep);
    let keys = kept.map_values(|c: ScoredCodeView| (-total_order(c.score.bits), 0int));
    lemma_best(
        items,
        keep,
        rank,
        max_results,
        keys,
        best_code(items, dimensions, max_results, allowed),
    );
}

// -------------------------------------------------------------- scope by name

/// The text behind the last `c`, or all of it.
pub open spec fn after_last(s: Seq<char>, c: char) -> Seq<char>
    decreases s.len(),
{
    if s.len() == 0 || s.last() == c {
        seq![]
    } else {
        after_last(s.drop_last(), c).push(s.last())
    }
}

/// The text behind the last `c`, or all of it.
pub fn tail_after_last(s: &str, c: char) -> (r: String)
    ensures
        r@ == after_last(s@, c),
{
    let v = crate::text::chars(s);
    let mut start: usize = v.len();
    assert(s@.take(start as int) =~= s@);
    assert(after_last(s@, c) =~= after_last(s@.take(start as int), c) + s@.skip(start as int));
    while start > 0 && v[start - 1] != c
        invariant
            v@ == s@,
            start <= v.len(),
            after_last(s@, c) == after_last(s@.take(start as int), c) + s@.skip(start as int),
        decreases start,
    {
        proof {
            let part = s@.take(start as int);
            assert(part.drop_last() =~= s@.take(start - 1));
            assert(after_last(part, c) + s@.skip(start as int) =~= after_last(
                s@.take(start - 1),
                c,
            ) + s@.skip(start - 1));
        }
        start -= 1;
    }
    let r = crate::text::string(vstd::slice::slice_subrange(&v, start, v.len()));
    assert(after_last(s@.take(start as int), c) =~= seq![]);
    assert(r@ =~= after_last(s@, c));
    r
}

/// The name of a file in small ASCII letters.
pub open spec fn file_key(f: CodeFileView) -> Seq<char> {
    ascii_lower(after_last(f.relative_path, '/'))
}

/// The question with slashes between the components of paths, in small letters.
pub open spec fn question_key(query: Seq<char>) -> Seq<char> {
    ascii_lower(replace(query, "\\"@, "/"@))
}

/// The question holds the whole path of the file.
pub open spec fn path_named(f: CodeFileView, q: Seq<char>) -> bool {
    contains(q, ascii_lower(f.relative_path))
}

/// The question holds the name of the file.
pub open spec fn name_named(f: CodeFileView, q: Seq<char>) -> bool {
    contains(q, file_key(f))
}

/// Some file with this name has its whole path in the question.
pub open spec fn name_is_settled(files: Seq<CodeFileView>, q: Seq<char>, name: Seq<char>) -> bool {
    exists|i: int|
        0 <= i < files.len() && path_named(#[trigger] files[i], q) && file_key(files[i]) == name
}

/// No other file has the name of the file at `i`.
pub open spec fn name_is_unique(files: Seq<CodeFileView>, i: int) -> bool {
    forall|j: int|
        0 <= j < files.len() && j != i ==> file_key(#[trigger] files[j]) != file_key(files[i])
}

/// The question means the file at `i`: it holds the file's path; or it holds the
/// file's name, no path with that name, and the file is the only one of that name
/// or the selected one of several.
pub open spec fn is_meant(
    files: Seq<CodeFileView>,
    q: Seq<char>,
    selected: Option<i64>,
    i: int,
) -> bool {
    ||| path_named(files[i], q)
    ||| {
        &&& name_named(files[i], q)
        &&& !name_is_settled(files, q, file_key(files[i]))
        &&& name_is_unique(files, i) || selected == Some(files[i].id)
    }
}

/// The question means the file with this identifier.
pub open spec fn in_scope(
    files: Seq<CodeFileView>,
    q: Seq<char>,
    selected: Option<i64>,
    id: i64,
) -> bool {
    exists|i: int|
        0 <= i < files.len() && (#[trigger] files[i]).id == id && is_meant(files, q, selected, i)
}

/// The question names some file.
pub open spec fn names_a_file(files: Seq<CodeFileView>, q: Seq<char>) -> bool {
    exists|i: int|
        0 <= i < files.len() && (path_named(#[trigger] files[i], q) || name_named(files[i], q))
}

/// The numbers ascend.
pub open spec fn ascending(ids: Seq<i64>) -> bool {
    forall|i: int, j: int| 0 <= i < j < ids.len() ==> #[trigger] ids[i] < #[trigger] ids[j]
}

fn insert_id(ids: &mut Vec<i64>, id: i64)
    requires
        ascending(old(ids)@),
    ensures
        ascending(final(ids)@),
        forall|x: i64| #[trigger]
            final(ids)@.contains(x) <==> old(ids)@.contains(x) || x == id,
{
    let ghost before = ids@;
    let mut p: usize = ids.len();
    while p > 0 && ids[p - 1] > id
        invariant
            p <= ids.len(),
            ids@ == before,
            ascending(before),
            forall|j: int| p <= j < before.len() ==> before[j] > id,
        decreases p,
    {
        p -= 1;
    }
    if p > 0 && ids[p - 1] == id {
        assert(before.contains(id));
        return ;
    }
    assert(forall|j: int| 0 <= j < p ==> before[j] < id) by {
        if p > 0 {
            assert(before[p - 1] < id);
        }
    }
    ids.insert(p, id);
    proof {
        let after = ids@;
        assert(after =~= before.insert(p as int, id));
        assert forall|x: i64| #[trigger] after.contains(x) <==> before.contains(x) || x == id by {
            assert(after[p as int] == id);
            if before.contains(x) {
                let i = choose|i: int| 0 <= i < before.len() && before[i] == x;
                if i < p {
                    assert(after[i] == x);
                } else {
                    assert(after[i + 1] == x);
                }
            }
            if after.contains(x) && x != id {
                let i = choose|i: int| 0 <= i < after.len() && after[i] == x;
                if i < p {
                    assert(before[i] == x);
                } else {
                    assert(before[i - 1] == x);
                }
            }
        }
    }
}

/// The files that a question is about, by their identifiers in ascending order;
/// none where it names no file. A question about the selection is about the
/// selected file alone, whatever else it names.
pub fn resolve_file_scope(files: &Vec<CodeFile>, query: &str, selected_file: Option<i64>) -> (r:
    Option<Vec<i64>>)
    ensures
        ({
            let all = file_views(files@);
            let q = question_key(query@);
            if is_about_selection(lowercase(query@)) {
                match selected_file {
                    Some(id) => r matches Some(v) && v@ == seq![id],
                    None => r matches Some(v) && v@.len() == 0,
                }
            } else if names_a_file(all, q) {
                r matches Some(v) && ascending(v@) && forall|id: i64| #[trigger]
                    v@.contains(id) <==> in_scope(all, q, selected_file, id)
            } else {
                r is None
            }
        }),
{
    if targets_selected_file(query) {
        let mut only: Vec<i64> = Vec::new();
        match selected_file {
            Some(id) => {
                only.push(id);
                assert(only@ =~= seq![id]);
            },
            None => {},
        }
        return Some(only);
    }
    proof {
        reveal_strlit("\\");
    }
    let slashed = replaced(query, "\\", "/");
    let question = to_ascii_lower(slashed.as_str());
    scope_of_question(files, question.as_str(), selected_file)
}

/// The files that a question names, given the question with slashes and in small
/// letters.
pub fn scope_of_question(files: &Vec<CodeFile>, question: &str, selected_file: Option<i64>) -> (r:
    Option<Vec<i64>>)
    ensures
        ({
            let all = file_views(files@);
            if names_a_file(all, question@) {
                r matches Some(v) && ascending(v@) && forall|id: i64| #[trigger]
                    v@.contains(id) <==> in_scope(all, question@, selected_file, id)
            } else {
                r is None
            }
        }),
{
    let ghost all = file_views(files@);
    let ghost q = question@;
    let mut names: Vec<String> = Vec::new();
    let mut by_path: Vec<bool> = Vec::new();
    let mut by_name: Vec<bool> = Vec::new();
    let mut any: bool = false;
    let mut i: usize = 0;
    while i < files.len()
        invariant
            i <= files.len(),
            all == file_views(files@),
            q == question@,
            names.len() == i,
            by_path.len() == i,
            by_name.len() == i,
            forall|j: int| 0 <= j < i ==> (#[trigger] names@[j])@ == file_key(all[j]),
            forall|j: int| 0 <= j < i ==> #[trigger] by_path@[j] == path_named(all[j], q),
            forall|j: int| 0 <= j < i ==> #[trigger] by_name@[j] == name_named(all[j], q),
            any <==> exists|j: int|
                0 <= j < i && (path_named(#[trigger] all[j], q) || name_named(all[j], q)),
        decreases files.len() - i,
    {
        assert(all[i as int] == files@[i as int]@);
        let path = to_ascii_lower(files[i].relative_path.as_str());
        let tail = tail_after_last(files[i].relative_path.as_str(), '/');
        let name = to_ascii_lower(tail.as_str());
        let p = has(question, path.as_str());
        let n = has(question, name.as_str());
        if p || n {
            any = true;
        }
        names.push(name);
        by_path.push(p);
        by_name.push(n);
        i += 1;
    }
    if !any {
        return None;
    }
    let mut ids: Vec<i64> = Vec::new();
    let mut k: usize = 0;
    while k < files.len()
        invariant
            k <= files.len(),
            all == file_views(files@),
            names.len() == files.len(),
            by_path.len() == files.len(),
            by_name.len() == files.len(),
            forall|j: int| 0 <= j < files.len() ==> (#[trigger] names@[j])@ == file_key(all[j]),
            forall|j: int| 0 <= j < files.len() ==> #[trigger] by_path@[j] == path_named(all[j], q),
            forall|j: int| 0 <= j < files.len() ==> #[trigger] by_name@[j] == name_named(all[j], q),
            ascending(ids@),
            forall|id: i64| #[trigger]
                ids@.contains(id) <==> exists|j: int|
                    0 <= j < k && (#[trigger] all[j]).id == id && is_meant(
                        all,
                        q,
                        selected_file,
                        j,
                    ),
        decreases files.len() - k,
    {
        assert(all[k as int] == files@[k as int]@);
        let mut settled: bool = false;
        let mut unique: bool = true;
        let mut j: usize = 0;
        while j < files.len()
            invariant
                j <= files.len(),
                k < files.len(),
                all == file_views(files@),
                names.len() == files.len(),
                by_path.len() == files.len(),
                forall|m: int| 0 <= m < files.len() ==> (#[trigger] names@[m])@ == file_key(all[m]),
                forall|m: int|
                    0 <= m < files.len() ==> #[trigger] by_path@[m] == path_named(all[m], q),
                settled <==> exists|m: int|
                    0 <= m < j && path_named(#[trigger] all[m], q) && file_key(all[m]) == file_key(
                        all[k as int],
                    ),
                unique <==> forall|m: int|
                    0 <= m < j && m != k ==> file_key(#[trigger] all[m]) != file_key(
                        all[k as int],
                    ),
            decreases files.len() - j,
        {
            assert(names@[j as int]@ == file_key(all[j as int]));
            assert(names@[k as int]@ == file_key(all[k as int]));
            assert(by_path@[j as int] == path_named(all[j as int], q));
            if same(names[j].as_str(), names[k].as_str()) {
                if by_path[j] {
                    settled = true;
                }
                if j != k {
                    unique = false;
                }
            }
            j += 1;
        }
        let chosen = match selected_file {
            Some(id) => id == files[k].id,
            None => false,
        };
        assert(all.len() == files@.len());
        assert(settled == name_is_settled(all, q, file_key(all[k as int])));
        assert(unique == name_is_unique(all, k as int));
        assert(by_path@[k as int] == path_named(all[k as int], q));
        assert(by_name@[k as int] == name_named(all[k as int], q));
        let ghost had = ids@;
        if by_path[k] || (by_name[k] && !settled && (unique || chosen)) {
            assert(is_meant(all, q, selected_file, k as int));
            insert_id(&mut ids, files[k].id);
        } else {
            assert(!is_meant(all, q, selected_file, k as int));
        }
        proof {
            assert forall|id: i64| #[trigger] ids@.contains(id) <==> exists|j: int|
                0 <= j < k + 1 && (#[trigger] all[j]).id == id && is_meant(
                    all,
                    q,
                    selected_file,
                    j,
                ) by {
                assert(had.contains(id) <==> exists|j: int|
                    0 <= j < k && (#[trigger] all[j]).id == id && is_meant(
                        all,
                        q,
                        selected_file,
                        j,
                    ));
                assert(all[k as int].id == files@[k as int].id);
                if is_meant(all, q, selected_file, k as int) && all[k as int].id == id {
                    assert(ids@.contains(id));
                }
            }
        }
        k += 1;
    }
    proof {
        assert(all.len() == files@.len());
        assert forall|id: i64| #[trigger] ids@.contains(id) <==> in_scope(
            all,
            q,
            selected_file,
            id,
        ) by {}
    }
    Some(ids)
}

/// What stands behind the last of a character has none of it, ends the text, and begins
/// it or follows that character.
pub proof fn law_after_last(s: Seq<char>, c: char)
    ensures
        !after_last(s, c).contains(c),
        exists|head: Seq<char>|
            s == #[trigger] (head + after_last(s, c)) && (head.len() == 0 || head.last() == c),
    decreases s.len(),
{
    if s.len() == 0 || s.last() == c {
        assert(s + after_last(s, c) =~= s);
    } else {
        let p = s.drop_last();
        law_after_last(p, c);
        let t = after_last(p, c);
        let head = choose|head: Seq<char>|
            p == #[trigger] (head + after_last(p, c)) && (head.len() == 0 || head.last() == c);
        assert(p == head + t);
        assert(after_last(s, c) == t.push(s.last()));
        assert(s =~= p.push(s.last()));
        assert(s =~= head + after_last(s, c));
        assert forall|i: int| 0 <= i < after_last(s, c).len() implies after_last(s, c)[i] != c by {
            if i < t.len() {
                assert(t.contains(t[i]));
            }
        }
    }
}

/// The name of a file, in small letters: what stands behind the last slash of its path.
pub open spec fn small_name(f: CodeFileView) -> Seq<char> {
    ascii_lower(after_last(f.relative_path, '/'))
}

/// A question that holds the path of a file is about it. It is about a file that it names
/// only where no path of that name stands in it and the name is that of one file alone or
/// the file is the selected one; so files of one name are never mixed up. It is about no
/// file of which neither path nor name stands in it.
pub proof fn law_scope(files: Seq<CodeFileView>, q: Seq<char>, selected: Option<i64>)
    ensures
        forall|i: int|
            0 <= i < files.len() && contains(q, ascii_lower((#[trigger] files[i]).relative_path))
                ==> in_scope(files, q, selected, files[i].id),
        forall|i: int|
            0 <= i < files.len() && contains(q, small_name(#[trigger] files[i])) && (forall|j: int|
                0 <= j < files.len() && j != i ==> small_name(#[trigger] files[j]) != small_name(
                    files[i],
                )) ==> in_scope(files, q, selected, files[i].id),
        forall|i: int|
            0 <= i < files.len() && contains(q, small_name(#[trigger] files[i])) && selected
                == Some(files[i].id) && (forall|j: int|
                0 <= j < files.len() && contains(q, ascii_lower((#[trigger] files[j]).relative_path))
                    ==> small_name(files[j]) != small_name(files[i])) ==> in_scope(
                files,
                q,
                selected,
                files[i].id,
            ),
        forall|id: i64| #[trigger]
            in_scope(files, q, selected, id) ==> exists|i: int|
                {
                    &&& 0 <= i < files.len()
                    &&& (#[trigger] files[i]).id == id
                    &&& contains(q, ascii_lower(files[i].relative_path)) || (contains(
                        q,
                        small_name(files[i]),
                    ) && (selected == Some(id) || forall|j: int|
                        0 <= j < files.len() && j != i ==> small_name(#[trigger] files[j])
                            != small_name(files[i])))
                },
{
    assert forall|i: int|
        0 <= i < files.len() && contains(
            q,
            ascii_lower((#[trigger] files[i]).relative_path),
        ) implies in_scope(files, q, selected, files[i].id) by {
        assert(is_meant(files, q, selected, i));
    }
    assert forall|i: int|
        0 <= i < files.len() && contains(q, small_name(#[trigger] files[i])) && (forall|j: int|
            0 <= j < files.len() && j != i ==> small_name(#[trigger] files[j]) != small_name(
                files[i],
            )) implies in_scope(files, q, selected, files[i].id) by {
        assert(name_is_unique(files, i));
        if name_is_settled(files, q, file_key(files[i])) {
            let j = choose|j: int|
                0 <= j < files.len() && path_named(#[trigger] files[j], q) && file_key(files[j])
                    == file_key(files[i]);
            assert(small_name(files[j]) == small_name(files[i]));
            assert(j == i);
        }
        assert(is_meant(files, q, selected, i));
    }
    assert forall|i: int|
        0 <= i < files.len() && contains(q, small_name(#[trigger] files[i])) && selected == Some(
            files[i].id,
        ) && (forall|j: int|
            0 <= j < files.len() && contains(q, ascii_lower((#[trigger] files[j]).relative_path))
                ==> small_name(files[j]) != small_name(files[i])) implies in_scope(
        files,
        q,
        selected,
        files[i].id,
    ) by {
        if name_is_settled(files, q, file_key(files[i])) {
            let j = choose|j: int|
                0 <= j < files.len() && path_named(#[trigger] files[j], q) && file_key(files[j])
                    == file_key(files[i]);
            assert(small_name(files[j]) == small_name(files[i]));
        }
        assert(is_meant(files, q, selected, i));
    }
    assert forall|id: i64| #[trigger] in_scope(files, q, selected, id) implies exists|i: int|
        {
            &&& 0 <= i < files.len()
            &&& (#[trigger] files[i]).id == id
            &&& contains(q, ascii_lower(files[i].relative_path)) || (contains(
                q,
                small_name(files[i]),
            ) && (selected == Some(id) || forall|j: int|
                0 <= j < files.len() && j != i ==> small_name(#[trigger] files[j]) != small_name(
                    files[i],
                )))
        } by {
        let i = choose|i: int|
            0 <= i < files.len() && (#[trigger] files[i]).id == id && is_meant(
                files,
                q,
                selected,
                i,
            );
        if !contains(q, ascii_lower(files[i].relative_path)) && selected != Some(id) {
            assert forall|j: int| 0 <= j < files.len() && j != i implies small_name(
                #[trigger] files[j],
            ) != small_name(files[i]) by {
                assert(file_key(files[j]) != file_key(files[i]));
            }
        }
    }
}

} // verus!
