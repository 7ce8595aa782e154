//! What the conversation shows: the composer, the labels of the answers and
//! where they were taken from.

use vstd::prelude::*;
use vstd::string::StringExecFns;

use crate::models::{source_views, Source, SourceView};
use crate::text::{chars, decimal, decimal_string, line_breaks, same};

verus! {

/// The height of the composer with up to three lines.
pub const COMPOSER_MIN_HEIGHT: u32 = 72;

/// The height that the composer never exceeds.
pub const COMPOSER_MAX_HEIGHT: u32 = 180;

/// The height of a line of the composer.
pub const COMPOSER_LINE_HEIGHT: u32 = 19;

/// The lines that fit without growing the composer.
pub const COMPOSER_BASE_LINES: u32 = 3;

/// What was asked in the composer.
#[derive(Debug, Clone, Copy, PartialEq, Eq, Structural)]
pub struct ComposerAction {
    pub send: bool,
    pub stop: bool,
}

impl Default for ComposerAction {
    fn default() -> (r: ComposerAction)
        ensures
            !r.send,
            !r.stop,
    {
        ComposerAction { send: false, stop: false }
    }
}

/// What the composer asks for: while an answer is on its way the button stops
/// it, and otherwise the button or the enter key sends.
pub fn composer_action(generating: bool, focused: bool, enter: bool, shift: bool, clicked: bool) -> (r:
    ComposerAction)
    ensures
        r.send == (!generating && (clicked || (focused && enter && !shift))),
        r.stop == (generating && clicked),
{
    let enter_send = !generating && focused && enter && !shift;
    ComposerAction { send: enter_send || (!generating && clicked), stop: generating && clicked }
}

/// The height that the text of the composer asks for.
pub open spec fn desired_height(text: Seq<char>) -> int {
    let lines = line_breaks(text) + 1;
    let extra: int = if lines < COMPOSER_BASE_LINES {
        0
    } else {
        lines - COMPOSER_BASE_LINES
    };
    let height = COMPOSER_MIN_HEIGHT + extra * COMPOSER_LINE_HEIGHT;
    if height < COMPOSER_MAX_HEIGHT {
        height
    } else {
        COMPOSER_MAX_HEIGHT as int
    }
}

/// The height that the text of the composer asks for.
pub fn composer_height(text: &str) -> (r: u32)
    ensures
        r == desired_height(text@),
        COMPOSER_MIN_HEIGHT <= r <= COMPOSER_MAX_HEIGHT,
{
    let c = chars(text);
    let mut lines: usize = 1;
    let mut i: usize = 0;
    while i < c.len() && lines < 1000
        invariant
            i <= c.len(),
            c@ == text@,
            lines <= 1000,
            lines == line_breaks(text@.take(i as int)) + 1,
        decreases c.len() - i,
    {
        assert(text@.take(i + 1).drop_last() =~= text@.take(i as int));
        if c[i] == '\n' {
            lines += 1;
        }
        i += 1;
    }
    proof {
        lemma_breaks_grow(text@, i as int);
        assert(i == c.len() ==> text@.take(i as int) =~= text@);
    }
    let extra: u32 = if lines < 3 {
        0
    } else {
        lines as u32 - 3
    };
    let height: u32 = COMPOSER_MIN_HEIGHT + extra * COMPOSER_LINE_HEIGHT;
    if height < COMPOSER_MAX_HEIGHT {
        height
    } else {
        COMPOSER_MAX_HEIGHT
    }
}

proof fn lemma_breaks_grow(text: Seq<char>, n: int)
    requires
        0 <= n <= text.len(),
    ensures
        line_breaks(text.take(n)) <= line_breaks(text),
    decreases text.len(),
{
    if n < text.len() {
        assert(text.take(n) =~= text.drop_last().take(n));
        lemma_breaks_grow(text.drop_last(), n);
    } else {
        assert(text.take(n) =~= text);
    }
}

/// The composer never shrinks when text is added at its end.
pub proof fn law_composer_grows(text: Seq<char>, more: Seq<char>)
    ensures
        desired_height(text) <= desired_height(text + more),
{
    lemma_breaks_grow(text + more, text.len() as int);
    assert((text + more).take(text.len() as int) =~= text);
}

/// A source belongs to the scope: to its library, or to any where there is none.
pub open spec fn in_library(source_library_id: i64, scope: Option<i64>) -> bool {
    match scope {
        Some(library_id) => source_library_id == library_id,
        None => true,
    }
}

/// Whether a source belongs to the scope.
pub fn source_matches_library(source_library_id: i64, scope: Option<i64>) -> (r: bool)
    ensures
        r == in_library(source_library_id, scope),
{
    match scope {
        Some(library_id) => source_library_id == library_id,
        None => true,
    }
}

/// The sources that are shown under an answer.
pub open spec fn shown(sources: Seq<SourceView>, scope: Option<i64>) -> Seq<SourceView> {
    sources.filter(|s: SourceView| in_library(s.library_id, scope))
}

/// The sources that are shown under an answer.
pub fn visible_sources(sources: &Vec<Source>, scope: Option<i64>) -> (r: Vec<Source>)
    ensures
        source_views(r@) == shown(source_views(sources@), scope),
{
    let ghost keep = |s: SourceView| in_library(s.library_id, scope);
    let ghost all = source_views(sources@);
    let mut r: Vec<Source> = Vec::new();
    let mut i: usize = 0;
    assert(all.take(0).filter(keep) =~= seq![]);
    while i < sources.len()
        invariant
            i <= sources.len(),
            all == source_views(sources@),
            keep == (|s: SourceView| in_library(s.library_id, scope)),
            source_views(r@) == all.take(i as int).filter(keep),
        decreases sources.len() - i,
    {
        proof {
            reveal_with_fuel(Seq::filter, 2);
            assert(all.take(i + 1).drop_last() =~= all.take(i as int));
            assert(all[i as int] == sources@[i as int]@);
        }
        if source_matches_library(sources[i].library_id, scope) {
            let ghost before = source_views(r@);
            let s = sources[i].clone();
            r.push(s);
            assert(source_views(r@) =~= before.push(s@));
        }
        i += 1;
    }
    assert(all.take(i as int) =~= all);
    r
}

/// A source shown for a library is of that library.
pub proof fn law_no_foreign_source_is_shown(sources: Seq<SourceView>, library_id: i64, s: SourceView)
    requires
        shown(sources, Some(library_id)).contains(s),
    ensures
        s.library_id == library_id,
        sources.contains(s),
{
    let keep = |s: SourceView| in_library(s.library_id, Some(library_id));
    let i = shown(sources, Some(library_id)).index_of(s);
    sources.lemma_filter_pred(keep, i);
    sources.lemma_filter_contains_rev(keep, s);
}

/// What an answer with sources is based on.
pub open spec fn spec_basis(sources: Seq<SourceView>) -> Seq<char> {
    if exists|i: int| 0 <= i < sources.len() && (#[trigger] sources[i]).relative_path.len() > 0 {
        "Basada en codigo"@
    } else {
        "Basada en documentos"@
    }
}

/// What an answer with these sources is based on, if it has any.
pub fn basis(sources: &Vec<Source>) -> (r: Option<&'static str>)
    ensures
        match r {
            Some(text) => sources@.len() > 0 && text@ == spec_basis(source_views(sources@)),
            None => sources@.len() == 0,
        },
{
    if sources.len() == 0 {
        return None;
    }
    let ghost all = source_views(sources@);
    let mut i: usize = 0;
    while i < sources.len()
        invariant
            i <= sources.len(),
            sources@.len() > 0,
            all == source_views(sources@),
            forall|j: int| 0 <= j < i ==> (#[trigger] all[j]).relative_path.len() == 0,
        decreases sources.len() - i,
    {
        assert(all[i as int] == sources@[i as int]@);
        if !sources[i].relative_path.as_str().is_empty() {
            return Some("Basada en codigo");
        }
        i += 1;
    }
    Some("Basada en documentos")
}

/// Where in its document a source stands.
pub open spec fn location(s: SourceView) -> Seq<char> {
    match (s.line_start, s.line_end) {
        (Some(start), Some(end)) => "lineas "@ + decimal(start as nat) + "-"@ + decimal(end as nat),
        _ => match s.page_number {
            Some(page) => "pagina "@ + decimal(page as nat),
            None => "fragmento "@ + decimal((s.chunk_index + 1) as nat),
        },
    }
}

/// Where in its document a source stands: its lines, else its page, else its
/// place among the pieces.
pub fn source_location(source: &Source) -> (r: String)
    ensures
        r@ == location(source@),
{
    match (source.line_start, source.line_end) {
        (Some(start), Some(end)) => {
            let mut r = "lineas ".to_owned();
            r.append(decimal_string(start as u128).as_str());
            r.append("-");
            r.append(decimal_string(end as u128).as_str());
            r
        },
        _ => match source.page_number {
            Some(page) => {
                let mut r = "pagina ".to_owned();
                r.append(decimal_string(page as u128).as_str());
                r
            },
            None => {
                let mut r = "fragmento ".to_owned();
                r.append(decimal_string(source.chunk_index as u128 + 1).as_str());
                r
            },
        },
    }
}

/// The line that names a source.
pub fn source_label(source: &Source, diagnostic_mode: bool) -> (r: String)
    ensures
        r@ == source.document_name@ + " - "@ + location(source@) + if diagnostic_mode {
            " (score "@ + source.score.three@ + ")"@
        } else {
            seq![]
        },
{
    let mut r = source.document_name.clone();
    r.append(" - ");
    r.append(source_location(source).as_str());
    if diagnostic_mode {
        let ghost before = r@;
        r.append(" (score ");
        r.append(source.score.three.as_str());
        r.append(")");
        assert(r@ =~= before + (" (score "@ + source.score.three@ + ")"@));
    }
    r
}

/// Who speaks in a message.
pub fn speaker(role: &str) -> (r: &'static str)
    ensures
        r@ == if role@ == "assistant"@ {
            "ASISTENTE"@
        } else {
            "TU"@
        },
{
    if same(role, "assistant") {
        "ASISTENTE"
    } else {
        "TU"
    }
}

/// The words beside the spinner while an answer is on its way.
pub fn pending_label(stage: &Option<String>, streaming_text: &str) -> (r: String)
    ensures
        r@ == match *stage {
            Some(s) => s@,
            None => if streaming_text@.len() == 0 {
                "Pensando..."@
            } else {
                "Generando..."@
            },
        },
{
    match stage {
        Some(s) => s.clone(),
        None => if streaming_text.is_empty() {
            "Pensando...".to_owned()
        } else {
            "Generando...".to_owned()
        },
    }
}

} // verus!
