//! What the language model is told: instructions, evidence and history, and how
//! its answers about documents are checked.

use vstd::prelude::*;
use vstd::string::StringExecFns;

use crate::ai::conversation::{api_views, ApiMessage, ApiView};
use crate::models::{
    message_views, opt_text, source_views, ChunkView, Message, MessageView, Profile, Source,
    SourceView,
};
use crate::paths::{can_be_file_name, file_name};
use crate::rag::search::{
    document_views, items_of, keep_document, scored_views, ScoredChunk, ScoredChunkView,
};
use crate::text::{
    alphanumeric_char, blank, chars, contains, contains_any, decimal, decimal_string, has, has_any,
    integer, integer_string, is_blank, is_whitespace, lemma_contains_add, lemma_contains_between,
    lemma_contains_run, lemma_quoted, lemma_run_push, lowercase, pieces_of_words, prefix, quotes,
    replace, replaced, run_together, same, str_views, take_chars, trim, trimmed, views, words,
    CharClass,
};

verus! {

/// The number of tokens that an analysis of one document may take.
pub const OVERVIEW_ANALYSIS_MAX_TOKENS: usize = 256;

/// The number of tokens that the synthesis of an overview may take.
pub const OVERVIEW_SYNTHESIS_MAX_TOKENS: usize = 512;

// ------------------------------------------------------------ general prompt

pub const MODEL_KNOWN_BEFORE: &'static str =
    " Metadata real disponible: el archivo de modelo local configurado es ";

pub const MODEL_KNOWN_AFTER: &'static str =
    ". Presentalo como motor subyacente, nunca como la identidad principal.";

pub const MODEL_UNKNOWN: &'static str =
    " La aplicacion no conoce con certeza el nombre del modelo subyacente conectado; no lo inventes.";

/// The instruction for general conversations, given the file name of the model.
pub open spec fn general_prompt(model: Option<Seq<char>>) -> Seq<char> {
    let identity = Profile::General.spec_system_prompt();
    match model {
        Some(name) if !is_blank(name) => identity + MODEL_KNOWN_BEFORE@ + name
            + MODEL_KNOWN_AFTER@,
        _ => identity + MODEL_UNKNOWN@,
    }
}

/// The instruction for general conversations, given the file name of the model.
pub fn general_system_prompt_for(model: Option<String>) -> (r: String)
    ensures
        r@ == general_prompt(opt_text(model)),
{
    let mut prompt = Profile::General.system_prompt().to_owned();
    match model {
        Some(name) => {
            if !blank(name.as_str()) {
                prompt.append(MODEL_KNOWN_BEFORE);
                prompt.append(name.as_str());
                prompt.append(MODEL_KNOWN_AFTER);
                return prompt;
            }
        },
        None => {},
    }
    prompt.append(MODEL_UNKNOWN);
    prompt
}

/// The instruction for general conversations, given the path of the model.
pub fn general_system_prompt(model_path: &str) -> (r: String)
    ensures
        exists|name: Option<Seq<char>>|
            can_be_file_name(model_path@, name) && r@ == #[trigger] general_prompt(name),
{
    let name = file_name(model_path);
    let ghost shown = opt_text(name);
    let r = general_system_prompt_for(name);
    assert(can_be_file_name(model_path@, shown) && r@ == general_prompt(shown));
    r
}

/// The instruction for a conversation that goes by what the model knows: under the
/// general profile it names the model.
pub fn plain_system_prompt(profile: Profile, model_path: &str) -> (r: String)
    ensures
        if profile == Profile::General {
            exists|name: Option<Seq<char>>|
                can_be_file_name(model_path@, name) && r@ == #[trigger] general_prompt(name)
        } else {
            r@ == profile.spec_system_prompt()
        },
{
    if profile == Profile::General {
        general_system_prompt(model_path)
    } else {
        profile.system_prompt().to_owned()
    }
}

// ------------------------------------------------------- intent of a question

/// What a question in the document mode is about.
#[derive(Debug, Clone, Copy, PartialEq, Eq, Structural)]
pub enum DocumentIntent {
    Meta,
    LibraryOverview,
    DocumentQuery,
}

/// The text with its accented vowels made plain.
pub open spec fn plain_vowels(s: Seq<char>) -> Seq<char> {
    let a = replace(s, "\u{00e1}"@, "a"@);
    let e = replace(a, "\u{00e9}"@, "e"@);
    let i = replace(e, "\u{00ed}"@, "i"@);
    let o = replace(i, "\u{00f3}"@, "o"@);
    replace(o, "\u{00fa}"@, "u"@)
}

/// The text with its accented vowels made plain.
pub fn with_plain_vowels(s: &str) -> (r: String)
    ensures
        r@ == plain_vowels(s@),
{
    proof {
        reveal_strlit("\u{00e1}");
        reveal_strlit("\u{00e9}");
        reveal_strlit("\u{00ed}");
        reveal_strlit("\u{00f3}");
        reveal_strlit("\u{00fa}");
    }
    let a = replaced(s, "\u{00e1}", "a");
    let e = replaced(a.as_str(), "\u{00e9}", "e");
    let i = replaced(e.as_str(), "\u{00ed}", "i");
    let o = replaced(i.as_str(), "\u{00f3}", "o");
    replaced(o.as_str(), "\u{00fa}", "u")
}

/// The alphanumeric characters and the white space of a text.
pub open spec fn compact(s: Seq<char>) -> Seq<char> {
    s.filter(|c: char| alphanumeric_char(c) || is_whitespace(c))
}

/// The alphanumeric characters and the white space of a text.
pub fn compacted(s: &str) -> (r: String)
    ensures
        r@ == compact(s@),
{
    let c = chars(s);
    let mut r = String::new();
    let mut i: usize = 0;
    let ghost keep = |c: char| alphanumeric_char(c) || is_whitespace(c);
    while i < c.len()
        invariant
            c@ == s@,
            i <= c.len(),
            keep == (|c: char| alphanumeric_char(c) || is_whitespace(c)),
            r@ == s@.take(i as int).filter(keep),
        decreases c.len() - i,
    {
        proof {
            assert(s@.take(i + 1).drop_last() =~= s@.take(i as int));
            reveal_with_fuel(Seq::filter, 2);
        }
        if c[i].is_alphanumeric() || CharClass::White.holds(c[i]) {
            r.push(c[i]);
        }
        i += 1;
    }
    assert(s@.take(i as int) =~= s@);
    r
}

/// The question, in lower case, is about the assistant itself.
pub open spec fn is_meta(normalized: Seq<char>) -> bool {
    let searchable = plain_vowels(normalized);
    let w = words(compact(normalized), CharClass::White);
    ||| normalized == "hola"@
    ||| normalized == "hola!"@
    ||| normalized == "gracias"@
    ||| normalized == "gracias!"@
    ||| normalized == "ayuda"@
    ||| contains_any(
        searchable,
        seq![
            "que sabes hacer"@,
            "que puedes hacer"@,
            "como funcionas"@,
            "como funciona kuznor"@,
            "como funciona este modo"@,
            "que puedo preguntarte"@,
            "que puedo hacer aqui"@,
            "como uso documentos"@,
            "como funciona documentos"@,
            "como uso este modo"@,
        ],
    )
    ||| contains_any(
        normalized,
        seq![
            "qué sabes hacer"@,
            "qué puedes hacer"@,
            "cómo funcionas"@,
            "cómo funciona kuznor"@,
        ],
    )
    ||| 0 < w.len() <= 3 && w[0] == "hola"@
}

/// Whether the question, in lower case, is about the assistant itself.
pub fn asks_about_assistant(normalized: &str) -> (r: bool)
    ensures
        r == is_meta(normalized@),
{
    let searchable = with_plain_vowels(normalized);
    let plain = [
        "que sabes hacer",
        "que puedes hacer",
        "como funcionas",
        "como funciona kuznor",
        "como funciona este modo",
        "que puedo preguntarte",
        "que puedo hacer aqui",
        "como uso documentos",
        "como funciona documentos",
        "como uso este modo",
    ];
    assert(str_views(plain@) =~= seq![
        "que sabes hacer"@,
        "que puedes hacer"@,
        "como funcionas"@,
        "como funciona kuznor"@,
        "como funciona este modo"@,
        "que puedo preguntarte"@,
        "que puedo hacer aqui"@,
        "como uso documentos"@,
        "como funciona documentos"@,
        "como uso este modo"@,
    ]);
    let accented = [
        "qué sabes hacer",
        "qué puedes hacer",
        "cómo funcionas",
        "cómo funciona kuznor",
    ];
    assert(str_views(accented@) =~= seq![
        "qué sabes hacer"@,
        "qué puedes hacer"@,
        "cómo funcionas"@,
        "cómo funciona kuznor"@,
    ]);
    let text = compacted(normalized);
    let w = pieces_of_words(text.as_str(), CharClass::White);
    assert(views(w@).len() == w@.len());
    let greets = if 0 < w.len() && w.len() <= 3 {
        assert(views(w@)[0] == w@[0]@);
        same(w[0].as_str(), "hola")
    } else {
        false
    };
    same(normalized, "hola") || same(normalized, "hola!") || same(normalized, "gracias") || same(
        normalized,
        "gracias!",
    ) || same(normalized, "ayuda") || has_any(searchable.as_str(), &plain) || has_any(
        normalized,
        &accented,
    ) || greets
}

/// The question, with plain vowels, is about the library as a whole.
pub open spec fn is_library_overview(searchable: Seq<char>) -> bool {
    ||| contains(searchable, "compara"@) && contains_any(
        searchable,
        seq![
            "todos los archivos"@,
            "todos los documentos"@,
            "los 3 archivos"@,
            "los tres archivos"@,
            "los archivos de esta biblioteca"@,
            "los documentos de esta biblioteca"@,
        ],
    )
    ||| contains_any(
        searchable,
        seq!["esta biblioteca"@, "la biblioteca"@, "documentos de aqui"@, "archivos de aqui"@],
    ) && contains_any(
        searchable,
        seq![
            "resume"@,
            "resumen"@,
            "temas principales"@,
            "analiza los documentos"@,
            "analiza los archivos"@,
        ],
    )
    ||| contains_any(
        searchable,
        seq![
            "analiza los archivos que tienes"@,
            "analiza los documentos que tienes"@,
            "archivos disponibles"@,
            "documentos disponibles"@,
            "todos los archivos"@,
            "todos los documentos"@,
            "resume la biblioteca"@,
            "resumen de la biblioteca"@,
            "que archivos tienes"@,
            "qué archivos tienes"@,
        ],
    )
}

/// Whether the question, with plain vowels, is about the library as a whole.
pub fn asks_about_library(searchable: &str) -> (r: bool)
    ensures
        r == is_library_overview(searchable@),
{
    let all = [
        "todos los archivos",
        "todos los documentos",
        "los 3 archivos",
        "los tres archivos",
        "los archivos de esta biblioteca",
        "los documentos de esta biblioteca",
    ];
    assert(str_views(all@) =~= seq![
        "todos los archivos"@,
        "todos los documentos"@,
        "los 3 archivos"@,
        "los tres archivos"@,
        "los archivos de esta biblioteca"@,
        "los documentos de esta biblioteca"@,
    ]);
    let places = ["esta biblioteca", "la biblioteca", "documentos de aqui", "archivos de aqui"];
    assert(str_views(places@) =~= seq![
        "esta biblioteca"@,
        "la biblioteca"@,
        "documentos de aqui"@,
        "archivos de aqui"@,
    ]);
    let wishes = [
        "resume",
        "resumen",
        "temas principales",
        "analiza los documentos",
        "analiza los archivos",
    ];
    assert(str_views(wishes@) =~= seq![
        "resume"@,
        "resumen"@,
        "temas principales"@,
        "analiza los documentos"@,
        "analiza los archivos"@,
    ]);
    let phrases = [
        "analiza los archivos que tienes",
        "analiza los documentos que tienes",
        "archivos disponibles",
        "documentos disponibles",
        "todos los archivos",
        "todos los documentos",
        "resume la biblioteca",
        "resumen de la biblioteca",
        "que archivos tienes",
        "qué archivos tienes",
    ];
    assert(str_views(phrases@) =~= seq![
        "analiza los archivos que tienes"@,
        "analiza los documentos que tienes"@,
        "archivos disponibles"@,
        "documentos disponibles"@,
        "todos los archivos"@,
        "todos los documentos"@,
        "resume la biblioteca"@,
        "resumen de la biblioteca"@,
        "que archivos tienes"@,
        "qué archivos tienes"@,
    ]);
    (has(searchable, "compara") && has_any(searchable, &all)) || (has_any(searchable, &places)
        && has_any(searchable, &wishes)) || has_any(searchable, &phrases)
}

/// What a question in lower case is about.
pub open spec fn intent_of(normalized: Seq<char>) -> DocumentIntent {
    if is_meta(normalized) {
        DocumentIntent::Meta
    } else if is_library_overview(plain_vowels(normalized)) {
        DocumentIntent::LibraryOverview
    } else {
        DocumentIntent::DocumentQuery
    }
}

/// What a question in lower case is about.
pub fn classify_question(normalized: &str) -> (r: DocumentIntent)
    ensures
        r == intent_of(normalized@),
{
    let searchable = with_plain_vowels(normalized);
    if asks_about_assistant(normalized) {
        DocumentIntent::Meta
    } else if asks_about_library(searchable.as_str()) {
        DocumentIntent::LibraryOverview
    } else {
        DocumentIntent::DocumentQuery
    }
}

/// What a question is about.
pub fn document_intent(question: &str) -> (r: DocumentIntent)
    ensures
        r == intent_of(lowercase(trim(question@))),
{
    let t = trimmed(question);
    let normalized = t.as_str().to_lowercase();
    classify_question(normalized.as_str())
}

pub const META_PROMPT: &'static str =
    "Estas usando el modo Documentos de Kuznor, un asistente local y privado. Documentos significa este modo de Kuznor, no otro producto. Explica exclusivamente sus capacidades reales: consultar, resumir, comparar y analizar documentos locales compatibles, y mostrar las fuentes utilizadas. No menciones ni describas servicios cloud, suites ofimaticas o productos externos. No afirmes que puedes editar archivos.";

/// The instruction for questions about the assistant itself.
pub fn document_meta_prompt() -> (r: String)
    ensures
        r@ == META_PROMPT@,
{
    META_PROMPT.to_owned()
}

// --------------------------------------------------- history without evidence

pub const HISTORY_MARK: &'static str = "[HISTORIAL CONVERSACIONAL; NO ES EVIDENCIA DOCUMENTAL]\n";

pub const OMITTED_QUESTION: &'static str =
    "[Consulta documental anterior omitida del contexto actual.]";

pub const OMITTED_ANSWER: &'static str =
    "[Respuesta documental anterior omitida: no constituye evidencia para este turno.]";

/// The exchange may be shown: a question about the assistant itself, answered
/// without sources.
pub open spec fn is_harmless(question: MessageView, answer: MessageView) -> bool {
    intent_of(lowercase(trim(question.content))) == DocumentIntent::Meta && answer.sources.len()
        == 0
}

/// An earlier question as the model is shown it.
pub open spec fn shown_question(question: MessageView, answer: MessageView) -> MessageView {
    MessageView {
        content: if is_harmless(question, answer) {
            HISTORY_MARK@ + question.content
        } else {
            OMITTED_QUESTION@
        },
        ..question
    }
}

/// An earlier answer as the model is shown it.
pub open spec fn shown_answer(question: MessageView, answer: MessageView) -> MessageView {
    if is_harmless(question, answer) {
        MessageView { content: HISTORY_MARK@ + answer.content, ..answer }
    } else {
        MessageView { content: OMITTED_ANSWER@, sources: seq![], ..answer }
    }
}

/// The last question of the user that no answer has followed.
pub open spec fn open_question(history: Seq<MessageView>) -> Option<MessageView>
    decreases history.len(),
{
    if history.len() == 0 {
        None
    } else if history.last().role == "user"@ {
        Some(history.last())
    } else if history.last().role == "assistant"@ {
        None
    } else {
        open_question(history.drop_last())
    }
}

/// The answered questions of a history with their answers, without evidence.
pub open spec fn history_without_evidence(history: Seq<MessageView>) -> Seq<MessageView>
    decreases history.len(),
{
    if history.len() == 0 {
        seq![]
    } else {
        let before = history_without_evidence(history.drop_last());
        let last = history.last();
        match open_question(history.drop_last()) {
            Some(question) if last.role == "assistant"@ => before.push(
                shown_question(question, last),
            ).push(shown_answer(question, last)),
            _ => before,
        }
    }
}

/// No earlier answer reaches the model as evidence: every message of the history is
/// marked as conversation or left out, and none has sources but a question that the
/// user asked with some.
pub proof fn law_document_history_holds_no_evidence(history: Seq<MessageView>)
    ensures
        forall|i: int|
            0 <= i < history_without_evidence(history).len() ==> is_no_evidence(
                #[trigger] history_without_evidence(history)[i],
            ),
    decreases history.len(),
{
    if history.len() > 0 {
        law_document_history_holds_no_evidence(history.drop_last());
        let before = history_without_evidence(history.drop_last());
        let r = history_without_evidence(history);
        assert forall|i: int| 0 <= i < r.len() implies is_no_evidence(#[trigger] r[i]) by {
            if i < before.len() {
                assert(r[i] == before[i]);
            } else if let Some(question) = open_question(history.drop_last()) {
                lemma_open_question(history.drop_last());
                reveal_strlit("user");
                reveal_strlit("assistant");
                assert("user"@.len() != "assistant"@.len());
                assert(HISTORY_MARK@.is_prefix_of(HISTORY_MARK@ + question.content));
                assert(HISTORY_MARK@.is_prefix_of(HISTORY_MARK@ + history.last().content));
            }
        }
    }
}

/// The message is marked as conversation or left out, and has no sources if it is an
/// answer.
pub open spec fn is_no_evidence(m: MessageView) -> bool {
    &&& HISTORY_MARK@.is_prefix_of(m.content) || m.content == OMITTED_QUESTION@ || m.content
        == OMITTED_ANSWER@
    &&& m.role == "assistant"@ ==> m.sources.len() == 0
}

proof fn lemma_open_question(history: Seq<MessageView>)
    ensures
        open_question(history) matches Some(question) ==> question.role == "user"@,
    decreases history.len(),
{
    if history.len() > 0 {
        lemma_open_question(history.drop_last());
    }
}

/// The history that goes with a new question about documents: earlier exchanges
/// are marked as no evidence, and what drew on documents is left out.
pub fn document_history_without_evidence(history: &[Message]) -> (r: Vec<Message>)
    ensures
        message_views(r@) == history_without_evidence(message_views(history@)),
{
    let ghost all = message_views(history@);
    let mut r: Vec<Message> = Vec::new();
    let mut pending: Option<Message> = None;
    let mut i: usize = 0;
    proof {
        reveal_strlit("user");
        reveal_strlit("assistant");
        assert("user"@.len() != "assistant"@.len());
    }
    assert(message_views(r@) =~= history_without_evidence(all.take(0)));
    while i < history.len()
        invariant
            i <= history.len(),
            all == message_views(history@),
            "user"@ != "assistant"@,
            message_views(r@) == history_without_evidence(all.take(i as int)),
            match pending {
                Some(m) => open_question(all.take(i as int)) == Some(m@),
                None => open_question(all.take(i as int)) is None,
            },
        decreases history.len() - i,
    {
        proof {
            assert(all.take(i + 1).drop_last() =~= all.take(i as int));
            assert(all.take(i + 1).last() == history@[i as int]@);
        }
        let role = history[i].role.as_str();
        if same(role, "user") {
            pending = Some(history[i].clone());
        } else if same(role, "assistant") {
            match pending {
                Some(mut user) => {
                    let ghost question = user@;
                    let ghost before = message_views(r@);
                    let mut assistant = history[i].clone();
                    assert(assistant@.sources.len() == assistant.sources@.len());
                    let harmless = document_intent(user.content.as_str()) == DocumentIntent::Meta
                        && assistant.sources.len() == 0;
                    if harmless {
                        let mut asked = HISTORY_MARK.to_owned();
                        asked.append(user.content.as_str());
                        user.content = asked;
                        let mut answered = HISTORY_MARK.to_owned();
                        answered.append(assistant.content.as_str());
                        assistant.content = answered;
                    } else {
                        user.content = OMITTED_QUESTION.to_owned();
                        assistant.content = OMITTED_ANSWER.to_owned();
                        assistant.sources = Vec::new();
                    }
                    proof {
                        assert(user@.sources =~= question.sources);
                        assert(assistant@.sources =~= shown_answer(
                            question,
                            history@[i as int]@,
                        ).sources);
                        assert(user@ == shown_question(question, history@[i as int]@));
                        assert(assistant@ == shown_answer(question, history@[i as int]@));
                    }
                    r.push(user);
                    r.push(assistant);
                    assert(message_views(r@) =~= before.push(user@).push(assistant@));
                },
                None => {},
            }
            pending = None;
        }
        i += 1;
    }
    assert(all.take(i as int) =~= all);
    r
}

/// What was asked last before a place, with nothing said in between that counts.
pub open spec fn answers(history: Seq<MessageView>, i: int, j: int) -> bool {
    &&& 0 <= i < j < history.len()
    &&& history[i].role == "user"@
    &&& history[j].role == "assistant"@
    &&& forall|k: int|
        i < k < j ==> (#[trigger] history[k]).role != "user"@ && history[k].role != "assistant"@
}

/// The open question is the last one of the user that nothing has followed.
pub proof fn lemma_open_question_is(history: Seq<MessageView>, i: int)
    requires
        0 <= i < history.len(),
        history[i].role == "user"@,
        forall|k: int|
            i < k < history.len() ==> (#[trigger] history[k]).role != "user"@ && history[k].role
                != "assistant"@,
    ensures
        open_question(history) == Some(history[i]),
    decreases history.len(),
{
    if i < history.len() - 1 {
        let p = history.drop_last();
        assert(history[history.len() - 1].role != "user"@);
        assert forall|k: int| i < k < p.len() implies (#[trigger] p[k]).role != "user"@ && p[k].role
            != "assistant"@ by {
            assert(p[k] == history[k]);
        }
        lemma_open_question_is(p, i);
    }
}

/// An exchange stands in a history at a place: as it was said where it is about the
/// assistant and has no sources, as a note otherwise.
pub open spec fn keeps_exchange(
    r: Seq<MessageView>,
    n: int,
    question: MessageView,
    answer: MessageView,
) -> bool {
    let plain = intent_of(lowercase(trim(question.content))) == DocumentIntent::Meta
        && answer.sources.len() == 0;
    &&& 0 <= n < r.len() - 1
    &&& r[n].role == "user"@
    &&& r[n + 1].role == "assistant"@
    &&& r[n].content == if plain {
        HISTORY_MARK@ + question.content
    } else {
        OMITTED_QUESTION@
    }
    &&& r[n + 1].content == if plain {
        HISTORY_MARK@ + answer.content
    } else {
        OMITTED_ANSWER@
    }
}

/// Every answered question goes into the history with its answer, next to each other: as it
/// was said where it is about the assistant and has no sources, as a note otherwise.
pub proof fn law_history_keeps_exchanges(history: Seq<MessageView>, i: int, j: int)
    requires
        answers(history, i, j),
    ensures
        exists|n: int|
            #[trigger] keeps_exchange(
                history_without_evidence(history),
                n,
                history[i],
                history[j],
            ),
    decreases history.len(),
{
    let r = history_without_evidence(history);
    let p = history.drop_last();
    let before = history_without_evidence(p);
    if j < history.len() - 1 {
        assert forall|k: int| i < k < j implies (#[trigger] p[k]).role != "user"@ && p[k].role
            != "assistant"@ by {
            assert(p[k] == history[k]);
        }
        assert(p[i] == history[i] && p[j] == history[j]);
        law_history_keeps_exchanges(p, i, j);
        let n = choose|n: int| #[trigger] keeps_exchange(before, n, history[i], history[j]);
        assert(r[n] == before[n] && r[n + 1] == before[n + 1]);
        assert(keeps_exchange(r, n, history[i], history[j]));
    } else {
        assert forall|k: int| i < k < p.len() implies (#[trigger] p[k]).role != "user"@ && p[k].role
            != "assistant"@ by {
            assert(p[k] == history[k]);
        }
        assert(p[i] == history[i]);
        lemma_open_question_is(p, i);
        let n = before.len() as int;
        assert(r[n] == shown_question(history[i], history[j]));
        assert(r[n + 1] == shown_answer(history[i], history[j]));
        assert(keeps_exchange(r, n, history[i], history[j]));
    }
}

// --------------------------------------------------------- passages as evidence

/// Where in its document a chunk stands.
pub open spec fn location(c: ChunkView) -> Seq<char> {
    match c.page_number {
        Some(page) => "pagina "@ + decimal(page as nat),
        None => "fragmento "@ + decimal(c.chunk_index as nat + 1),
    }
}

fn location_of(item: &ScoredChunk) -> (r: String)
    ensures
        r@ == location(item@.chunk),
{
    match item.chunk.page_number {
        Some(page) => {
            let mut r = "pagina ".to_owned();
            r.append(decimal_string(page as u128).as_str());
            r
        },
        None => {
            let mut r = "fragmento ".to_owned();
            r.append(decimal_string(item.chunk.chunk_index as u128 + 1).as_str());
            r
        },
    }
}

/// The passage as the evidence of the document under whose heading it stands.
pub open spec fn fragment(index: nat, item: ScoredChunkView) -> Seq<char> {
    "Fragmento "@ + decimal(index + 1) + " - "@ + location(item.chunk) + " | relevancia "@
        + item.score.three + ":\n"@ + item.chunk.content + "\n"@
}

fn fragment_text(index: usize, item: &ScoredChunk) -> (r: String)
    ensures
        r@ == fragment(index as nat, item@),
{
    let mut r = "Fragmento ".to_owned();
    r.append(decimal_string(index as u128 + 1).as_str());
    r.append(" - ");
    r.append(location_of(item).as_str());
    r.append(" | relevancia ");
    r.append(item.score.three.as_str());
    r.append(":\n");
    r.append(item.chunk.content.as_str());
    r.append("\n");
    r
}

/// The passage as a source of its own.
pub open spec fn numbered_source(index: nat, item: ScoredChunkView) -> Seq<char> {
    "\n[Fuente "@ + decimal(index + 1) + ": "@ + item.chunk.document_name + " - "@ + location(
        item.chunk,
    ) + " | relevancia "@ + item.score.three + "]\n"@ + item.chunk.content + "\n"@
}

fn numbered_source_text(index: usize, item: &ScoredChunk) -> (r: String)
    ensures
        r@ == numbered_source(index as nat, item@),
{
    let mut r = "\n[Fuente ".to_owned();
    r.append(decimal_string(index as u128 + 1).as_str());
    r.append(": ");
    r.append(item.chunk.document_name.as_str());
    r.append(" - ");
    r.append(location_of(item).as_str());
    r.append(" | relevancia ");
    r.append(item.score.three.as_str());
    r.append("]\n");
    r.append(item.chunk.content.as_str());
    r.append("\n");
    r
}

/// The number of characters of a passage that its source shows.
pub const SOURCE_PREVIEW: usize = 280;

/// The source of a passage.
pub open spec fn source_of(item: ScoredChunkView) -> SourceView {
    SourceView {
        library_id: 0,
        project_id: 0,
        file_id: 0,
        document_id: item.chunk.document_id,
        chunk_id: item.chunk.id,
        score: item.score,
        document_name: item.chunk.document_name,
        chunk_index: item.chunk.chunk_index,
        page_number: item.chunk.page_number,
        preview: prefix(item.chunk.content, SOURCE_PREVIEW as nat),
        relative_path: seq![],
        line_start: None,
        line_end: None,
    }
}

/// The sources of passages, in their order.
pub open spec fn sources_of(items: Seq<ScoredChunkView>) -> Seq<SourceView> {
    items.map_values(|i: ScoredChunkView| source_of(i))
}

/// The source of a passage.
pub fn source_from_chunk(item: &ScoredChunk) -> (r: Source)
    ensures
        r@ == source_of(item@),
{
    Source {
        library_id: 0,
        project_id: 0,
        file_id: 0,
        document_id: item.chunk.document_id,
        chunk_id: item.chunk.id,
        score: item.score.clone(),
        document_name: item.chunk.document_name.clone(),
        chunk_index: item.chunk.chunk_index,
        page_number: item.chunk.page_number,
        preview: take_chars(item.chunk.content.as_str(), SOURCE_PREVIEW),
        relative_path: String::new(),
        line_start: None,
        line_end: None,
    }
}

/// The sources of passages, in their order.
pub fn sources_from_chunks(items: &Vec<ScoredChunk>) -> (r: Vec<Source>)
    ensures
        source_views(r@) == sources_of(scored_views(items@)),
{
    let ghost want = sources_of(scored_views(items@));
    let mut r: Vec<Source> = Vec::new();
    let mut i: usize = 0;
    while i < items.len()
        invariant
            i <= items.len(),
            want == sources_of(scored_views(items@)),
            source_views(r@) == want.take(i as int),
        decreases items.len() - i,
    {
        let ghost before = source_views(r@);
        let s = source_from_chunk(&items[i]);
        r.push(s);
        assert(source_views(r@) =~= before.push(s@));
        assert(source_views(r@) =~= want.take(i + 1));
        i += 1;
    }
    assert(want.take(i as int) =~= want);
    r
}

/// Passages of one document, each as a fragment.
pub open spec fn fragments(items: Seq<ScoredChunkView>) -> Seq<char>
    decreases items.len(),
{
    if items.len() == 0 {
        seq![]
    } else {
        fragments(items.drop_last()) + fragment((items.len() - 1) as nat, items.last())
    }
}

fn fragments_text(items: &Vec<ScoredChunk>) -> (r: String)
    ensures
        r@ == fragments(scored_views(items@)),
{
    let ghost all = scored_views(items@);
    let mut r = String::new();
    let mut i: usize = 0;
    while i < items.len()
        invariant
            i <= items.len(),
            all == scored_views(items@),
            r@ == fragments(all.take(i as int)),
        decreases items.len() - i,
    {
        assert(all.take(i + 1).drop_last() =~= all.take(i as int));
        r.append(fragment_text(i, &items[i]).as_str());
        i += 1;
    }
    assert(all.take(i as int) =~= all);
    r
}

/// Passages of any documents, each as a source of its own.
pub open spec fn numbered_sources(items: Seq<ScoredChunkView>) -> Seq<char>
    decreases items.len(),
{
    if items.len() == 0 {
        seq![]
    } else {
        numbered_sources(items.drop_last()) + numbered_source(
            (items.len() - 1) as nat,
            items.last(),
        )
    }
}

fn numbered_sources_text(items: &Vec<ScoredChunk>) -> (r: String)
    ensures
        r@ == numbered_sources(scored_views(items@)),
{
    let ghost all = scored_views(items@);
    let mut r = String::new();
    let mut i: usize = 0;
    while i < items.len()
        invariant
            i <= items.len(),
            all == scored_views(items@),
            r@ == numbered_sources(all.take(i as int)),
        decreases items.len() - i,
    {
        assert(all.take(i + 1).drop_last() =~= all.take(i as int));
        r.append(numbered_source_text(i, &items[i]).as_str());
        i += 1;
    }
    assert(all.take(i as int) =~= all);
    r
}

/// The letter of the document at a position.
pub open spec fn label(position: nat) -> Seq<char> {
    if position == 0 {
        "A"@
    } else if position == 1 {
        "B"@
    } else if position == 2 {
        "C"@
    } else if position == 3 {
        "D"@
    } else {
        "ADICIONAL"@
    }
}

/// The letter of the document at a position.
pub fn document_label(position: usize) -> (r: &'static str)
    ensures
        r@ == label(position as nat),
{
    match position {
        0 => "A",
        1 => "B",
        2 => "C",
        3 => "D",
        _ => "ADICIONAL",
    }
}

pub const NO_FRAGMENTS: &'static str =
    "Sin evidencia suficiente recuperada para este criterio.\n";

/// A document under its heading, with its passages.
pub open spec fn group(
    position: nat,
    document: (i64, Seq<char>),
    items: Seq<ScoredChunkView>,
) -> Seq<char> {
    let own = items_of(items, document.0);
    "\nDOCUMENTO "@ + label(position) + ": "@ + document.1 + "\n"@ + if own.len() == 0 {
        NO_FRAGMENTS@
    } else {
        fragments(own)
    }
}

/// Documents under their headings, each with its passages.
pub open spec fn groups(documents: Seq<(i64, Seq<char>)>, items: Seq<ScoredChunkView>) -> Seq<char>
    decreases documents.len(),
{
    if documents.len() == 0 {
        seq![]
    } else {
        groups(documents.drop_last(), items) + group(
            (documents.len() - 1) as nat,
            documents.last(),
            items,
        )
    }
}

/// The sources of the grouped passages, document by document.
pub open spec fn grouped_sources(
    documents: Seq<(i64, Seq<char>)>,
    items: Seq<ScoredChunkView>,
) -> Seq<SourceView>
    decreases documents.len(),
{
    if documents.len() == 0 {
        seq![]
    } else {
        grouped_sources(documents.drop_last(), items) + sources_of(
            items_of(items, documents.last().0),
        )
    }
}

/// The names of the documents, one on each line.
pub open spec fn name_list(documents: Seq<(i64, Seq<char>)>) -> Seq<char>
    decreases documents.len(),
{
    if documents.len() == 0 {
        seq![]
    } else {
        name_list(documents.drop_last()) + ("- "@ + documents.last().1 + "\n"@)
    }
}

pub const PURPOSE_COMPARE: &'static str = "Compara únicamente los documentos identificados.";

pub const PURPOSE_ANALYZE: &'static str = "Analiza los documentos reales de la biblioteca.";

pub const GROUPING_RULE: &'static str =
    " No trates cada fragmento como una fuente o documento independiente. Agrupa los fragmentos según el encabezado DOCUMENTO al que pertenecen. Usa únicamente estos nombres reales de archivo:\n";

pub const COUNT_BEFORE: &'static str = "Hay exactamente ";

pub const COUNT_AFTER: &'static str =
    " documentos reales. Conserva exactamente una entidad por cada encabezado DOCUMENTO. Nunca presentes una pagina o fragmento como documento separado.\n";

pub const GROUPED_HEADING: &'static str = "\nEVIDENCIA DOCUMENTAL AGRUPADA:\n";

/// What stands before the grouped evidence.
pub open spec fn grouped_head(
    instruction: Seq<char>,
    documents: Seq<(i64, Seq<char>)>,
    comparison: bool,
) -> Seq<char> {
    instruction + "\n\n"@ + if comparison {
        PURPOSE_COMPARE@
    } else {
        PURPOSE_ANALYZE@
    } + GROUPING_RULE@ + COUNT_BEFORE@ + decimal(documents.len()) + COUNT_AFTER@ + name_list(
        documents,
    ) + GROUPED_HEADING@
}

/// The instruction with the evidence grouped by document.
pub open spec fn grouped_prompt(
    instruction: Seq<char>,
    items: Seq<ScoredChunkView>,
    documents: Seq<(i64, Seq<char>)>,
    comparison: bool,
) -> Seq<char> {
    grouped_head(instruction, documents, comparison) + groups(documents, items)
}

fn name_list_text(documents: &Vec<(i64, String)>) -> (r: String)
    ensures
        r@ == name_list(document_views(documents@)),
{
    let ghost all = document_views(documents@);
    let mut r = String::new();
    let mut i: usize = 0;
    while i < documents.len()
        invariant
            i <= documents.len(),
            all == document_views(documents@),
            r@ == name_list(all.take(i as int)),
        decreases documents.len() - i,
    {
        assert(all.take(i + 1).drop_last() =~= all.take(i as int));
        let mut line = "- ".to_owned();
        line.append(documents[i].1.as_str());
        line.append("\n");
        r.append(line.as_str());
        i += 1;
    }
    assert(all.take(i as int) =~= all);
    r
}

/// The instruction with the evidence grouped by document, and its sources.
pub fn grouped_document_prompt(
    instruction: &str,
    chunks: &Vec<ScoredChunk>,
    documents: &Vec<(i64, String)>,
    comparison: bool,
) -> (r: (String, Vec<Source>))
    ensures
        r.0@ == grouped_prompt(
            instruction@,
            scored_views(chunks@),
            document_views(documents@),
            comparison,
        ),
        source_views(r.1@) == grouped_sources(document_views(documents@), scored_views(chunks@)),
{
    let ghost all = document_views(documents@);
    let ghost items = scored_views(chunks@);
    let mut prompt = instruction.to_owned();
    prompt.append("\n\n");
    if comparison {
        prompt.append(PURPOSE_COMPARE);
    } else {
        prompt.append(PURPOSE_ANALYZE);
    }
    prompt.append(GROUPING_RULE);
    prompt.append(COUNT_BEFORE);
    prompt.append(decimal_string(documents.len() as u128).as_str());
    prompt.append(COUNT_AFTER);
    prompt.append(name_list_text(documents).as_str());
    prompt.append(GROUPED_HEADING);
    let ghost head = grouped_head(instruction@, all, comparison);
    assert(all.len() == documents@.len());
    assert(prompt@ == head);
    let mut sources: Vec<Source> = Vec::new();
    let mut i: usize = 0;
    assert(head + groups(all.take(0), items) =~= head);
    assert(source_views(sources@) =~= seq![]);
    while i < documents.len()
        invariant
            i <= documents.len(),
            all == document_views(documents@),
            items == scored_views(chunks@),
            prompt@ == head + groups(all.take(i as int), items),
            source_views(sources@) == grouped_sources(all.take(i as int), items),
        decreases documents.len() - i,
    {
        assert(all.take(i + 1).drop_last() =~= all.take(i as int));
        let own = keep_document(chunks, documents[i].0);
        assert(scored_views(own@).len() == own@.len());
        let mut part = "\nDOCUMENTO ".to_owned();
        part.append(document_label(i));
        part.append(": ");
        part.append(documents[i].1.as_str());
        part.append("\n");
        if own.len() == 0 {
            part.append(NO_FRAGMENTS);
        } else {
            part.append(fragments_text(&own).as_str());
        }
        assert(part@ == group(i as nat, all[i as int], items));
        let ghost before = prompt@;
        prompt.append(part.as_str());
        assert(prompt@ =~= head + (groups(all.take(i as int), items) + part@));
        let mut more = sources_from_chunks(&own);
        let ghost had = source_views(sources@);
        let ghost added = source_views(more@);
        sources.append(&mut more);
        assert(source_views(sources@) =~= had + added);
        i += 1;
    }
    assert(all.take(i as int) =~= all);
    (prompt, sources)
}

pub const LIBRARY_INSTRUCTION: &'static str =
    "Analiza la biblioteca usando exclusivamente la lista y evidencia proporcionadas. La lista de archivos proviene de SQLite y es la única lista válida: no inventes, renombres ni omitas archivos. Mantén el idioma de la pregunta del usuario. Distingue hechos explícitos, inferencias y encabezados o metadatos. No establezcas relaciones entre documentos independientes sin evidencia. Si un archivo no tiene contexto suficiente, indícalo. Una pagina o fragmento nunca es un documento separado. Produce una sola entidad o fila por encabezado DOCUMENTO.";

/// The instruction and the evidence for a question about the whole library.
pub fn rag_library_overview_prompt(
    chunks: &Vec<ScoredChunk>,
    documents: &Vec<(i64, String)>,
) -> (r: (String, Vec<Source>))
    ensures
        r.0@ == grouped_prompt(
            LIBRARY_INSTRUCTION@,
            scored_views(chunks@),
            document_views(documents@),
            false,
        ),
        source_views(r.1@) == grouped_sources(document_views(documents@), scored_views(chunks@)),
{
    grouped_document_prompt(LIBRARY_INSTRUCTION, chunks, documents, false)
}

pub const DOCUMENT_INSTRUCTION: &'static str =
    "Responde usando unicamente la evidencia documental proporcionada. Puedes resumir, combinar y sacar conclusiones evidentes de varios fragmentos. No es necesario que la respuesta aparezca literalmente en una sola oracion. Si los fragmentos permiten responder razonablemente, responde. Solo di que no hay informacion cuando realmente no haya evidencia suficiente. Distingue hechos explicitos del documento, inferencias y encabezados, metadatos o notas. No conviertas plazos, periodos, condiciones o atributos en otros hechos que el documento no respalde. Presenta toda inferencia como inferencia. No inventes nombres, cifras, fechas ni hechos. Mantén el idioma de la pregunta del usuario.";

pub const EVIDENCE_RULES: &'static str =
    " Solo uses comillas para texto presente literalmente en los fragmentos; nunca fabriques citas. No generes URLs ni enlaces de fuentes; Kuznor mostrara las fuentes reales por separado. Cuando el documento contenga una respuesta u opcion explicita, conserva su significado y priorizala sobre conocimiento previo o inferencias. En preguntas de si o no, la explicacion debe ser consistente con la respuesta inicial. No transformes una condicion documentada en otra distinta ni presentes una inferencia como hecho. Cuando se pregunte por un concepto concreto, prioriza evidencia explicita y semanticamente directa; no fuerces a participar documentos relacionados solo de manera abstracta. Si la pregunta pide afirmar ausencia en toda la biblioteca pero la evidencia no cubre todos sus documentos, limita la conclusion a los fragmentos recuperados. Cuando se pidan temas, conceptos, ideas, areas o categorias, sintetiza nombres conceptuales en vez de copiar preguntas o fragmentos crudos. Corrige separaciones defectuosas al redactar sin inventar contenido.";

pub const EVIDENCE_HEADING: &'static str = "\n\nEVIDENCIA DOCUMENTAL:\n";

pub const NOTHING_RETRIEVED: &'static str = "[No se recuperaron fragmentos documentales.]\n";

/// The instruction for answers that draw on documents.
pub open spec fn evidence_instruction(profile: Profile) -> Seq<char> {
    if profile == Profile::Documentation {
        DOCUMENT_INSTRUCTION@ + EVIDENCE_RULES@
    } else {
        profile.spec_system_prompt() + EVIDENCE_RULES@
    }
}

/// The instruction with the evidence: grouped where several documents are to be
/// compared, one source after the other otherwise.
pub open spec fn evidence_prompt(
    profile: Profile,
    items: Seq<ScoredChunkView>,
    documents: Seq<(i64, Seq<char>)>,
) -> Seq<char> {
    let instruction = evidence_instruction(profile);
    if documents.len() > 1 {
        grouped_prompt(instruction, items, documents, true)
    } else if items.len() == 0 {
        instruction + EVIDENCE_HEADING@ + NOTHING_RETRIEVED@
    } else {
        instruction + EVIDENCE_HEADING@ + numbered_sources(items)
    }
}

/// The sources of the evidence in a prompt.
pub open spec fn evidence_sources(
    items: Seq<ScoredChunkView>,
    documents: Seq<(i64, Seq<char>)>,
) -> Seq<SourceView> {
    if documents.len() > 1 {
        grouped_sources(documents, items)
    } else {
        sources_of(items)
    }
}

/// The instruction with the evidence for a question, and its sources.
pub fn rag_system_prompt_with_documents(
    profile: Profile,
    chunks: &Vec<ScoredChunk>,
    documents: &Vec<(i64, String)>,
) -> (r: (String, Vec<Source>))
    ensures
        r.0@ == evidence_prompt(profile, scored_views(chunks@), document_views(documents@)),
        source_views(r.1@) == evidence_sources(scored_views(chunks@), document_views(documents@)),
{
    assert(document_views(documents@).len() == documents@.len());
    assert(scored_views(chunks@).len() == chunks@.len());
    let mut instruction = if profile == Profile::Documentation {
        DOCUMENT_INSTRUCTION.to_owned()
    } else {
        profile.system_prompt().to_owned()
    };
    instruction.append(EVIDENCE_RULES);
    if documents.len() > 1 {
        return grouped_document_prompt(instruction.as_str(), chunks, documents, true);
    }
    let mut prompt = instruction;
    prompt.append(EVIDENCE_HEADING);
    if chunks.len() == 0 {
        prompt.append(NOTHING_RETRIEVED);
    } else {
        prompt.append(numbered_sources_text(chunks).as_str());
    }
    (prompt, sources_from_chunks(chunks))
}

/// The instruction with the evidence for a question that names no documents.
pub fn rag_system_prompt(profile: Profile, chunks: &Vec<ScoredChunk>) -> (r: (String, Vec<Source>))
    ensures
        r.0@ == evidence_prompt(profile, scored_views(chunks@), seq![]),
        source_views(r.1@) == sources_of(scored_views(chunks@)),
{
    let none: Vec<(i64, String)> = Vec::new();
    assert(document_views(none@) =~= seq![]);
    rag_system_prompt_with_documents(profile, chunks, &none)
}

// ------------------------------------------------- the evidence is in the prompt

/// Where a passage stands, in words: its page or, where it has none, its number.
pub open spec fn place_in_words(c: ChunkView) -> Seq<char> {
    match c.page_number {
        Some(page) => "pagina "@ + decimal(page as nat),
        None => "fragmento "@ + decimal(c.chunk_index as nat + 1),
    }
}

/// What is told of a passage under the heading of its document: its number, its place and
/// its score.
pub open spec fn fragment_facts(index: nat, item: ScoredChunkView) -> Seq<Seq<char>> {
    seq![decimal(index + 1), place_in_words(item.chunk), item.score.three]
}

/// What is told of a passage that is a source of its own: its number, its document, its
/// place and its score.
pub open spec fn source_facts(index: nat, item: ScoredChunkView) -> Seq<Seq<char>> {
    seq![
        decimal(index + 1),
        item.chunk.document_name,
        place_in_words(item.chunk),
        item.score.three,
    ]
}

proof fn lemma_line_end(s: Seq<char>)
    ensures
        s + ":\n"@ == s + ":"@ + "\n"@,
        s + "]\n"@ == s + "]"@ + "\n"@,
{
    reveal_strlit(":");
    reveal_strlit(":\n");
    reveal_strlit("]");
    reveal_strlit("]\n");
    reveal_strlit("\n");
    assert(s + ":\n"@ =~= s + ":"@ + "\n"@);
    assert(s + "]\n"@ =~= s + "]"@ + "\n"@);
}

proof fn lemma_fragment(index: nat, item: ScoredChunkView)
    ensures
        quotes(fragment(index, item), fragment_facts(index, item), item.chunk.content),
{
    let c = item.chunk;
    let f0 = "Fragmento "@;
    let f1 = f0 + decimal(index + 1);
    let f2 = f1 + " - "@;
    let f3 = f2 + location(c);
    let f4 = f3 + " | relevancia "@;
    let f5 = f4 + item.score.three;
    let f6 = f5 + ":"@;
    let v0 = Seq::<Seq<char>>::empty();
    lemma_run_push(v0, "Fragmento "@);
    let v1 = v0.push("Fragmento "@);
    assert(run_together(v0) + "Fragmento "@ =~= f0);
    assert(run_together(v1) == f0);
    lemma_run_push(v1, decimal(index + 1));
    let v2 = v1.push(decimal(index + 1));
    assert(run_together(v2) == f1);
    lemma_run_push(v2, " - "@);
    let v3 = v2.push(" - "@);
    assert(run_together(v3) == f2);
    lemma_run_push(v3, location(c));
    let v4 = v3.push(location(c));
    assert(run_together(v4) == f3);
    lemma_run_push(v4, " | relevancia "@);
    let v5 = v4.push(" | relevancia "@);
    assert(run_together(v5) == f4);
    lemma_run_push(v5, item.score.three);
    let v6 = v5.push(item.score.three);
    assert(run_together(v6) == f5);
    lemma_run_push(v6, ":"@);
    let v7 = v6.push(":"@);
    assert(run_together(v7) == f6);
    lemma_line_end(f5);
    assert(fragment(index, item) == run_together(v7) + "\n"@ + c.content + "\n"@);
    let facts = fragment_facts(index, item);
    assert(v7[1] == facts[0] && v7[3] == facts[1] && v7[5] == facts[2]);
}

proof fn lemma_numbered_source(index: nat, item: ScoredChunkView)
    ensures
        quotes(numbered_source(index, item), source_facts(index, item), item.chunk.content),
{
    let c = item.chunk;
    let f0 = "\n[Fuente "@;
    let f1 = f0 + decimal(index + 1);
    let f2 = f1 + ": "@;
    let f3 = f2 + c.document_name;
    let f4 = f3 + " - "@;
    let f5 = f4 + location(c);
    let f6 = f5 + " | relevancia "@;
    let f7 = f6 + item.score.three;
    let f8 = f7 + "]"@;
    let v0 = Seq::<Seq<char>>::empty();
    lemma_run_push(v0, "\n[Fuente "@);
    let v1 = v0.push("\n[Fuente "@);
    assert(run_together(v0) + "\n[Fuente "@ =~= f0);
    assert(run_together(v1) == f0);
    lemma_run_push(v1, decimal(index + 1));
    let v2 = v1.push(decimal(index + 1));
    assert(run_together(v2) == f1);
    lemma_run_push(v2, ": "@);
    let v3 = v2.push(": "@);
    assert(run_together(v3) == f2);
    lemma_run_push(v3, c.document_name);
    let v4 = v3.push(c.document_name);
    assert(run_together(v4) == f3);
    lemma_run_push(v4, " - "@);
    let v5 = v4.push(" - "@);
    assert(run_together(v5) == f4);
    lemma_run_push(v5, location(c));
    let v6 = v5.push(location(c));
    assert(run_together(v6) == f5);
    lemma_run_push(v6, " | relevancia "@);
    let v7 = v6.push(" | relevancia "@);
    assert(run_together(v7) == f6);
    lemma_run_push(v7, item.score.three);
    let v8 = v7.push(item.score.three);
    assert(run_together(v8) == f7);
    lemma_run_push(v8, "]"@);
    let v9 = v8.push("]"@);
    assert(run_together(v9) == f8);
    lemma_line_end(f7);
    assert(numbered_source(index, item) == run_together(v9) + "\n"@ + c.content + "\n"@);
    let facts = source_facts(index, item);
    assert(v9[1] == facts[0] && v9[3] == facts[1] && v9[5] == facts[2] && v9[7] == facts[3]);
}

/// The text is a list of passages, all of them and nothing else, in their order: each with
/// its number, its place and its score, and its whole content.
pub open spec fn lists_fragments(text: Seq<char>, items: Seq<ScoredChunkView>) -> bool {
    exists|entries: Seq<Seq<char>>|
        {
            &&& text == #[trigger] run_together(entries)
            &&& entries.len() == items.len()
            &&& forall|k: int|
                0 <= k < items.len() ==> quotes(
                    #[trigger] entries[k],
                    fragment_facts(k as nat, items[k]),
                    items[k].chunk.content,
                )
        }
}

/// The text is a list of sources, all passages and nothing else, in their order: each with
/// its number, its document, its place and its score, and its whole content.
pub open spec fn lists_sources(text: Seq<char>, items: Seq<ScoredChunkView>) -> bool {
    exists|entries: Seq<Seq<char>>|
        {
            &&& text == #[trigger] run_together(entries)
            &&& entries.len() == items.len()
            &&& forall|k: int|
                0 <= k < items.len() ==> quotes(
                    #[trigger] entries[k],
                    source_facts(k as nat, items[k]),
                    items[k].chunk.content,
                )
        }
}

proof fn lemma_fragments_run(items: Seq<ScoredChunkView>)
    ensures
        fragments(items) == run_together(
            Seq::new(items.len(), |k: int| fragment(k as nat, items[k])),
        ),
    decreases items.len(),
{
    let entries = Seq::new(items.len(), |k: int| fragment(k as nat, items[k]));
    if items.len() > 0 {
        let p = items.drop_last();
        lemma_fragments_run(p);
        assert(entries.drop_last() =~= Seq::new(p.len(), |k: int| fragment(k as nat, p[k])));
    }
}

proof fn lemma_sources_run(items: Seq<ScoredChunkView>)
    ensures
        numbered_sources(items) == run_together(
            Seq::new(items.len(), |k: int| numbered_source(k as nat, items[k])),
        ),
    decreases items.len(),
{
    let entries = Seq::new(items.len(), |k: int| numbered_source(k as nat, items[k]));
    if items.len() > 0 {
        let p = items.drop_last();
        lemma_sources_run(p);
        assert(entries.drop_last() =~= Seq::new(
            p.len(),
            |k: int| numbered_source(k as nat, p[k]),
        ));
    }
}

proof fn lemma_fragments(items: Seq<ScoredChunkView>)
    ensures
        lists_fragments(fragments(items), items),
{
    let entries = Seq::new(items.len(), |k: int| fragment(k as nat, items[k]));
    lemma_fragments_run(items);
    assert forall|k: int| 0 <= k < items.len() implies quotes(
        #[trigger] entries[k],
        fragment_facts(k as nat, items[k]),
        items[k].chunk.content,
    ) by {
        lemma_fragment(k as nat, items[k]);
    }
    assert(fragments(items) == run_together(entries));
}

proof fn lemma_sources(items: Seq<ScoredChunkView>)
    ensures
        lists_sources(numbered_sources(items), items),
{
    let entries = Seq::new(items.len(), |k: int| numbered_source(k as nat, items[k]));
    lemma_sources_run(items);
    assert forall|k: int| 0 <= k < items.len() implies quotes(
        #[trigger] entries[k],
        source_facts(k as nat, items[k]),
        items[k].chunk.content,
    ) by {
        lemma_numbered_source(k as nat, items[k]);
    }
    assert(numbered_sources(items) == run_together(entries));
}

/// What stands in a list of fragments.
proof fn lemma_listed_fragment(text: Seq<char>, items: Seq<ScoredChunkView>, k: int)
    requires
        lists_fragments(text, items),
        0 <= k < items.len(),
    ensures
        contains(text, items[k].chunk.content),
{
    let entries = choose|entries: Seq<Seq<char>>|
        {
            &&& text == #[trigger] run_together(entries)
            &&& entries.len() == items.len()
            &&& forall|k: int|
                0 <= k < items.len() ==> quotes(
                    #[trigger] entries[k],
                    fragment_facts(k as nat, items[k]),
                    items[k].chunk.content,
                )
        };
    lemma_quoted(entries[k], fragment_facts(k as nat, items[k]), items[k].chunk.content);
    lemma_contains_run(entries, k, items[k].chunk.content);
}

/// What stands in a list of sources.
proof fn lemma_listed_source(text: Seq<char>, items: Seq<ScoredChunkView>, k: int)
    requires
        lists_sources(text, items),
        0 <= k < items.len(),
    ensures
        contains(text, items[k].chunk.content),
{
    let entries = choose|entries: Seq<Seq<char>>|
        {
            &&& text == #[trigger] run_together(entries)
            &&& entries.len() == items.len()
            &&& forall|k: int|
                0 <= k < items.len() ==> quotes(
                    #[trigger] entries[k],
                    source_facts(k as nat, items[k]),
                    items[k].chunk.content,
                )
        };
    lemma_quoted(entries[k], source_facts(k as nat, items[k]), items[k].chunk.content);
    lemma_contains_run(entries, k, items[k].chunk.content);
}

/// The part of a prompt is the heading of a document, which names it, and then its
/// passages, or the note that there are none.
pub open spec fn is_part_for(
    part: Seq<char>,
    document: (i64, Seq<char>),
    items: Seq<ScoredChunkView>,
) -> bool {
    let own = items.filter(|c: ScoredChunkView| c.chunk.document_id == document.0);
    exists|letter: Seq<char>, body: Seq<char>|
        #![trigger letter + body]
        {
            &&& part == "\nDOCUMENTO "@ + letter + ": "@ + document.1 + "\n"@ + body
            &&& if own.len() == 0 {
                body == NO_FRAGMENTS@
            } else {
                lists_fragments(body, own)
            }
        }
}

proof fn lemma_group(position: nat, document: (i64, Seq<char>), items: Seq<ScoredChunkView>)
    ensures
        is_part_for(group(position, document, items), document, items),
{
    let own = items.filter(|c: ScoredChunkView| c.chunk.document_id == document.0);
    let body = if own.len() == 0 {
        NO_FRAGMENTS@
    } else {
        fragments(own)
    };
    lemma_fragments(own);
    let letter = label(position);
    assert(letter + body == letter + body);
    assert(group(position, document, items) == "\nDOCUMENTO "@ + letter + ": "@ + document.1
        + "\n"@ + body);
}

proof fn lemma_groups_run(documents: Seq<(i64, Seq<char>)>, items: Seq<ScoredChunkView>)
    ensures
        groups(documents, items) == run_together(
            Seq::new(documents.len(), |d: int| group(d as nat, documents[d], items)),
        ),
    decreases documents.len(),
{
    let parts = Seq::new(documents.len(), |d: int| group(d as nat, documents[d], items));
    if documents.len() > 0 {
        let p = documents.drop_last();
        lemma_groups_run(p, items);
        assert(parts.drop_last() =~= Seq::new(p.len(), |d: int| group(d as nat, p[d], items)));
    }
}

proof fn lemma_names_listed(documents: Seq<(i64, Seq<char>)>, d: int)
    requires
        0 <= d < documents.len(),
    ensures
        contains(name_list(documents), documents[d].1),
    decreases documents.len(),
{
    let p = documents.drop_last();
    let line = "- "@ + documents.last().1 + "\n"@;
    lemma_contains_between("- "@, documents.last().1, "\n"@);
    if d < p.len() {
        lemma_names_listed(p, d);
        assert(p[d] == documents[d]);
    }
    lemma_contains_add(name_list(p), line, documents[d].1);
}

/// The prompt for several documents gives the instruction, names every document, and then
/// has a part for each of them, in their order and nothing else: its heading and, under it,
/// all of its passages with their whole content and no other document's.
pub proof fn law_grouped_prompt_quotes_every_passage(
    instruction: Seq<char>,
    items: Seq<ScoredChunkView>,
    documents: Seq<(i64, Seq<char>)>,
    comparison: bool,
)
    ensures
        exists|head: Seq<char>, parts: Seq<Seq<char>>|
            #![trigger head + run_together(parts)]
            {
                &&& grouped_prompt(instruction, items, documents, comparison) == head
                    + run_together(parts)
                &&& instruction.is_prefix_of(head)
                &&& forall|d: int|
                    0 <= d < documents.len() ==> contains(head, (#[trigger] documents[d]).1)
                &&& parts.len() == documents.len()
                &&& forall|d: int|
                    0 <= d < documents.len() ==> is_part_for(
                        #[trigger] parts[d],
                        documents[d],
                        items,
                    )
            },
        forall|d: int, i: int|
            0 <= d < documents.len() && 0 <= i < items.len() && (
            #[trigger] items[i]).chunk.document_id == (#[trigger] documents[d]).0 ==> contains(
                grouped_prompt(instruction, items, documents, comparison),
                items[i].chunk.content,
            ),
{
    let whole = grouped_prompt(instruction, items, documents, comparison);
    let head = grouped_head(instruction, documents, comparison);
    let parts = Seq::new(documents.len(), |d: int| group(d as nat, documents[d], items));
    lemma_groups_run(documents, items);
    assert(instruction =~= head.subrange(0, instruction.len() as int));
    assert forall|d: int| 0 <= d < documents.len() implies contains(
        head,
        (#[trigger] documents[d]).1,
    ) by {
        let purpose = if comparison {
            PURPOSE_COMPARE@
        } else {
            PURPOSE_ANALYZE@
        };
        let before = instruction + "\n\n"@ + purpose + GROUPING_RULE@ + COUNT_BEFORE@ + decimal(
            documents.len(),
        ) + COUNT_AFTER@;
        lemma_names_listed(documents, d);
        lemma_contains_add(before, name_list(documents), documents[d].1);
        lemma_contains_add(before + name_list(documents), GROUPED_HEADING@, documents[d].1);
    }
    assert forall|d: int| 0 <= d < documents.len() implies is_part_for(
        #[trigger] parts[d],
        documents[d],
        items,
    ) by {
        lemma_group(d as nat, documents[d], items);
    }
    assert forall|d: int, i: int|
        0 <= d < documents.len() && 0 <= i < items.len() && (
        #[trigger] items[i]).chunk.document_id == (#[trigger] documents[d]).0 implies contains(
        whole,
        items[i].chunk.content,
    ) by {
        let keep = |c: ScoredChunkView| c.chunk.document_id == documents[d].0;
        let own = items.filter(keep);
        items.lemma_filter_contains(keep, i);
        let k = choose|k: int| 0 <= k < own.len() && own[k] == items[i];
        lemma_fragments(own);
        lemma_listed_fragment(fragments(own), own, k);
        let text = items[i].chunk.content;
        lemma_contains_add(
            "\nDOCUMENTO "@ + label(d as nat) + ": "@ + documents[d].1 + "\n"@,
            fragments(own),
            text,
        );
        assert(contains(parts[d], text));
        lemma_contains_run(parts, d, text);
        lemma_contains_add(head, run_together(parts), text);
    }
    assert(whole == head + run_together(parts));
}

/// The prompt for a question about documents begins with the instruction of the profile
/// and has every passage that was found, with its whole content: grouped by document where
/// several documents are meant, as sources of their own otherwise.
pub proof fn law_prompt_quotes_every_passage(
    profile: Profile,
    items: Seq<ScoredChunkView>,
    documents: Seq<(i64, Seq<char>)>,
)
    ensures
        evidence_instruction(profile).is_prefix_of(evidence_prompt(profile, items, documents)),
        documents.len() <= 1 && items.len() > 0 ==> exists|head: Seq<char>, body: Seq<char>|
            #![trigger head + body]
            evidence_prompt(profile, items, documents) == head + body && lists_sources(body, items),
        forall|i: int|
            0 <= i < items.len() && (documents.len() <= 1 || exists|d: int|
                0 <= d < documents.len() && (#[trigger] documents[d]).0
                    == items[i].chunk.document_id) ==> contains(
                evidence_prompt(profile, items, documents),
                (#[trigger] items[i]).chunk.content,
            ),
{
    let whole = evidence_prompt(profile, items, documents);
    let instruction = evidence_instruction(profile);
    if documents.len() > 1 {
        law_grouped_prompt_quotes_every_passage(instruction, items, documents, true);
        assert(instruction =~= whole.subrange(0, instruction.len() as int));
        assert forall|i: int|
            0 <= i < items.len() && (documents.len() <= 1 || exists|d: int|
                0 <= d < documents.len() && (#[trigger] documents[d]).0
                    == items[i].chunk.document_id) implies contains(
            whole,
            (#[trigger] items[i]).chunk.content,
        ) by {
            let d = choose|d: int|
                0 <= d < documents.len() && (#[trigger] documents[d]).0
                    == items[i].chunk.document_id;
            assert(items[i].chunk.document_id == documents[d].0);
        }
    } else {
        assert(instruction =~= whole.subrange(0, instruction.len() as int));
        if items.len() > 0 {
            let head = instruction + EVIDENCE_HEADING@;
            let body = numbered_sources(items);
            lemma_sources(items);
            assert(whole == head + body);
            assert forall|i: int| 0 <= i < items.len() implies contains(
                whole,
                (#[trigger] items[i]).chunk.content,
            ) by {
                lemma_listed_source(body, items, i);
                lemma_contains_add(head, body, items[i].chunk.content);
            }
        }
    }
}

/// The source of a passage names it, its document and its place, and shows the beginning
/// of its content.
pub open spec fn is_source_for(s: SourceView, item: ScoredChunkView) -> bool {
    let c = item.chunk;
    &&& s.document_id == c.document_id
    &&& s.chunk_id == c.id
    &&& s.document_name == c.document_name
    &&& s.chunk_index == c.chunk_index
    &&& s.page_number == c.page_number
    &&& s.score == item.score
    &&& s.preview.is_prefix_of(c.content)
    &&& s.preview == c.content || s.preview.len() == 280
}

/// The sources of an answer are the passages that were found, in their order and nothing
/// else.
pub proof fn law_sources_are_the_passages(items: Seq<ScoredChunkView>)
    ensures
        sources_of(items).len() == items.len(),
        forall|i: int|
            0 <= i < items.len() ==> is_source_for(#[trigger] sources_of(items)[i], items[i]),
{
    assert forall|i: int| 0 <= i < items.len() implies is_source_for(
        #[trigger] sources_of(items)[i],
        items[i],
    ) by {
        let c = items[i].chunk.content;
        let s = sources_of(items)[i].preview;
        assert(s =~= c.subrange(0, s.len() as int));
    }
}

/// The source is that of a passage of a listed document.
pub open spec fn is_source_for_listed(
    s: SourceView,
    documents: Seq<(i64, Seq<char>)>,
    items: Seq<ScoredChunkView>,
) -> bool {
    exists|i: int, d: int|
        0 <= i < items.len() && 0 <= d < documents.len() && (
        #[trigger] items[i]).chunk.document_id == (#[trigger] documents[d]).0 && is_source_for(
            s,
            items[i],
        )
}

/// The sources of an answer about several documents are the passages of each, one document
/// after the other; a passage of a listed document is among them.
pub proof fn law_grouped_sources_are_the_passages(
    documents: Seq<(i64, Seq<char>)>,
    items: Seq<ScoredChunkView>,
)
    ensures
        forall|j: int|
            0 <= j < grouped_sources(documents, items).len() ==> is_source_for_listed(
                #[trigger] grouped_sources(documents, items)[j],
                documents,
                items,
            ),
        forall|i: int, d: int|
            0 <= i < items.len() && 0 <= d < documents.len() && (
            #[trigger] items[i]).chunk.document_id == (#[trigger] documents[d]).0 ==> exists|j: int|
                0 <= j < grouped_sources(documents, items).len() && is_source_for(
                    #[trigger] grouped_sources(documents, items)[j],
                    items[i],
                ),
    decreases documents.len(),
{
    let r = grouped_sources(documents, items);
    if documents.len() > 0 {
        let p = documents.drop_last();
        let last = documents.len() - 1;
        let before = grouped_sources(p, items);
        let keep = |c: ScoredChunkView| c.chunk.document_id == documents[last].0;
        let own = items.filter(keep);
        law_grouped_sources_are_the_passages(p, items);
        law_sources_are_the_passages(own);
        assert(r == before + sources_of(own));
        assert forall|j: int| 0 <= j < r.len() implies is_source_for_listed(
            #[trigger] r[j],
            documents,
            items,
        ) by {
            if j < before.len() {
                assert(r[j] == before[j]);
                let (i, d) = choose|i: int, d: int|
                    0 <= i < items.len() && 0 <= d < p.len() && (
                    #[trigger] items[i]).chunk.document_id == (#[trigger] p[d]).0
                        && is_source_for(before[j], items[i]);
                assert(documents[d] == p[d]);
                assert(items[i].chunk.document_id == documents[d].0);
            } else {
                let m = j - before.len();
                assert(r[j] == sources_of(own)[m]);
                items.lemma_filter_pred(keep, m);
                items.lemma_filter_contains_rev(keep, own[m]);
                let i = choose|i: int| 0 <= i < items.len() && items[i] == own[m];
                assert(items[i].chunk.document_id == documents[last].0);
                assert(is_source_for(r[j], items[i]));
            }
        }
        assert forall|i: int, d: int|
            0 <= i < items.len() && 0 <= d < documents.len() && (
            #[trigger] items[i]).chunk.document_id == (#[trigger] documents[d]).0 implies exists|
            j: int,
        |
            0 <= j < r.len() && is_source_for(#[trigger] r[j], items[i]) by {
            if d < last {
                assert(p[d] == documents[d]);
                assert(items[i].chunk.document_id == p[d].0);
                let j = choose|j: int|
                    0 <= j < before.len() && is_source_for(#[trigger] before[j], items[i]);
                assert(r[j] == before[j]);
            } else {
                items.lemma_filter_contains(keep, i);
                let m = choose|m: int| 0 <= m < own.len() && own[m] == items[i];
                assert(r[before.len() + m] == sources_of(own)[m]);
            }
        }
    }
}

// ----------------------------------------------------------------- diagnostics

/// A page number, or a dash where there is none.
pub open spec fn page_or_dash(page: Option<u32>) -> Seq<char> {
    match page {
        Some(p) => decimal(p as nat),
        None => "-"@,
    }
}

pub fn page_or_dash_text(page: Option<u32>) -> (r: String)
    ensures
        r@ == page_or_dash(page),
{
    match page {
        Some(p) => decimal_string(p as u128),
        None => "-".to_owned(),
    }
}

/// A passage in the diagnostic of a prompt.
pub open spec fn diagnostic_entry(index: nat, item: ScoredChunkView) -> Seq<char> {
    "\n["@ + decimal(index) + "] documento="@ + item.chunk.document_name + " | document_id="@
        + integer(item.chunk.document_id as int) + " | chunk_id="@ + integer(item.chunk.id as int)
        + " | pagina="@ + page_or_dash(item.chunk.page_number) + " | chunk_index="@ + decimal(
        item.chunk.chunk_index as nat,
    ) + " | score="@ + item.score.four + "\n"@ + item.chunk.content + "\n"@
}

/// The passages in the diagnostic of a prompt.
pub open spec fn diagnostic_entries(items: Seq<ScoredChunkView>) -> Seq<char>
    decreases items.len(),
{
    if items.len() == 0 {
        seq![]
    } else {
        diagnostic_entries(items.drop_last()) + diagnostic_entry(
            (items.len() - 1) as nat,
            items.last(),
        )
    }
}

fn diagnostic_entries_text(items: &Vec<ScoredChunk>) -> (r: String)
    ensures
        r@ == diagnostic_entries(scored_views(items@)),
{
    let ghost all = scored_views(items@);
    let mut r = String::new();
    let mut i: usize = 0;
    while i < items.len()
        invariant
            i <= items.len(),
            all == scored_views(items@),
            r@ == diagnostic_entries(all.take(i as int)),
        decreases items.len() - i,
    {
        assert(all.take(i + 1).drop_last() =~= all.take(i as int));
        let item = &items[i];
        let mut e = "\n[".to_owned();
        e.append(decimal_string(i as u128).as_str());
        e.append("] documento=");
        e.append(item.chunk.document_name.as_str());
        e.append(" | document_id=");
        e.append(integer_string(item.chunk.document_id).as_str());
        e.append(" | chunk_id=");
        e.append(integer_string(item.chunk.id).as_str());
        e.append(" | pagina=");
        e.append(page_or_dash_text(item.chunk.page_number).as_str());
        e.append(" | chunk_index=");
        e.append(decimal_string(item.chunk.chunk_index as u128).as_str());
        e.append(" | score=");
        e.append(item.score.four.as_str());
        e.append("\n");
        e.append(item.chunk.content.as_str());
        e.append("\n");
        assert(e@ == diagnostic_entry(i as nat, all[i as int]));
        r.append(e.as_str());
        i += 1;
    }
    assert(all.take(i as int) =~= all);
    r
}

/// The messages as the endpoint receives them, for reading.
pub open spec fn transcript(messages: Seq<ApiView>) -> Seq<char>
    decreases messages.len(),
{
    if messages.len() == 0 {
        seq![]
    } else {
        transcript(messages.drop_last()) + ("\n["@ + messages.last().role + "]\n"@
            + messages.last().content + "\n"@)
    }
}

/// The messages as the endpoint receives them, for reading.
pub fn transcript_text(messages: &Vec<ApiMessage>) -> (r: String)
    ensures
        r@ == transcript(api_views(messages@)),
{
    let ghost all = api_views(messages@);
    let mut r = String::new();
    let mut i: usize = 0;
    while i < messages.len()
        invariant
            i <= messages.len(),
            all == api_views(messages@),
            r@ == transcript(all.take(i as int)),
        decreases messages.len() - i,
    {
        assert(all.take(i + 1).drop_last() =~= all.take(i as int));
        let mut e = "\n[".to_owned();
        e.append(messages[i].role.as_str());
        e.append("]\n");
        e.append(messages[i].content.as_str());
        e.append("\n");
        r.append(e.as_str());
        i += 1;
    }
    assert(all.take(i as int) =~= all);
    r
}

pub const DIAGNOSTIC_MESSAGES: &'static str =
    "\nMENSAJES FINALES ENVIADOS AL ENDPOINT DE CHAT\n";

/// All that goes to the model for a question about documents, for reading.
pub fn prompt_diagnostic(
    system: &str,
    question: &str,
    library_name: &str,
    chunks: &Vec<ScoredChunk>,
    messages: &Vec<ApiMessage>,
) -> (r: String)
    ensures
        r@ == "SYSTEM PROMPT\n"@ + system@ + "\n\nPREGUNTA DEL USUARIO\n"@ + question@
            + "\n\nBIBLIOTECA\n"@ + library_name@
            + "\n\nDOCUMENTOS Y CHUNKS RECUPERADOS\n"@ + diagnostic_entries(scored_views(chunks@))
            + DIAGNOSTIC_MESSAGES@ + transcript(api_views(messages@)),
{
    let mut r = "SYSTEM PROMPT\n".to_owned();
    r.append(system);
    r.append("\n\nPREGUNTA DEL USUARIO\n");
    r.append(question);
    r.append("\n\nBIBLIOTECA\n");
    r.append(library_name);
    r.append("\n\nDOCUMENTOS Y CHUNKS RECUPERADOS\n");
    r.append(diagnostic_entries_text(chunks).as_str());
    r.append(DIAGNOSTIC_MESSAGES);
    r.append(transcript_text(messages).as_str());
    r
}

/// What a diagnostic tells of a passage: its number, its document, its identifiers, its
/// page, its place and its score.
pub open spec fn diagnostic_facts(index: nat, item: ScoredChunkView) -> Seq<Seq<char>> {
    let c = item.chunk;
    seq![
        decimal(index),
        c.document_name,
        integer(c.document_id as int),
        integer(c.id as int),
        decimal(c.chunk_index as nat),
        item.score.four,
    ]
}

proof fn lemma_diagnostic_entry(index: nat, item: ScoredChunkView)
    ensures
        quotes(diagnostic_entry(index, item), diagnostic_facts(index, item), item.chunk.content),
{
    let c = item.chunk;
    let f0 = "\n["@;
    let f1 = f0 + decimal(index);
    let f2 = f1 + "] documento="@;
    let f3 = f2 + c.document_name;
    let f4 = f3 + " | document_id="@;
    let f5 = f4 + integer(c.document_id as int);
    let f6 = f5 + " | chunk_id="@;
    let f7 = f6 + integer(c.id as int);
    let f8 = f7 + " | pagina="@;
    let f9 = f8 + page_or_dash(c.page_number);
    let f10 = f9 + " | chunk_index="@;
    let f11 = f10 + decimal(c.chunk_index as nat);
    let f12 = f11 + " | score="@;
    let f13 = f12 + item.score.four;
    let v0 = Seq::<Seq<char>>::empty();
    lemma_run_push(v0, "\n["@);
    let v1 = v0.push("\n["@);
    assert(run_together(v0) + "\n["@ =~= f0);
    assert(run_together(v1) == f0);
    lemma_run_push(v1, decimal(index));
    let v2 = v1.push(decimal(index));
    assert(run_together(v2) == f1);
    lemma_run_push(v2, "] documento="@);
    let v3 = v2.push("] documento="@);
    assert(run_together(v3) == f2);
    lemma_run_push(v3, c.document_name);
    let v4 = v3.push(c.document_name);
    assert(run_together(v4) == f3);
    lemma_run_push(v4, " | document_id="@);
    let v5 = v4.push(" | document_id="@);
    assert(run_together(v5) == f4);
    lemma_run_push(v5, integer(c.document_id as int));
    let v6 = v5.push(integer(c.document_id as int));
    assert(run_together(v6) == f5);
    lemma_run_push(v6, " | chunk_id="@);
    let v7 = v6.push(" | chunk_id="@);
    assert(run_together(v7) == f6);
    lemma_run_push(v7, integer(c.id as int));
    let v8 = v7.push(integer(c.id as int));
    assert(run_together(v8) == f7);
    lemma_run_push(v8, " | pagina="@);
    let v9 = v8.push(" | pagina="@);
    assert(run_together(v9) == f8);
    lemma_run_push(v9, page_or_dash(c.page_number));
    let v10 = v9.push(page_or_dash(c.page_number));
    assert(run_together(v10) == f9);
    lemma_run_push(v10, " | chunk_index="@);
    let v11 = v10.push(" | chunk_index="@);
    assert(run_together(v11) == f10);
    lemma_run_push(v11, decimal(c.chunk_index as nat));
    let v12 = v11.push(decimal(c.chunk_index as nat));
    assert(run_together(v12) == f11);
    lemma_run_push(v12, " | score="@);
    let v13 = v12.push(" | score="@);
    assert(run_together(v13) == f12);
    lemma_run_push(v13, item.score.four);
    let v14 = v13.push(item.score.four);
    assert(run_together(v14) == f13);
    assert(diagnostic_entry(index, item) == run_together(v14) + "\n"@ + c.content + "\n"@);
    let facts = diagnostic_facts(index, item);
    assert(v14[1] == facts[0] && v14[3] == facts[1] && v14[5] == facts[2] && v14[7] == facts[3]
        && v14[11] == facts[4] && v14[13] == facts[5]);
}

proof fn lemma_diagnostic_run(items: Seq<ScoredChunkView>)
    ensures
        diagnostic_entries(items) == run_together(
            Seq::new(items.len(), |k: int| diagnostic_entry(k as nat, items[k])),
        ),
    decreases items.len(),
{
    let entries = Seq::new(items.len(), |k: int| diagnostic_entry(k as nat, items[k]));
    if items.len() > 0 {
        let p = items.drop_last();
        lemma_diagnostic_run(p);
        assert(entries.drop_last() =~= Seq::new(
            p.len(),
            |k: int| diagnostic_entry(k as nat, p[k]),
        ));
    }
}

proof fn lemma_transcript_run(m: Seq<ApiView>)
    ensures
        transcript(m) == run_together(
            m.map_values(|x: ApiView| "\n["@ + x.role + "]\n"@ + x.content + "\n"@),
        ),
    decreases m.len(),
{
    let entries = m.map_values(|x: ApiView| "\n["@ + x.role + "]\n"@ + x.content + "\n"@);
    if m.len() > 0 {
        lemma_transcript_run(m.drop_last());
        assert(entries.drop_last() =~= m.drop_last().map_values(
            |x: ApiView| "\n["@ + x.role + "]\n"@ + x.content + "\n"@,
        ));
    }
}

/// A diagnostic shows every passage that was found and every message that was sent, in
/// their order and as they are.
pub proof fn law_diagnostic_shows_everything(items: Seq<ScoredChunkView>, m: Seq<ApiView>)
    ensures
        exists|entries: Seq<Seq<char>>|
            {
                &&& diagnostic_entries(items) == #[trigger] run_together(entries)
                &&& entries.len() == items.len()
                &&& forall|k: int|
                    0 <= k < items.len() ==> quotes(
                        #[trigger] entries[k],
                        diagnostic_facts(k as nat, items[k]),
                        items[k].chunk.content,
                    )
            },
        exists|entries: Seq<Seq<char>>|
            {
                &&& transcript(m) == #[trigger] run_together(entries)
                &&& entries.len() == m.len()
                &&& forall|k: int|
                    0 <= k < m.len() ==> quotes(#[trigger] entries[k], seq![m[k].role], m[k].content)
            },
{
    let entries = Seq::new(items.len(), |k: int| diagnostic_entry(k as nat, items[k]));
    lemma_diagnostic_run(items);
    assert forall|k: int| 0 <= k < items.len() implies quotes(
        #[trigger] entries[k],
        diagnostic_facts(k as nat, items[k]),
        items[k].chunk.content,
    ) by {
        lemma_diagnostic_entry(k as nat, items[k]);
    }
    assert(diagnostic_entries(items) == run_together(entries));
    let said = m.map_values(|x: ApiView| "\n["@ + x.role + "]\n"@ + x.content + "\n"@);
    lemma_transcript_run(m);
    assert forall|k: int| 0 <= k < m.len() implies quotes(
        #[trigger] said[k],
        seq![m[k].role],
        m[k].content,
    ) by {
        lemma_transcript_entry(m[k]);
    }
    assert(transcript(m) == run_together(said));
}

proof fn lemma_transcript_entry(x: ApiView)
    ensures
        quotes("\n["@ + x.role + "]\n"@ + x.content + "\n"@, seq![x.role], x.content),
{
    let f0 = "\n["@;
    let f1 = f0 + x.role;
    let f2 = f1 + "]"@;
    let v0 = Seq::<Seq<char>>::empty();
    lemma_run_push(v0, "\n["@);
    let v1 = v0.push("\n["@);
    assert(run_together(v0) + "\n["@ =~= f0);
    assert(run_together(v1) == f0);
    lemma_run_push(v1, x.role);
    let v2 = v1.push(x.role);
    assert(run_together(v2) == f1);
    lemma_run_push(v2, "]"@);
    let v3 = v2.push("]"@);
    assert(run_together(v3) == f2);
    lemma_line_end(f1);
    assert("\n["@ + x.role + "]\n"@ + x.content + "\n"@ == run_together(v3) + "\n"@ + x.content
        + "\n"@);
    assert(v3[1] == x.role);
}

/// The instruction for general conversations names the model where its name is known.
pub proof fn law_general_prompt_names_the_model(name: Seq<char>)
    requires
        !is_blank(name),
    ensures
        contains(general_prompt(Some(name)), name),
        Profile::General.spec_system_prompt().is_prefix_of(general_prompt(Some(name))),
        Profile::General.spec_system_prompt().is_prefix_of(general_prompt(None)),
{
    let identity = Profile::General.spec_system_prompt();
    lemma_contains_between(identity + MODEL_KNOWN_BEFORE@, name, MODEL_KNOWN_AFTER@);
    let with = general_prompt(Some(name));
    let without = general_prompt(None);
    assert(identity =~= with.subrange(0, identity.len() as int));
    assert(identity =~= without.subrange(0, identity.len() as int));
}

} // verus!
