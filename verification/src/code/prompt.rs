//! What the language model is told about source code.

use vstd::prelude::*;
use vstd::string::StringExecFns;

use crate::ai::conversation::{api_views, ApiMessage,
};
use crate::ai::prompts::{
    answers, lemma_open_question_is, open_question, transcript, transcript_text,
    DIAGNOSTIC_MESSAGES,
};
use crate::code::search::{scored_code_views, ScoredCodeChunk, ScoredCodeView};
use crate::code::types::{CodeFile, CodeFileView};
use crate::models::{message_views, source_views, Message, MessageView, Source, SourceView};
use crate::text::{
    contains, decimal, decimal_string, integer, integer_string, lemma_contains_add,
    lemma_contains_between, lemma_contains_run, lemma_quoted, lemma_run_push, prefix, quotes, run_together, same,
    take_chars,
};

verus! {

/// The instruction for questions about source code.
pub const CODE_SYSTEM_PROMPT: &'static str =
    "Eres un asistente de analisis de codigo en modo solo lectura. Analiza el codigo y contexto proporcionados cuando la pregunta dependa del proyecto. Puedes explicar, detectar posibles errores, sugerir mejoras, refactorizar y generar codigo. Distingue lo observado de tus recomendaciones. No afirmes que ejecutaste, compilaste o probaste codigo. No modifiques archivos. Si propones codigo, entregalo para que el usuario decida si lo copia y aplica manualmente. Los prefijos numericos con | pertenecen a referencias de lineas: no los incluyas dentro de bloques de codigo propuesto para copiar.";

// --------------------------------------------------- history without evidence

pub const OMITTED_CODE_QUESTION: &'static str =
    "[Consulta de codigo anterior omitida del contexto tecnico actual.]";

pub const OMITTED_CODE_ANSWER: &'static str =
    "[Respuesta anterior omitida: el historial conversacional no constituye evidencia de codigo para este turno.]";

/// The answered questions of a history with their answers, all content left out.
pub open spec fn code_history(history: Seq<MessageView>) -> Seq<MessageView>
    decreases history.len(),
{
    if history.len() == 0 {
        seq![]
    } else {
        let before = code_history(history.drop_last());
        let last = history.last();
        match open_question(history.drop_last()) {
            Some(question) if last.role == "assistant"@ => before.push(
                MessageView { content: OMITTED_CODE_QUESTION@, sources: seq![], ..question },
            ).push(MessageView { content: OMITTED_CODE_ANSWER@, sources: seq![], ..last }),
            _ => before,
        }
    }
}

/// No earlier question or answer reaches the model as evidence: nothing but the
/// notes that they were left out is in the history.
pub proof fn law_code_history_holds_no_evidence(history: Seq<MessageView>)
    ensures
        forall|i: int|
            0 <= i < code_history(history).len() ==> {
                let m = #[trigger] code_history(history)[i];
                m.sources.len() == 0 && (m.content == OMITTED_CODE_QUESTION@ || m.content
                    == OMITTED_CODE_ANSWER@)
            },
    decreases history.len(),
{
    if history.len() > 0 {
        law_code_history_holds_no_evidence(history.drop_last());
        let before = code_history(history.drop_last());
        let r = code_history(history);
        assert forall|i: int| 0 <= i < r.len() implies {
            let m = #[trigger] r[i];
            m.sources.len() == 0 && (m.content == OMITTED_CODE_QUESTION@ || m.content
                == OMITTED_CODE_ANSWER@)
        } by {
            if i < before.len() {
                assert(r[i] == before[i]);
            }
        }
    }
}

/// The notes for a question and its answer stand in a history at a place.
pub open spec fn keeps_turn(r: Seq<MessageView>, n: int) -> bool {
    &&& 0 <= n < r.len() - 1
    &&& r[n].role == "user"@
    &&& r[n + 1].role == "assistant"@
    &&& r[n].content == OMITTED_CODE_QUESTION@
    &&& r[n + 1].content == OMITTED_CODE_ANSWER@
}

/// Every answered question leaves its note and that of its answer, next to each other.
pub proof fn law_code_history_keeps_the_turns(history: Seq<MessageView>, i: int, j: int)
    requires
        answers(history, i, j),
    ensures
        exists|n: int| #[trigger] keeps_turn(code_history(history), n),
    decreases history.len(),
{
    let r = code_history(history);
    let p = history.drop_last();
    let before = code_history(p);
    if j < history.len() - 1 {
        assert forall|k: int| i < k < j implies (#[trigger] p[k]).role != "user"@ && p[k].role
            != "assistant"@ by {
            assert(p[k] == history[k]);
        }
        assert(p[i] == history[i] && p[j] == history[j]);
        law_code_history_keeps_the_turns(p, i, j);
        let n = choose|n: int| #[trigger] keeps_turn(before, n);
        assert(r[n] == before[n] && r[n + 1] == before[n + 1]);
        assert(keeps_turn(r, n));
    } else {
        assert forall|k: int| i < k < p.len() implies (#[trigger] p[k]).role != "user"@ && p[k].role
            != "assistant"@ by {
            assert(p[k] == history[k]);
        }
        assert(p[i] == history[i]);
        lemma_open_question_is(p, i);
        let n = before.len() as int;
        assert(keeps_turn(r, n));
    }
}

/// The history that goes with a new question about source code: earlier exchanges
/// are no evidence and are left out.
pub fn code_history_without_evidence(history: &[Message]) -> (r: Vec<Message>)
    ensures
        message_views(r@) == code_history(message_views(history@)),
{
    let ghost all = message_views(history@);
    let mut r: Vec<Message> = Vec::new();
    let mut pending: Option<Message> = None;
    let mut i: usize = 0;
    proof {
        reveal_strlit("user");
        reveal_strlit("assistant");
        assert("user"@.len() != "assistant"@.len());
    }
    assert(message_views(r@) =~= code_history(all.take(0)));
    while i < history.len()
        invariant
            i <= history.len(),
            all == message_views(history@),
            "user"@ != "assistant"@,
            message_views(r@) == code_history(all.take(i as int)),
            match pending {
                Some(m) => open_question(all.take(i as int)) == Some(m@),
                None => open_question(all.take(i as int)) is None,
            },
        decreases history.len() - i,
    {
        proof {
            assert(all.take(i + 1).drop_last() =~= all.take(i as int));
            assert(all.take(i + 1).last() == history@[i as int]@);
        }
        let role = history[i].role.as_str();
        if same(role, "user") {
            pending = Some(history[i].clone());
        } else if same(role, "assistant") {
            match pending {
                Some(mut user) => {
                    let ghost before = message_views(r@);
                    let mut assistant = history[i].clone();
                    user.content = OMITTED_CODE_QUESTION.to_owned();
                    user.sources = Vec::new();
                    assistant.content = OMITTED_CODE_ANSWER.to_owned();
                    assistant.sources = Vec::new();
                    assert(user@.sources =~= seq![]);
                    assert(assistant@.sources =~= seq![]);
                    r.push(user);
                    r.push(assistant);
                    assert(message_views(r@) =~= before.push(user@).push(assistant@));
                },
                None => {},
            }
            pending = None;
        }
        i += 1;
    }
    assert(all.take(i as int) =~= all);
    r
}

// -------------------------------------------------------------------- prompt

/// The number of characters of a chunk that its source shows.
pub const CODE_PREVIEW: usize = 360;

/// The source of a chunk.
pub open spec fn code_source(item: ScoredCodeView) -> SourceView {
    SourceView {
        library_id: 0,
        project_id: item.chunk.project_id,
        file_id: item.chunk.file_id,
        document_id: item.chunk.file_id,
        chunk_id: item.chunk.id,
        score: item.score,
        document_name: item.chunk.relative_path,
        chunk_index: item.chunk.chunk_index,
        page_number: None,
        preview: prefix(item.chunk.content, CODE_PREVIEW as nat),
        relative_path: item.chunk.relative_path,
        line_start: Some(item.chunk.line_start),
        line_end: Some(item.chunk.line_end),
    }
}

fn code_source_of(item: &ScoredCodeChunk) -> (r: Source)
    ensures
        r@ == code_source(item@),
{
    Source {
        library_id: 0,
        project_id: item.chunk.project_id,
        file_id: item.chunk.file_id,
        document_id: item.chunk.file_id,
        chunk_id: item.chunk.id,
        score: item.score.clone(),
        document_name: item.chunk.relative_path.clone(),
        chunk_index: item.chunk.chunk_index,
        page_number: None,
        preview: take_chars(item.chunk.content.as_str(), CODE_PREVIEW),
        relative_path: item.chunk.relative_path.clone(),
        line_start: Some(item.chunk.line_start),
        line_end: Some(item.chunk.line_end),
    }
}

/// The sources of chunks, in their order.
pub open spec fn code_sources(items: Seq<ScoredCodeView>) -> Seq<SourceView> {
    items.map_values(|i: ScoredCodeView| code_source(i))
}

/// A chunk as evidence.
pub open spec fn code_evidence(item: ScoredCodeView) -> Seq<char> {
    "\n["@ + item.chunk.relative_path + " - lineas "@ + decimal(item.chunk.line_start as nat)
        + "-"@ + decimal(item.chunk.line_end as nat) + " | score "@ + item.score.three
        + " | lenguaje "@ + item.chunk.language + "]\n"@ + item.chunk.content + "\n"@
}

/// Chunks as evidence, in their order.
pub open spec fn all_code_evidence(items: Seq<ScoredCodeView>) -> Seq<char>
    decreases items.len(),
{
    if items.len() == 0 {
        seq![]
    } else {
        all_code_evidence(items.drop_last()) + code_evidence(items.last())
    }
}

pub const SCOPE_BEFORE: &'static str = "\n\nSCOPE TECNICO ACTUAL\nProyecto activo: ";

pub const SCOPE_FILE: &'static str = "\nArchivo seleccionado: ";

pub const SCOPE_AFTER: &'static str =
    "\nEste scope fue capturado al iniciar el turno. Solo CONTEXTO DE CODIGO es evidencia tecnica actual; el historial conversacional no lo es.";

pub const NO_CODE: &'static str =
    "\n\nNo se recupero contexto del proyecto. Indicalo si la pregunta depende de archivos no proporcionados.";

pub const CODE_HEADING: &'static str = "\n\nCONTEXTO DE CODIGO:\n";

/// What an optional file holds.
pub open spec fn opt_file(f: Option<CodeFile>) -> Option<CodeFileView> {
    match f {
        Some(f) => Some(f@),
        None => None,
    }
}

/// The selected file as the model is told of it.
pub open spec fn selection(f: Option<CodeFileView>) -> Seq<char> {
    match f {
        Some(f) => f.relative_path + " [file_id="@ + integer(f.id as int) + "]"@,
        None => "Ninguno"@,
    }
}

fn selection_text(f: &Option<CodeFile>) -> (r: String)
    ensures
        r@ == selection(opt_file(*f)),
{
    match f {
        Some(f) => {
            let mut r = f.relative_path.clone();
            r.append(" [file_id=");
            r.append(integer_string(f.id).as_str());
            r.append("]");
            r
        },
        None => "Ninguno".to_owned(),
    }
}

/// The instruction with the scope and the evidence for a question about code.
pub open spec fn code_instruction(
    items: Seq<ScoredCodeView>,
    project: Seq<char>,
    selected: Option<CodeFileView>,
) -> Seq<char> {
    let scope = CODE_SYSTEM_PROMPT@ + SCOPE_BEFORE@ + project + SCOPE_FILE@ + selection(selected)
        + SCOPE_AFTER@;
    if items.len() == 0 {
        scope + NO_CODE@
    } else {
        scope + CODE_HEADING@ + all_code_evidence(items)
    }
}

/// The instruction with the scope and the evidence for a question about code, and
/// the sources of the evidence.
pub fn code_prompt(
    chunks: &Vec<ScoredCodeChunk>,
    project_name: &str,
    selected_file: &Option<CodeFile>,
) -> (r: (String, Vec<Source>))
    ensures
        r.0@ == code_instruction(
            scored_code_views(chunks@),
            project_name@,
            opt_file(*selected_file),
        ),
        source_views(r.1@) == code_sources(scored_code_views(chunks@)),
{
    let ghost all = scored_code_views(chunks@);
    assert(all.len() == chunks@.len());
    let mut prompt = CODE_SYSTEM_PROMPT.to_owned();
    prompt.append(SCOPE_BEFORE);
    prompt.append(project_name);
    prompt.append(SCOPE_FILE);
    prompt.append(selection_text(selected_file).as_str());
    prompt.append(SCOPE_AFTER);
    let mut sources: Vec<Source> = Vec::new();
    assert(source_views(sources@) =~= code_sources(all).take(0));
    if chunks.len() == 0 {
        prompt.append(NO_CODE);
        assert(source_views(sources@) =~= code_sources(all));
        return (prompt, sources);
    }
    prompt.append(CODE_HEADING);
    let mut evidence = String::new();
    let mut i: usize = 0;
    while i < chunks.len()
        invariant
            i <= chunks.len(),
            all == scored_code_views(chunks@),
            evidence@ == all_code_evidence(all.take(i as int)),
            source_views(sources@) == code_sources(all).take(i as int),
        decreases chunks.len() - i,
    {
        assert(all.take(i + 1).drop_last() =~= all.take(i as int));
        let item = &chunks[i];
        let mut e = "\n[".to_owned();
        e.append(item.chunk.relative_path.as_str());
        e.append(" - lineas ");
        e.append(decimal_string(item.chunk.line_start as u128).as_str());
        e.append("-");
        e.append(decimal_string(item.chunk.line_end as u128).as_str());
        e.append(" | score ");
        e.append(item.score.three.as_str());
        e.append(" | lenguaje ");
        e.append(item.chunk.language.as_str());
        e.append("]\n");
        e.append(item.chunk.content.as_str());
        e.append("\n");
        assert(e@ == code_evidence(all[i as int]));
        evidence.append(e.as_str());
        let ghost had = source_views(sources@);
        let s = code_source_of(item);
        sources.push(s);
        assert(source_views(sources@) =~= had.push(s@));
        assert(source_views(sources@) =~= code_sources(all).take(i + 1));
        i += 1;
    }
    assert(all.take(i as int) =~= all);
    assert(code_sources(all).take(i as int) =~= code_sources(all));
    prompt.append(evidence.as_str());
    (prompt, sources)
}

/// What is told of a chunk before its lines: its path, which lines they are, its score and
/// its language.
pub open spec fn code_facts(item: ScoredCodeView) -> Seq<Seq<char>> {
    seq![
        item.chunk.relative_path,
        decimal(item.chunk.line_start as nat) + "-"@ + decimal(item.chunk.line_end as nat),
        item.score.three,
        item.chunk.language,
    ]
}

proof fn lemma_code_evidence(item: ScoredCodeView)
    ensures
        quotes(code_evidence(item), code_facts(item), item.chunk.content),
{
    let c = item.chunk;
    let start = decimal(c.line_start as nat);
    let end = decimal(c.line_end as nat);
    let span = start + "-"@ + end;
    let f0 = "\n["@;
    let f1 = f0 + c.relative_path;
    let f2 = f1 + " - lineas "@;
    let f3 = f2 + span;
    let f4 = f3 + " | score "@;
    let f5 = f4 + item.score.three;
    let f6 = f5 + " | lenguaje "@;
    let f7 = f6 + c.language;
    let f8 = f7 + "]"@;
    let v0 = Seq::<Seq<char>>::empty();
    lemma_run_push(v0, "\n["@);
    let v1 = v0.push("\n["@);
    assert(run_together(v0) + "\n["@ =~= f0);
    assert(run_together(v1) == f0);
    lemma_run_push(v1, c.relative_path);
    let v2 = v1.push(c.relative_path);
    assert(run_together(v2) == f1);
    lemma_run_push(v2, " - lineas "@);
    let v3 = v2.push(" - lineas "@);
    assert(run_together(v3) == f2);
    lemma_run_push(v3, span);
    let v4 = v3.push(span);
    assert(run_together(v4) == f3);
    lemma_run_push(v4, " | score "@);
    let v5 = v4.push(" | score "@);
    assert(run_together(v5) == f4);
    lemma_run_push(v5, item.score.three);
    let v6 = v5.push(item.score.three);
    assert(run_together(v6) == f5);
    lemma_run_push(v6, " | lenguaje "@);
    let v7 = v6.push(" | lenguaje "@);
    assert(run_together(v7) == f6);
    lemma_run_push(v7, c.language);
    let v8 = v7.push(c.language);
    assert(run_together(v8) == f7);
    lemma_run_push(v8, "]"@);
    let v9 = v8.push("]"@);
    assert(run_together(v9) == f8);
    assert(f2 + start + "-"@ + end =~= f3);
    lemma_bracket(f7);
    assert(code_evidence(item) == run_together(v9) + "\n"@ + c.content + "\n"@);
    let facts = code_facts(item);
    assert(v9[1] == facts[0] && v9[3] == facts[1] && v9[5] == facts[2] && v9[7] == facts[3]);
}

proof fn lemma_bracket(s: Seq<char>)
    ensures
        s + "]\n"@ == s + "]"@ + "\n"@,
{
    reveal_strlit("]");
    reveal_strlit("]\n");
    reveal_strlit("\n");
    assert(s + "]\n"@ =~= s + "]"@ + "\n"@);
}

/// The evidence of a question about code is every chunk that was found, in their order and
/// nothing else: each with its path, its lines, its score and its language, and its whole
/// content.
pub proof fn law_code_prompt_quotes_every_chunk(
    items: Seq<ScoredCodeView>,
    project: Seq<char>,
    selected: Option<CodeFileView>,
)
    ensures
        items.len() > 0 ==> exists|head: Seq<char>, entries: Seq<Seq<char>>|
            #![trigger head + run_together(entries)]
            {
                &&& code_instruction(items, project, selected) == head + run_together(entries)
                &&& contains(head, project)
                &&& selected matches Some(f) ==> contains(head, f.relative_path)
                &&& entries.len() == items.len()
                &&& forall|i: int|
                    0 <= i < items.len() ==> quotes(
                        #[trigger] entries[i],
                        code_facts(items[i]),
                        items[i].chunk.content,
                    )
            },
        contains(code_instruction(items, project, selected), project),
        forall|i: int|
            0 <= i < items.len() ==> contains(
                code_instruction(items, project, selected),
                (#[trigger] items[i]).chunk.content,
            ),
{
    let whole = code_instruction(items, project, selected);
    let scope = CODE_SYSTEM_PROMPT@ + SCOPE_BEFORE@ + project + SCOPE_FILE@ + selection(selected)
        + SCOPE_AFTER@;
    lemma_contains_between(
        CODE_SYSTEM_PROMPT@ + SCOPE_BEFORE@,
        project,
        SCOPE_FILE@ + selection(selected) + SCOPE_AFTER@,
    );
    assert(CODE_SYSTEM_PROMPT@ + SCOPE_BEFORE@ + project + (SCOPE_FILE@ + selection(selected)
        + SCOPE_AFTER@) =~= scope);
    if let Some(f) = selected {
        let rest = " [file_id="@ + integer(f.id as int) + "]"@;
        let before = CODE_SYSTEM_PROMPT@ + SCOPE_BEFORE@ + project + SCOPE_FILE@;
        lemma_contains_between(before, f.relative_path, rest + SCOPE_AFTER@);
        assert(before + f.relative_path + (rest + SCOPE_AFTER@) =~= scope);
    }
    lemma_contains_add(scope, NO_CODE@, project);
    if items.len() > 0 {
        let entries = items.map_values(|i: ScoredCodeView| code_evidence(i));
        let head = scope + CODE_HEADING@;
        lemma_code_entries_run(items);
        lemma_contains_add(scope, CODE_HEADING@, project);
        if let Some(f) = selected {
            lemma_contains_add(scope, CODE_HEADING@, f.relative_path);
        }
        lemma_contains_add(head, run_together(entries), project);
        assert forall|i: int| 0 <= i < items.len() implies quotes(
            #[trigger] entries[i],
            code_facts(items[i]),
            items[i].chunk.content,
        ) by {
            lemma_code_evidence(items[i]);
        }
        assert forall|i: int| 0 <= i < items.len() implies contains(
            whole,
            (#[trigger] items[i]).chunk.content,
        ) by {
            lemma_code_evidence(items[i]);
            lemma_quoted(entries[i], code_facts(items[i]), items[i].chunk.content);
            lemma_contains_run(entries, i, items[i].chunk.content);
            lemma_contains_add(head, run_together(entries), items[i].chunk.content);
        }
        assert(whole == head + run_together(entries));
    }
}

proof fn lemma_code_entries_run(items: Seq<ScoredCodeView>)
    ensures
        all_code_evidence(items) == run_together(
            items.map_values(|i: ScoredCodeView| code_evidence(i)),
        ),
    decreases items.len(),
{
    let entries = items.map_values(|i: ScoredCodeView| code_evidence(i));
    if items.len() > 0 {
        lemma_code_entries_run(items.drop_last());
        assert(entries.drop_last() =~= items.drop_last().map_values(
            |i: ScoredCodeView| code_evidence(i),
        ));
    }
}

/// The sources of an answer about code are the chunks that were found, in their order:
/// each with its project, file, path and lines, and the beginning of its content.
pub proof fn law_code_sources_are_the_chunks(items: Seq<ScoredCodeView>)
    ensures
        code_sources(items).len() == items.len(),
        forall|i: int|
            0 <= i < items.len() ==> {
                let s = #[trigger] code_sources(items)[i];
                let c = items[i].chunk;
                &&& s.project_id == c.project_id
                &&& s.file_id == c.file_id
                &&& s.chunk_id == c.id
                &&& s.relative_path == c.relative_path
                &&& s.line_start == Some(c.line_start)
                &&& s.line_end == Some(c.line_end)
                &&& s.score == items[i].score
                &&& s.preview.is_prefix_of(c.content)
                &&& s.preview == c.content || s.preview.len() == 360
            },
{
    assert forall|i: int| 0 <= i < items.len() implies {
        let s = #[trigger] code_sources(items)[i];
        let c = items[i].chunk;
        &&& s.preview.is_prefix_of(c.content)
        &&& s.preview == c.content || s.preview.len() == 360
    } by {
        let c = items[i].chunk.content;
        let s = code_sources(items)[i].preview;
        assert(s =~= c.subrange(0, s.len() as int));
    }
}

// ---------------------------------------------------------------- diagnostics

/// A chunk in the diagnostic of a prompt.
pub open spec fn code_entry(item: ScoredCodeView) -> Seq<char> {
    "\n"@ + item.chunk.relative_path + " | lineas "@ + decimal(item.chunk.line_start as nat) + "-"@
        + decimal(item.chunk.line_end as nat) + " | score "@ + item.score.four + "\n"@
        + item.chunk.content + "\n"@
}

/// The chunks in the diagnostic of a prompt.
pub open spec fn code_entries(items: Seq<ScoredCodeView>) -> Seq<char>
    decreases items.len(),
{
    if items.len() == 0 {
        seq![]
    } else {
        code_entries(items.drop_last()) + code_entry(items.last())
    }
}

fn code_entries_text(items: &Vec<ScoredCodeChunk>) -> (r: String)
    ensures
        r@ == code_entries(scored_code_views(items@)),
{
    let ghost all = scored_code_views(items@);
    let mut r = String::new();
    let mut i: usize = 0;
    while i < items.len()
        invariant
            i <= items.len(),
            all == scored_code_views(items@),
            r@ == code_entries(all.take(i as int)),
        decreases items.len() - i,
    {
        assert(all.take(i + 1).drop_last() =~= all.take(i as int));
        let item = &items[i];
        let mut e = "\n".to_owned();
        e.append(item.chunk.relative_path.as_str());
        e.append(" | lineas ");
        e.append(decimal_string(item.chunk.line_start as u128).as_str());
        e.append("-");
        e.append(decimal_string(item.chunk.line_end as u128).as_str());
        e.append(" | score ");
        e.append(item.score.four.as_str());
        e.append("\n");
        e.append(item.chunk.content.as_str());
        e.append("\n");
        assert(e@ == code_entry(all[i as int]));
        r.append(e.as_str());
        i += 1;
    }
    assert(all.take(i as int) =~= all);
    r
}

/// The selected file in the diagnostic of a prompt.
pub open spec fn selection_entry(f: Option<CodeFileView>) -> Seq<char> {
    match f {
        Some(f) => "file_id="@ + integer(f.id as int) + " | "@ + f.relative_path,
        None => "Ninguno"@,
    }
}

fn selection_entry_text(f: &Option<CodeFile>) -> (r: String)
    ensures
        r@ == selection_entry(opt_file(*f)),
{
    match f {
        Some(f) => {
            let mut r = "file_id=".to_owned();
            r.append(integer_string(f.id).as_str());
            r.append(" | ");
            r.append(f.relative_path.as_str());
            r
        },
        None => "Ninguno".to_owned(),
    }
}

/// All that goes to the model for a question about code, for reading.
pub fn code_prompt_diagnostic(
    system: &str,
    question: &str,
    project_name: &str,
    selected_file: &Option<CodeFile>,
    chunks: &Vec<ScoredCodeChunk>,
    messages: &Vec<ApiMessage>,
) -> (r: String)
    ensures
        r@ == "SYSTEM PROMPT\n"@ + system@ + "\n\nPREGUNTA DEL USUARIO\n"@ + question@
            + "\n\nPROYECTO ACTIVO\n"@ + project_name@ + "\n\nARCHIVO SELECCIONADO\n"@
            + selection_entry(opt_file(*selected_file)) + "\n\nCHUNKS DE CODIGO RECUPERADOS\n"@
            + code_entries(scored_code_views(chunks@)) + DIAGNOSTIC_MESSAGES@ + transcript(
            api_views(messages@),
        ),
{
    let mut r = "SYSTEM PROMPT\n".to_owned();
    r.append(system);
    r.append("\n\nPREGUNTA DEL USUARIO\n");
    r.append(question);
    r.append("\n\nPROYECTO ACTIVO\n");
    r.append(project_name);
    r.append("\n\nARCHIVO SELECCIONADO\n");
    r.append(selection_entry_text(selected_file).as_str());
    r.append("\n\nCHUNKS DE CODIGO RECUPERADOS\n");
    r.append(code_entries_text(chunks).as_str());
    r.append(DIAGNOSTIC_MESSAGES);
    r.append(transcript_text(messages).as_str());
    r
}

} // verus!
