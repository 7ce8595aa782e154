//! How a question is answered: where evidence is looked for, what the model is
//! asked, and what becomes of its reply.

use vstd::prelude::*;
use vstd::string::StringExecFns;

use crate::ai::conversation::{api_views, fitted, trim_history, ApiMessage, ApiView};
use crate::ai::overview::{
    analysis_sheets, analysis_views, checked_analysis, document_overview_analysis_prompt,
    library_overview_synthesis_prompt, normal, render_structured_library_overview,
    rendered_overview, validate_overview_analysis, wants_rows, cited_passages, ANALYSIS_BEFORE,
    ANALYSIS_EMPTY, ANALYSIS_RULES, GLOBAL_RULE, ROW_RULE, SYNTHESIS_BEFORE, SYNTHESIS_RULES,
    SYNTHESIS_TASK,
};
use crate::ai::process::{ServiceStatus, StatusView};
use crate::ai::prompts::{
    document_history_without_evidence, document_intent, evidence_prompt, evidence_sources,
    history_without_evidence, intent_of, rag_system_prompt, rag_system_prompt_with_documents,
    sources_of, DocumentIntent, OVERVIEW_ANALYSIS_MAX_TOKENS, OVERVIEW_SYNTHESIS_MAX_TOKENS,
};
use crate::ai::sanitize::{
    has_address, law_sanitized_has_no_address, sanitize_document_output, sanitized, splits_scheme,
    without_links,
};
use crate::code::prompt::{code_history, code_history_without_evidence};
use crate::code::search::allowed_view;
use crate::code::types::CodeProject;
use crate::models::{
    chunk_views, message_views, opt_text, source_views, Chunk, ChunkView, Document, Library, Message, MessageView,
    Profile, Score, ScoreView, Source, SourceView,
};
use crate::rag::search::{
    asks_globally, comparable, compared, document_views, documents_mentioned, global_literal_terms,
    law_compared, law_retrieved, lists, literal_words, mentioned_documents, overview_views, phrase, restrict_to_documents, retrieve,
    retrieve_comparison, retrieved, score_views, scored_views, share, DocumentOverviewInput,
    OverviewView, ScoredChunk, ScoredChunkView,
};
use crate::session::actions::{library_name, locate_project, name_of_library, project_with};
use crate::session::choices::after_request;
use crate::session::sources::{
    code_scope, library_scope, sources_for_code_scope, sources_for_library,
};
use crate::session::state::{Event, EventView};
use crate::text::{
    contains, decimal, decimal_string, join, joined, lemma_contains_add, lemma_contains_between,
    lemma_contains_chain, lemma_join_contains, lowercase, same, trim, views,
};

verus! {

// ------------------------------------------------------------------------- plan

/// Where a question is answered from.
#[derive(Debug, PartialEq, Eq)]
pub enum TurnPlan {
    /// The code of a project.
    Code(i64),
    /// No code at all, as no project is active.
    CodeWithoutProject,
    /// The conversation itself, though a library is active.
    DocumentMeta(i64),
    /// All documents of a library.
    LibraryOverview(i64),
    /// The passages of a library that hold certain words.
    LiteralSearch { library: i64, terms: Vec<String> },
    /// The passages of a library that are closest to the question.
    SemanticSearch(i64),
    /// What the model knows.
    Plain,
}

/// What a `TurnPlan` holds.
pub enum PlanView {
    Code(i64),
    CodeWithoutProject,
    DocumentMeta(i64),
    LibraryOverview(i64),
    LiteralSearch { library: i64, terms: Seq<Seq<char>> },
    SemanticSearch(i64),
    Plain,
}

impl View for TurnPlan {
    type V = PlanView;

    open spec fn view(&self) -> PlanView {
        match self {
            TurnPlan::Code(project) => PlanView::Code(*project),
            TurnPlan::CodeWithoutProject => PlanView::CodeWithoutProject,
            TurnPlan::DocumentMeta(library) => PlanView::DocumentMeta(*library),
            TurnPlan::LibraryOverview(library) => PlanView::LibraryOverview(*library),
            TurnPlan::LiteralSearch { library, terms } => PlanView::LiteralSearch {
                library: *library,
                terms: views(terms@),
            },
            TurnPlan::SemanticSearch(library) => PlanView::SemanticSearch(*library),
            TurnPlan::Plain => PlanView::Plain,
        }
    }
}

/// What is told of the prompt of a turn.
#[derive(Debug, Clone, Copy, PartialEq, Eq, Structural)]
pub enum Diagnostic {
    /// The code that was found, and the messages.
    Code,
    /// The passages of a library that were found, and the messages.
    Documents,
}

/// What is told of the prompt of a turn, if anything: only in diagnostic mode, for
/// questions about code and for those about the documents of a library.
pub fn diagnostic_of(diagnostic_mode: bool, profile: Profile, library: Option<i64>) -> (r: Option<
    Diagnostic,
>)
    ensures
        r == if !diagnostic_mode {
            None
        } else if profile == Profile::Code {
            Some(Diagnostic::Code)
        } else if profile == Profile::Documentation && library is Some {
            Some(Diagnostic::Documents)
        } else {
            None
        },
{
    if !diagnostic_mode {
        None
    } else if profile == Profile::Code {
        Some(Diagnostic::Code)
    } else if profile == Profile::Documentation {
        match library {
            Some(_) => Some(Diagnostic::Documents),
            None => None,
        }
    } else {
        None
    }
}

/// The words that a question asks for literally, in all of the library.
pub open spec fn words_asked_for(question: Seq<char>) -> Seq<Seq<char>> {
    if asks_globally(phrase(question)) {
        literal_words(question)
    } else {
        seq![]
    }
}

/// Where a question is answered from.
pub open spec fn turn_plan(
    profile: Profile,
    project: Option<i64>,
    library: Option<i64>,
    question: Seq<char>,
) -> PlanView {
    if profile == Profile::Code {
        match project {
            Some(id) => PlanView::Code(id),
            None => PlanView::CodeWithoutProject,
        }
    } else if profile == Profile::Documentation && library is Some {
        let id = library->0;
        match intent_of(lowercase(trim(question))) {
            DocumentIntent::Meta => PlanView::DocumentMeta(id),
            DocumentIntent::LibraryOverview => PlanView::LibraryOverview(id),
            DocumentIntent::DocumentQuery => if words_asked_for(question).len() > 0 {
                PlanView::LiteralSearch { library: id, terms: words_asked_for(question) }
            } else {
                PlanView::SemanticSearch(id)
            },
        }
    } else {
        PlanView::Plain
    }
}

/// Where a question is answered from, by the profile of its chat, the active
/// project and library, and what is asked.
pub fn plan_turn(profile: Profile, project: Option<i64>, library: Option<i64>, question: &str) -> (r:
    TurnPlan)
    ensures
        r@ == turn_plan(profile, project, library, question@),
{
    if profile == Profile::Code {
        return match project {
            Some(id) => TurnPlan::Code(id),
            None => TurnPlan::CodeWithoutProject,
        };
    }
    if profile == Profile::Documentation {
        if let Some(id) = library {
            return match document_intent(question) {
                DocumentIntent::Meta => TurnPlan::DocumentMeta(id),
                DocumentIntent::LibraryOverview => TurnPlan::LibraryOverview(id),
                DocumentIntent::DocumentQuery => {
                    let terms = global_literal_terms(question);
                    assert(views(terms@) == words_asked_for(question@));
                    if terms.len() > 0 {
                        TurnPlan::LiteralSearch { library: id, terms }
                    } else {
                        TurnPlan::SemanticSearch(id)
                    }
                },
            };
        }
    }
    TurnPlan::Plain
}

/// The answer rests on passages of the library.
pub open spec fn rests_on_documents(plan: PlanView) -> bool {
    plan is LibraryOverview || plan is LiteralSearch || plan is SemanticSearch
}

/// Whether the answer rests on passages of the library.
pub fn uses_evidence(plan: &TurnPlan) -> (r: bool)
    ensures
        r == rests_on_documents(plan@),
{
    match plan {
        TurnPlan::LibraryOverview(_) => true,
        TurnPlan::LiteralSearch { library: _, terms: _ } => true,
        TurnPlan::SemanticSearch(_) => true,
        _ => false,
    }
}

/// Documents are looked at only for a chat about documents with an active library,
/// and a project only for a chat about code.
pub proof fn law_modes_are_kept_apart(
    profile: Profile,
    project: Option<i64>,
    library: Option<i64>,
    question: Seq<char>,
)
    ensures
        rests_on_documents(turn_plan(profile, project, library, question)) ==> profile
            == Profile::Documentation && library is Some,
        turn_plan(profile, project, library, question) is Code ==> profile == Profile::Code,
        turn_plan(profile, project, library, question) matches PlanView::Code(id) ==> project
            == Some(id),
{
}

// ---------------------------------------------------------------------- history

/// The part of a conversation that may be repeated to the model.
pub open spec fn repeatable(profile: Profile, messages: Seq<MessageView>) -> Seq<MessageView> {
    match profile {
        Profile::Documentation => history_without_evidence(messages),
        Profile::Code => code_history(messages),
        _ => messages,
    }
}

/// The part of a conversation that may be repeated to the model: what was said on
/// the strength of other documents or code is left out.
pub fn turn_history(profile: Profile, messages: &Vec<Message>) -> (r: Vec<Message>)
    ensures
        message_views(r@) == repeatable(profile, message_views(messages@)),
{
    match profile {
        Profile::Documentation => document_history_without_evidence(messages.as_slice()),
        Profile::Code => code_history_without_evidence(messages.as_slice()),
        _ => copy_messages(messages),
    }
}

/// A copy of a list of messages.
pub fn copy_messages(v: &Vec<Message>) -> (r: Vec<Message>)
    ensures
        message_views(r@) == message_views(v@),
{
    let mut r: Vec<Message> = Vec::new();
    let mut i: usize = 0;
    while i < v.len()
        invariant
            i <= v.len(),
            message_views(r@) == message_views(v@).take(i as int),
        decreases v.len() - i,
    {
        let ghost before = message_views(r@);
        let m = v[i].clone();
        r.push(m);
        assert(message_views(r@) =~= before.push(m@));
        assert(message_views(r@) =~= message_views(v@).take(i + 1));
        i += 1;
    }
    assert(message_views(v@).take(i as int) =~= message_views(v@));
    r
}

// -------------------------------------------------------------------- documents

/// The documents that are ready, with their names.
pub open spec fn ready(documents: Seq<Document>) -> Seq<(i64, Seq<char>)>
    decreases documents.len(),
{
    if documents.len() == 0 {
        seq![]
    } else {
        let before = ready(documents.drop_last());
        let last = documents.last();
        if last.status@ == "listo"@ {
            before.push((last.id, last.name@))
        } else {
            before
        }
    }
}

/// The documents that are ready, with their names: only these are evidence.
pub fn ready_documents(documents: &Vec<Document>) -> (r: Vec<(i64, String)>)
    ensures
        document_views(r@) == ready(documents@),
{
    let mut r: Vec<(i64, String)> = Vec::new();
    let mut i: usize = 0;
    assert(document_views(r@) =~= ready(documents@.take(0)));
    while i < documents.len()
        invariant
            i <= documents.len(),
            document_views(r@) == ready(documents@.take(i as int)),
        decreases documents.len() - i,
    {
        assert(documents@.take(i + 1).drop_last() =~= documents@.take(i as int));
        if same(documents[i].status.as_str(), "listo") {
            let ghost before = document_views(r@);
            let name = documents[i].name.clone();
            r.push((documents[i].id, name));
            assert(document_views(r@) =~= before.push((documents@[i as int].id, name@)));
        }
        i += 1;
    }
    assert(documents@.take(i as int) =~= documents@);
    r
}

/// The numbers of listed documents.
pub open spec fn ids_of(documents: Seq<(i64, Seq<char>)>) -> Seq<i64> {
    documents.map_values(|d: (i64, Seq<char>)| d.0)
}

/// The numbers of listed documents.
pub fn document_ids(documents: &Vec<(i64, String)>) -> (r: Vec<i64>)
    ensures
        r@ == ids_of(document_views(documents@)),
{
    let mut r: Vec<i64> = Vec::new();
    let mut i: usize = 0;
    let ghost goal = ids_of(document_views(documents@));
    while i < documents.len()
        invariant
            i <= documents.len(),
            goal == ids_of(document_views(documents@)),
            r@ == goal.take(i as int),
        decreases documents.len() - i,
    {
        r.push(documents[i].0);
        assert(r@ =~= goal.take(i + 1));
        i += 1;
    }
    assert(goal.take(i as int) =~= goal);
    r
}

/// The chunks among which a question is searched: those of the one document that it
/// names, or all.
pub open spec fn searched(chunks: Seq<ChunkView>, question: Seq<char>) -> Seq<ChunkView> {
    let named = documents_mentioned(chunks, question);
    if named.len() == 1 {
        chunks.filter(|c: ChunkView| lists(named, c.document_id))
    } else {
        chunks
    }
}

/// The chunks among which a question is searched, and the documents that it names.
pub fn search_scope(chunks: Vec<Chunk>, question: &str) -> (r: (Vec<Chunk>, Vec<(i64, String)>))
    ensures
        document_views(r.1@) == documents_mentioned(chunk_views(chunks@), question@),
        chunk_views(r.0@) == searched(chunk_views(chunks@), question@),
{
    let named = mentioned_documents(chunks.as_slice(), question);
    assert(document_views(named@).len() == named@.len());
    if named.len() == 1 {
        (restrict_to_documents(&chunks, &named), named)
    } else {
        (chunks, named)
    }
}

/// The passages that answer a question: the best of each document where several
/// are named.
pub open spec fn passages(
    items: Seq<ScoredChunkView>,
    question: Seq<char>,
    k: nat,
    named: Seq<(i64, Seq<char>)>,
) -> Seq<ScoredChunkView> {
    if named.len() > 1 {
        if k == 0 {
            seq![]
        } else {
            compared(items, named, share(k, named.len()))
        }
    } else {
        retrieved(items, question, k)
    }
}

/// The passages that answer a question, from chunks with their scores.
pub fn find_passages(
    chunks: &Vec<Chunk>,
    scores: &Vec<Score>,
    dimensions: usize,
    question: &str,
    k: usize,
    named: &Vec<(i64, String)>,
) -> (r: Vec<ScoredChunk>)
    requires
        chunks@.len() == scores@.len(),
    ensures
        scored_views(r@) == passages(
            comparable(chunk_views(chunks@), score_views(scores@), dimensions as nat),
            question@,
            k as nat,
            document_views(named@),
        ),
{
    assert(document_views(named@).len() == named@.len());
    if named.len() > 1 {
        retrieve_comparison(chunks, scores, dimensions, k, named)
    } else {
        retrieve(chunks, scores, dimensions, question, k)
    }
}

/// Libraries stay apart: every passage that is found is one of the chunks that were
/// searched, and with several named documents, of one of these.
pub proof fn law_passages_keep_to_the_chunks(
    chunks: Seq<ChunkView>,
    scores: Seq<ScoreView>,
    dimensions: nat,
    question: Seq<char>,
    k: nat,
    named: Seq<(i64, Seq<char>)>,
    found: ScoredChunkView,
)
    requires
        passages(comparable(chunks, scores, dimensions), question, k, named).contains(found),
    ensures
        chunks.contains(found.chunk),
        found.chunk.embedding.len() == dimensions,
        named.len() > 1 ==> lists(named, found.chunk.document_id),
{
    let items = comparable(chunks, scores, dimensions);
    if named.len() > 1 {
        if k > 0 {
            law_compared(items, named, share(k, named.len()));
        }
    } else {
        law_retrieved(items, question, k);
    }
    lemma_comparable_from(chunks, scores, dimensions, found);
}

proof fn lemma_comparable_from(
    chunks: Seq<ChunkView>,
    scores: Seq<ScoreView>,
    dimensions: nat,
    found: ScoredChunkView,
)
    requires
        comparable(chunks, scores, dimensions).contains(found),
    ensures
        chunks.contains(found.chunk),
        found.chunk.embedding.len() == dimensions,
    decreases chunks.len(),
{
    if chunks.len() > 0 {
        let items = comparable(chunks, scores, dimensions);
        let before = comparable(chunks.drop_last(), scores, dimensions);
        let i = items.index_of(found);
        if i < before.len() {
            assert(before[i] == found);
            lemma_comparable_from(chunks.drop_last(), scores, dimensions, found);
            let j = chunks.drop_last().index_of(found.chunk);
            assert(chunks[j] == found.chunk);
        } else {
            assert(chunks[chunks.len() - 1] == found.chunk);
        }
    }
}

/// A question that names one document is searched in that document alone.
pub proof fn law_named_document_is_searched_alone(
    chunks: Seq<ChunkView>,
    question: Seq<char>,
    found: ChunkView,
)
    requires
        documents_mentioned(chunks, question).len() == 1,
        searched(chunks, question).contains(found),
    ensures
        found.document_id == documents_mentioned(chunks, question)[0].0,
        chunks.contains(found),
{
    let named = documents_mentioned(chunks, question);
    let keep = |c: ChunkView| lists(named, c.document_id);
    chunks.lemma_filter_contains_rev(keep, found);
    let i = searched(chunks, question).index_of(found);
    chunks.lemma_filter_pred(keep, i);
}

/// The instruction for passages of documents, and the sources that go with it.
pub fn passages_prompt(profile: Profile, found: &Vec<ScoredChunk>, named: &Vec<(i64, String)>) -> (r: (
    String,
    Vec<Source>,
))
    ensures
        r.0@ == evidence_prompt(
            profile,
            scored_views(found@),
            if named@.len() > 1 {
                document_views(named@)
            } else {
                seq![]
            },
        ),
        source_views(r.1@) == if named@.len() > 1 {
            evidence_sources(scored_views(found@), document_views(named@))
        } else {
            sources_of(scored_views(found@))
        },
{
    if named.len() > 1 {
        rag_system_prompt_with_documents(profile, found, named)
    } else {
        rag_system_prompt(profile, found)
    }
}

/// The answer where no passage holds the words that were asked for.
pub open spec fn nothing_found(terms: Seq<Seq<char>>, documents: nat, library: Seq<char>) -> Seq<char> {
    "No se encontro el termino exacto '"@ + join(terms, "', '"@) + "' tras revisar los "@
        + decimal(documents) + " documentos disponibles en la biblioteca "@ + library + "."@
}

/// The answer that needs no model: that no passage holds the words.
pub fn direct_answer(
    found: &Vec<ScoredChunk>,
    terms: &Vec<String>,
    documents: usize,
    library: &str,
) -> (r: Option<String>)
    ensures
        match r {
            Some(answer) => found@.len() == 0 && answer@ == sanitized(
                nothing_found(views(terms@), documents as nat, library@),
            ),
            None => found@.len() > 0,
        },
{
    if found.len() > 0 {
        return None;
    }
    let mut text = "No se encontro el termino exacto '".to_owned();
    text.append(joined(terms.as_slice(), "', '").as_str());
    text.append("' tras revisar los ");
    text.append(decimal_string(documents as u128).as_str());
    text.append(" documentos disponibles en la biblioteca ");
    text.append(library);
    text.append(".");
    assert(text@ =~= nothing_found(views(terms@), documents as nat, library@));
    Some(sanitize_document_output(text.as_str()))
}

/// What stands before the names of the documents.
pub const CONTEXT_LIBRARY: &'static str =
    "\n\nCONTEXTO DOCUMENTAL ACTUAL\nBiblioteca actual: ";

/// What stands between the library and its documents.
pub const CONTEXT_DOCUMENTS: &'static str = "\nDocumentos permitidos:\n";

/// What stands behind the names of the documents.
pub const CONTEXT_RULE: &'static str =
    "\nSolo este contexto y sus fragmentos son evidencia documental para el turno actual. El historial conversacional no es una fuente y no puede atribuirse a estos archivos.";

/// The names of the documents, one on a line.
pub open spec fn name_lines(documents: Seq<(i64, Seq<char>)>) -> Seq<Seq<char>> {
    documents.map_values(|d: (i64, Seq<char>)| "- "@ + d.1)
}

/// What is added to an instruction so that the model keeps to the library.
pub open spec fn library_context(library: Seq<char>, documents: Seq<(i64, Seq<char>)>) -> Seq<char> {
    CONTEXT_LIBRARY@ + library + CONTEXT_DOCUMENTS@ + join(name_lines(documents), "\n"@)
        + CONTEXT_RULE@
}

/// The instruction with the library and the documents that the model keeps to.
pub fn with_library_context(system: String, library: &str, documents: &Vec<(i64, String)>) -> (r:
    String)
    ensures
        r@ == system@ + library_context(library@, document_views(documents@)),
{
    let ghost goal = name_lines(document_views(documents@));
    let mut names: Vec<String> = Vec::new();
    let mut i: usize = 0;
    while i < documents.len()
        invariant
            i <= documents.len(),
            goal == name_lines(document_views(documents@)),
            views(names@) == goal.take(i as int),
        decreases documents.len() - i,
    {
        let ghost before = views(names@);
        let mut line = "- ".to_owned();
        line.append(documents[i].1.as_str());
        names.push(line);
        assert(views(names@) =~= before.push(line@));
        assert(views(names@) =~= goal.take(i + 1));
        i += 1;
    }
    assert(goal.take(i as int) =~= goal);
    let mut r = system;
    r.append(CONTEXT_LIBRARY);
    r.append(library);
    r.append(CONTEXT_DOCUMENTS);
    r.append(joined(names.as_slice(), "\n").as_str());
    r.append(CONTEXT_RULE);
    assert(r@ =~= system@ + library_context(library@, document_views(documents@)));
    r
}

/// What the model keeps to names the library and every document of it; an answer that
/// nothing was found names the library and every word that was looked for.
pub proof fn law_library_is_named(
    library: Seq<char>,
    documents: Seq<(i64, Seq<char>)>,
    terms: Seq<Seq<char>>,
    n: nat,
)
    ensures
        contains(library_context(library, documents), library),
        forall|d: int|
            0 <= d < documents.len() ==> contains(
                library_context(library, documents),
                (#[trigger] documents[d]).1,
            ),
        contains(nothing_found(terms, n, library), library),
        forall|k: int|
            0 <= k < terms.len() ==> contains(
                nothing_found(terms, n, library),
                #[trigger] terms[k],
            ),
{
    let names = name_lines(documents);
    let listed = join(names, "\n"@);
    let head = CONTEXT_LIBRARY@ + library + CONTEXT_DOCUMENTS@;
    let whole = library_context(library, documents);
    lemma_contains_between(
        CONTEXT_LIBRARY@,
        library,
        CONTEXT_DOCUMENTS@ + listed + CONTEXT_RULE@,
    );
    assert(CONTEXT_LIBRARY@ + library + (CONTEXT_DOCUMENTS@ + listed + CONTEXT_RULE@) =~= whole);
    assert forall|d: int| 0 <= d < documents.len() implies contains(
        whole,
        (#[trigger] documents[d]).1,
    ) by {
        let name = documents[d].1;
        lemma_join_contains(names, "\n"@, d);
        lemma_contains_between("- "@, name, seq![]);
        assert("- "@ + name + seq![] =~= names[d]);
        lemma_contains_chain(listed, names[d], name);
        lemma_contains_add(head, listed, name);
        lemma_contains_add(head + listed, CONTEXT_RULE@, name);
    }
    let before = "No se encontro el termino exacto '"@;
    let all = join(terms, "', '"@);
    let middle = "' tras revisar los "@ + decimal(n)
        + " documentos disponibles en la biblioteca "@;
    let text = nothing_found(terms, n, library);
    assert(text =~= before + all + middle + library + "."@);
    lemma_contains_between(before + all + middle, library, "."@);
    assert forall|k: int| 0 <= k < terms.len() implies contains(text, #[trigger] terms[k]) by {
        lemma_join_contains(terms, "', '"@, k);
        lemma_contains_add(before, all, terms[k]);
        lemma_contains_add(before + all, middle + library + "."@, terms[k]);
        assert(before + all + (middle + library + "."@) =~= text);
    }
}

/// The sources that an answer may show, by where it was looked for.
pub open spec fn shown_sources(
    plan: PlanView,
    sources: Seq<SourceView>,
    files: Option<Seq<i64>>,
    documents: Seq<i64>,
) -> Seq<SourceView> {
    match plan {
        PlanView::Code(project) => code_scope(sources, project, files),
        PlanView::DocumentMeta(library) => library_scope(sources, library, documents),
        PlanView::LibraryOverview(library) => library_scope(sources, library, documents),
        PlanView::LiteralSearch { library, terms: _ } => library_scope(sources, library, documents),
        PlanView::SemanticSearch(library) => library_scope(sources, library, documents),
        PlanView::CodeWithoutProject => sources,
        PlanView::Plain => sources,
    }
}

/// The sources that an answer may show: those of the project and of the files that
/// were looked through, or those of the ready documents of the library.
pub fn turn_sources(
    plan: &TurnPlan,
    sources: Vec<Source>,
    files: &Option<Vec<i64>>,
    documents: &Vec<i64>,
) -> (r: Vec<Source>)
    ensures
        source_views(r@) == shown_sources(
            plan@,
            source_views(sources@),
            allowed_view(*files),
            documents@,
        ),
{
    match plan {
        TurnPlan::Code(project) => sources_for_code_scope(&sources, *project, files),
        TurnPlan::DocumentMeta(library) => sources_for_library(&sources, *library, documents),
        TurnPlan::LibraryOverview(library) => sources_for_library(&sources, *library, documents),
        TurnPlan::LiteralSearch { library, terms: _ } => sources_for_library(
            &sources,
            *library,
            documents,
        ),
        TurnPlan::SemanticSearch(library) => sources_for_library(&sources, *library, documents),
        TurnPlan::CodeWithoutProject => sources,
        TurnPlan::Plain => sources,
    }
}

/// The name of the project that is talked about.
pub fn name_of_project(projects: &Vec<CodeProject>, active: Option<i64>) -> (r: String)
    ensures
        r@ == match active {
            Some(id) => match project_with(projects@, id) {
                Some(project) => project.name@,
                None => "Sin proyecto"@,
            },
            None => "Sin proyecto"@,
        },
{
    if let Some(id) = active {
        if let Some(i) = locate_project(projects, id) {
            return projects[i].name.clone();
        }
    }
    "Sin proyecto".to_owned()
}

/// The name of the library that is talked about.
pub fn name_of_active_library(libraries: &Vec<Library>, active: Option<i64>) -> (r: String)
    ensures
        r@ == match active {
            Some(id) => match name_of_library(libraries@, id) {
                Some(name) => name,
                None => "Sin biblioteca"@,
            },
            None => "Sin biblioteca"@,
        },
{
    if let Some(id) = active {
        if let Some(name) = library_name(libraries, id) {
            return name;
        }
    }
    "Sin biblioteca".to_owned()
}

// ------------------------------------------------------------------------- turn

/// What is asked for one document of an overview.
pub const ANALYSIS_QUESTION: &'static str = "Produce el analisis individual de este documento.";

/// What is asked for all documents of an overview.
pub const SYNTHESIS_QUESTION: &'static str =
    "Produce la sintesis global sin repetir las secciones por documento.";

/// A question on its way to an answer. Where it is about a whole library, each
/// document is first analysed by itself.
#[derive(Debug, PartialEq, Eq)]
pub struct Turn {
    pub profile: Profile,
    pub question: String,
    pub system: String,
    pub history: Vec<Message>,
    pub inputs: Vec<DocumentOverviewInput>,
    pub analyses: Vec<(i64, String, String)>,
    pub context_size: usize,
    pub max_tokens: usize,
}

/// What a `Turn` holds.
pub struct TurnView {
    pub profile: Profile,
    pub question: Seq<char>,
    pub system: Seq<char>,
    pub history: Seq<MessageView>,
    pub inputs: Seq<OverviewView>,
    pub analyses: Seq<(i64, Seq<char>, Seq<char>)>,
    pub context_size: nat,
    pub max_tokens: nat,
}

impl View for Turn {
    type V = TurnView;

    open spec fn view(&self) -> TurnView {
        TurnView {
            profile: self.profile,
            question: self.question@,
            system: self.system@,
            history: message_views(self.history@),
            inputs: overview_views(self.inputs@),
            analyses: analysis_views(self.analyses@),
            context_size: self.context_size as nat,
            max_tokens: self.max_tokens as nat,
        }
    }
}

/// What is done next for a question.
#[derive(Debug, PartialEq, Eq)]
pub enum TurnAction {
    /// The answer was given up.
    Stop,
    /// The model analyses a document.
    Analyse { stage: String, messages: Vec<ApiMessage>, max_tokens: usize },
    /// The model answers.
    Answer { label: Option<String>, messages: Vec<ApiMessage>, max_tokens: usize },
}

/// What a `TurnAction` holds.
pub enum ActionView {
    Stop,
    Analyse { stage: Seq<char>, messages: Seq<ApiView>, max_tokens: nat },
    Answer { label: Option<Seq<char>>, messages: Seq<ApiView>, max_tokens: nat },
}

impl View for TurnAction {
    type V = ActionView;

    open spec fn view(&self) -> ActionView {
        match self {
            TurnAction::Stop => ActionView::Stop,
            TurnAction::Analyse { stage, messages, max_tokens } => ActionView::Analyse {
                stage: stage@,
                messages: api_views(messages@),
                max_tokens: *max_tokens as nat,
            },
            TurnAction::Answer { label, messages, max_tokens } => ActionView::Answer {
                label: opt_text(*label),
                messages: api_views(messages@),
                max_tokens: *max_tokens as nat,
            },
        }
    }
}

/// The smaller of two numbers.
pub open spec fn smaller(a: nat, b: nat) -> nat {
    if a < b {
        a
    } else {
        b
    }
}

/// The instruction with which the analyses become one answer.
pub open spec fn synthesis_system(analyses: Seq<(i64, Seq<char>, Seq<char>)>, question: Seq<char>) -> Seq<char> {
    SYNTHESIS_BEFORE@ + question + SYNTHESIS_TASK@
        + if wants_rows(normal(question)) {
        ROW_RULE@
    } else {
        GLOBAL_RULE@
    } + SYNTHESIS_RULES@ + analysis_sheets(analyses)
}

/// The instruction with which one document is analysed.
pub open spec fn analysis_system(document: OverviewView, question: Seq<char>) -> Seq<char> {
    ANALYSIS_BEFORE@ + document.filename + ". Pregunta: "@ + question
        + ANALYSIS_RULES@ + if document.chunks.len() == 0 {
        ANALYSIS_EMPTY@
    } else {
        cited_passages(document.chunks)
    }
}

impl TurnView {
    /// No document is analysed twice, and each analysis is of its document.
    pub open spec fn wf(self) -> bool {
        &&& self.analyses.len() <= self.inputs.len()
        &&& forall|i: int|
            0 <= i < self.analyses.len() ==> (#[trigger] self.analyses[i]).0
                == self.inputs[i].document_id && self.analyses[i].1 == self.inputs[i].filename
    }

    /// How often the model is still asked.
    pub open spec fn requests_left(self) -> int {
        self.inputs.len() - self.analyses.len() + 1
    }

    /// What is done next.
    pub open spec fn next(self, cancelled: bool) -> ActionView {
        let n = self.analyses.len() as int;
        if n < self.inputs.len() {
            if cancelled {
                ActionView::Stop
            } else {
                let limit = smaller(self.max_tokens, OVERVIEW_ANALYSIS_MAX_TOKENS as nat);
                ActionView::Analyse {
                    stage: "Analizando documento "@ + decimal((n + 1) as nat) + " de "@ + decimal(
                        self.inputs.len(),
                    ) + "..."@,
                    messages: fitted(
                        analysis_system(self.inputs[n], self.question),
                        seq![],
                        ANALYSIS_QUESTION@,
                        self.context_size,
                        limit,
                    ),
                    max_tokens: limit,
                }
            }
        } else if n > 0 {
            let limit = smaller(self.max_tokens, OVERVIEW_SYNTHESIS_MAX_TOKENS as nat);
            ActionView::Answer {
                label: Some("Sintetizando..."@),
                messages: fitted(
                    synthesis_system(self.analyses, self.question),
                    seq![],
                    SYNTHESIS_QUESTION@,
                    self.context_size,
                    limit,
                ),
                max_tokens: limit,
            }
        } else {
            ActionView::Answer {
                label: None,
                messages: fitted(
                    self.system,
                    self.history,
                    self.question,
                    self.context_size,
                    self.max_tokens,
                ),
                max_tokens: self.max_tokens,
            }
        }
    }

    /// The model has analysed the next document.
    pub open spec fn analysed(self, reply: Seq<char>) -> TurnView {
        let document = self.inputs[self.analyses.len() as int];
        TurnView {
            analyses: self.analyses.push(
                (document.document_id, document.filename, checked_analysis(document, reply)),
            ),
            ..self
        }
    }

    /// The answer, made of the reply of the model.
    pub open spec fn answer(self, reply: Seq<char>) -> Seq<char> {
        if self.analyses.len() > 0 {
            rendered_overview(self.analyses, sanitized(reply), wants_rows(normal(self.question)))
        } else if self.profile == Profile::Documentation {
            sanitized(reply)
        } else {
            reply
        }
    }
}

impl Turn {
    /// What is done next. Giving up counts before each document.
    pub fn next(&self, cancelled: bool) -> (r: TurnAction)
        requires
            self@.wf(),
        ensures
            r@ == self@.next(cancelled),
    {
        let n = self.analyses.len();
        assert(self@.analyses.len() == n);
        assert(self@.inputs.len() == self.inputs@.len());
        if n < self.inputs.len() {
            if cancelled {
                return TurnAction::Stop;
            }
            assert(self@.inputs[n as int] == self.inputs@[n as int]@);
            let max_tokens = if self.max_tokens < OVERVIEW_ANALYSIS_MAX_TOKENS {
                self.max_tokens
            } else {
                OVERVIEW_ANALYSIS_MAX_TOKENS
            };
            let mut stage = "Analizando documento ".to_owned();
            stage.append(decimal_string(n as u128 + 1).as_str());
            stage.append(" de ");
            stage.append(decimal_string(self.inputs.len() as u128).as_str());
            stage.append("...");
            let system = document_overview_analysis_prompt(
                &self.inputs[n],
                self.question.as_str(),
            );
            let nothing: Vec<Message> = Vec::new();
            assert(message_views(nothing@) =~= seq![]);
            let messages = trim_history(
                system,
                nothing.as_slice(),
                ANALYSIS_QUESTION,
                self.context_size,
                max_tokens,
            );
            TurnAction::Analyse { stage, messages, max_tokens }
        } else if n > 0 {
            let max_tokens = if self.max_tokens < OVERVIEW_SYNTHESIS_MAX_TOKENS {
                self.max_tokens
            } else {
                OVERVIEW_SYNTHESIS_MAX_TOKENS
            };
            let system = library_overview_synthesis_prompt(&self.analyses, self.question.as_str());
            let nothing: Vec<Message> = Vec::new();
            assert(message_views(nothing@) =~= seq![]);
            let messages = trim_history(
                system,
                nothing.as_slice(),
                SYNTHESIS_QUESTION,
                self.context_size,
                max_tokens,
            );
            TurnAction::Answer { label: Some("Sintetizando...".to_owned()), messages, max_tokens }
        } else {
            let messages = trim_history(
                self.system.clone(),
                self.history.as_slice(),
                self.question.as_str(),
                self.context_size,
                self.max_tokens,
            );
            TurnAction::Answer { label: None, messages, max_tokens: self.max_tokens }
        }
    }

    /// Takes the reply of the model on the next document: what its passages do not
    /// support is left out.
    pub fn analysed(&mut self, reply: &str)
        requires
            old(self)@.wf(),
            old(self)@.analyses.len() < old(self)@.inputs.len(),
        ensures
            final(self)@ == old(self)@.analysed(reply@),
            final(self)@.wf(),
            final(self)@.requests_left() == old(self)@.requests_left() - 1,
    {
        let n = self.analyses.len();
        assert(self@.inputs[n as int] == self.inputs@[n as int]@);
        let text = validate_overview_analysis(&self.inputs[n], reply);
        let name = self.inputs[n].filename.clone();
        let id = self.inputs[n].document_id;
        let ghost before = analysis_views(self.analyses@);
        self.analyses.push((id, name, text));
        assert(analysis_views(self.analyses@) =~= before.push((id, name@, text@)));
    }

    /// The answer, made of the reply of the model.
    pub fn finish(&self, reply: String) -> (r: String)
        ensures
            r@ == self@.answer(reply@),
    {
        assert(self@.analyses.len() == self.analyses@.len());
        if self.analyses.len() > 0 {
            render_structured_library_overview(
                &self.analyses,
                reply.as_str(),
                self.question.as_str(),
            )
        } else if self.profile == Profile::Documentation {
            sanitize_document_output(reply.as_str())
        } else {
            reply
        }
    }
}

/// The individual analyses are never part of the conversation that is repeated: what
/// the model is asked in an overview does not depend on it.
pub proof fn law_overview_forgets_history(t: TurnView, history: Seq<MessageView>, cancelled: bool)
    requires
        t.inputs.len() > 0,
    ensures
        t.next(cancelled) == (TurnView { history, ..t }).next(cancelled),
{
}

/// Nothing that a chat about documents shows holds the text of an address, as long
/// as none is put together by what is taken out.
pub proof fn law_document_answers_hold_no_address(t: TurnView, reply: Seq<char>)
    requires
        t.profile == Profile::Documentation,
        t.analyses.len() == 0,
        !splits_scheme(without_links(reply)),
    ensures
        !has_address(t.answer(reply)),
{
    law_sanitized_has_no_address(reply);
}

// ---------------------------------------------------------------------- the end

/// Whether an answer that could not be streamed is asked for in one piece: nothing of
/// it has come, it was not given up, and the model did not refuse the form of the
/// conversation.
pub fn asks_again(received: bool, cancelled: bool, template_error: bool) -> (r: bool)
    ensures
        r == (!received && !cancelled && !template_error),
{
    !received && !cancelled && !template_error
}

/// What is told of a turn that ended: how the chat service fared, if that is new, and
/// that the turn is over.
pub fn turn_outcome(cancelled: bool, result: Result<i64, String>) -> (r: (
    Option<ServiceStatus>,
    Event,
))
    ensures
        r.1@ == if cancelled {
            EventView::ChatCancelled
        } else {
            Event::ChatFinished(result)@
        },
        match r.0 {
            Some(status) => !cancelled && result is Err && status@ == after_request(
                Some(result->Err_0@),
            ),
            None => cancelled || result is Ok,
        },
{
    if cancelled {
        return (None, Event::ChatCancelled);
    }
    match result {
        Ok(chat) => (None, Event::ChatFinished(Ok(chat))),
        Err(error) => {
            let status = ServiceStatus::Error(error.clone());
            (Some(status), Event::ChatFinished(Err(error)))
        },
    }
}

/// The state of the embedding service after a search, and whether it is stopped: only
/// one that was started here is.
pub fn embedding_after_search(searched: bool, owned: bool) -> (r: (bool, ServiceStatus))
    ensures
        r.0 == (searched && owned),
        r.1@ == if r.0 {
            StatusView::Disconnected
        } else {
            StatusView::Ready
        },
{
    if searched && owned {
        (true, ServiceStatus::Disconnected)
    } else {
        (false, ServiceStatus::Ready)
    }
}

/// How long the analysis of one document took.
pub open spec fn timing_text(index: nat, total: nat, ms: u128) -> Seq<char> {
    "documento "@ + decimal(index) + "/"@ + decimal(total) + ": "@ + decimal(ms as nat) + " ms"@
}

/// How long the analysis of each document took.
pub open spec fn timing_texts(ms: Seq<u128>) -> Seq<Seq<char>> {
    Seq::new(ms.len(), |i: int| timing_text((i + 1) as nat, ms.len(), ms[i]))
}

/// How long the parts of an overview took.
pub fn overview_metrics(
    preparation_ms: u128,
    retrieval_ms: u128,
    documents_ms: &Vec<u128>,
    synthesis_ms: u128,
    total_ms: u128,
    max_tokens: usize,
) -> (r: String)
    ensures
        r@ == "overview: preparacion "@ + decimal(preparation_ms as nat)
            + " ms | retrieval representativo "@ + decimal(retrieval_ms as nat) + " ms | "@ + join(
            timing_texts(documents_ms@),
            " | "@,
        ) + " | sintesis "@ + decimal(synthesis_ms as nat) + " ms | total "@ + decimal(
            total_ms as nat,
        ) + " ms | limite ficha "@ + decimal(
            smaller(max_tokens as nat, OVERVIEW_ANALYSIS_MAX_TOKENS as nat),
        ) + " tokens | limite sintesis "@ + decimal(
            smaller(max_tokens as nat, OVERVIEW_SYNTHESIS_MAX_TOKENS as nat),
        ) + " tokens"@,
{
    let ghost goal = timing_texts(documents_ms@);
    let mut timings: Vec<String> = Vec::new();
    let mut i: usize = 0;
    while i < documents_ms.len()
        invariant
            i <= documents_ms.len(),
            goal == timing_texts(documents_ms@),
            views(timings@) == goal.take(i as int),
        decreases documents_ms.len() - i,
    {
        let ghost before = views(timings@);
        let mut line = "documento ".to_owned();
        line.append(decimal_string(i as u128 + 1).as_str());
        line.append("/");
        line.append(decimal_string(documents_ms.len() as u128).as_str());
        line.append(": ");
        line.append(decimal_string(documents_ms[i]).as_str());
        line.append(" ms");
        timings.push(line);
        assert(line@ =~= goal[i as int]);
        assert(views(timings@) =~= before.push(line@));
        assert(views(timings@) =~= goal.take(i + 1));
        i += 1;
    }
    assert(goal.take(i as int) =~= goal);
    let analysis = if max_tokens < OVERVIEW_ANALYSIS_MAX_TOKENS {
        max_tokens
    } else {
        OVERVIEW_ANALYSIS_MAX_TOKENS
    };
    let synthesis = if max_tokens < OVERVIEW_SYNTHESIS_MAX_TOKENS {
        max_tokens
    } else {
        OVERVIEW_SYNTHESIS_MAX_TOKENS
    };
    let mut r = "overview: preparacion ".to_owned();
    r.append(decimal_string(preparation_ms).as_str());
    r.append(" ms | retrieval representativo ");
    r.append(decimal_string(retrieval_ms).as_str());
    r.append(" ms | ");
    r.append(joined(timings.as_slice(), " | ").as_str());
    r.append(" | sintesis ");
    r.append(decimal_string(synthesis_ms).as_str());
    r.append(" ms | total ");
    r.append(decimal_string(total_ms).as_str());
    r.append(" ms | limite ficha ");
    r.append(decimal_string(analysis as u128).as_str());
    r.append(" tokens | limite sintesis ");
    r.append(decimal_string(synthesis as u128).as_str());
    r.append(" tokens");
    r
}

/// While documents are left, the next of them is analysed, and each analysis is put down
/// for its own document; when none is left, the answer is asked for.
pub proof fn law_documents_are_analysed_in_order(turn: TurnView, reply: Seq<char>)
    requires
        turn.wf(),
    ensures
        turn.analyses.len() < turn.inputs.len() ==> {
            let d = turn.inputs[turn.analyses.len() as int];
            let after = turn.analysed(reply);
            &&& turn.next(false) is Analyse
            &&& turn.next(true) is Stop
            &&& after.wf()
            &&& after.inputs == turn.inputs
            &&& after.analyses.drop_last() == turn.analyses
            &&& after.analyses.last().0 == d.document_id
            &&& after.analyses.last().1 == d.filename
            &&& after.requests_left() == turn.requests_left() - 1
        },
        turn.analyses.len() == turn.inputs.len() ==> turn.next(false) is Answer && turn.next(
            true,
        ) is Answer && turn.requests_left() == 1,
{
    if turn.analyses.len() < turn.inputs.len() {
        let after = turn.analysed(reply);
        assert(after.analyses.drop_last() =~= turn.analyses);
        assert forall|i: int| 0 <= i < after.analyses.len() implies (
        #[trigger] after.analyses[i]).0 == after.inputs[i].document_id && after.analyses[i].1
            == after.inputs[i].filename by {
            if i < turn.analyses.len() {
                assert(after.analyses[i] == turn.analyses[i]);
            }
        }
    }
}

/// The model is told the name of the document that it analyses, its passages and the
/// question; for the answer it is told the question and all analyses.
pub proof fn law_instructions_hold_the_question(
    document: OverviewView,
    analyses: Seq<(i64, Seq<char>, Seq<char>)>,
    question: Seq<char>,
)
    ensures
        contains(analysis_system(document, question), document.filename),
        contains(analysis_system(document, question), question),
        document.chunks.len() > 0 ==> contains(
            analysis_system(document, question),
            cited_passages(document.chunks),
        ),
        contains(synthesis_system(analyses, question), question),
        contains(synthesis_system(analyses, question), analysis_sheets(analyses)),
{
    let evidence = if document.chunks.len() == 0 {
        ANALYSIS_EMPTY@
    } else {
        cited_passages(document.chunks)
    };
    let asked = ". Pregunta: "@;
    let whole = analysis_system(document, question);
    lemma_contains_between(
        ANALYSIS_BEFORE@,
        document.filename,
        asked + question + ANALYSIS_RULES@ + evidence,
    );
    assert(ANALYSIS_BEFORE@ + document.filename + (asked + question + ANALYSIS_RULES@ + evidence)
        =~= whole);
    lemma_contains_between(
        ANALYSIS_BEFORE@ + document.filename + asked,
        question,
        ANALYSIS_RULES@ + evidence,
    );
    assert(ANALYSIS_BEFORE@ + document.filename + asked + question + (ANALYSIS_RULES@ + evidence)
        =~= whole);
    lemma_contains_between(
        ANALYSIS_BEFORE@ + document.filename + asked + question + ANALYSIS_RULES@,
        evidence,
        seq![],
    );
    assert(whole + seq![] =~= whole);
    let rule = if wants_rows(normal(question)) {
        ROW_RULE@
    } else {
        GLOBAL_RULE@
    };
    let sheets = analysis_sheets(analyses);
    let all = synthesis_system(analyses, question);
    lemma_contains_between(
        SYNTHESIS_BEFORE@,
        question,
        SYNTHESIS_TASK@ + rule + SYNTHESIS_RULES@ + sheets,
    );
    assert(SYNTHESIS_BEFORE@ + question + (SYNTHESIS_TASK@ + rule + SYNTHESIS_RULES@ + sheets)
        =~= all);
    lemma_contains_between(
        SYNTHESIS_BEFORE@ + question + SYNTHESIS_TASK@ + rule + SYNTHESIS_RULES@,
        sheets,
        seq![],
    );
    assert(all + seq![] =~= all);
}

} // verus!
