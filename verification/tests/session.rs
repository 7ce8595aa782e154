use std::collections::HashMap;

use kuznor::ai::process::{
    command_spec, llama_candidates, plan_service, server_arguments, startup_step, CommandSpec,
    EnsurePlan, ProcessManager, ServiceKind, ServiceStatus, StartupStep,
};
use kuznor::code::types::{CodeFile, CodeProject, CodeProjectStatus, ScanReport, ScannedCodeFile};
use kuznor::config::Settings;
use kuznor::documents::{ParsedDocument, ParsedSection};
use kuznor::models::{Chat, Chunk, Document, Library, Message, Profile, Score, Source};
use kuznor::rag::search::{DocumentOverviewInput, ScoredChunk};
use kuznor::session::actions::Effect;
use kuznor::session::choices::{
    active_library_for_sidebar, active_profile, automatic_title, captured_code_file,
    chat_status_after_health, chat_view_for_profile, choose_data_file, compact_status,
    configuration_report, generation_belongs_to_chat, initial_project, is_retired, last_chat,
    mode_key, new_title, notice_for, performance_text, service_description, startup_view,
    status_after_health, status_after_request, valid_selected_code_file, DataFile, Screen,
};
use kuznor::session::indexing::{
    code_index_outcome, cut_document, document_ready_text, is_unchanged, next_batch,
    number_chunks, plan_document, project_name, single_file_report, CodeRun, DocumentPlan,
};
use kuznor::session::sources::{sources_for_code_scope, sources_for_library};
use kuznor::session::state::{forces_repaint, Event, Followup, Session};
use kuznor::session::turn::{
    asks_again, diagnostic_of, direct_answer, document_ids, embedding_after_search, find_passages,
    name_of_active_library, name_of_project, overview_metrics, passages_prompt, plan_turn,
    ready_documents, search_scope, turn_history, turn_outcome, turn_sources, uses_evidence,
    with_library_context, Diagnostic, Turn, TurnAction, TurnPlan,
};
use kuznor::ui::code::{CodeAction, QuickAction};
use kuznor::ui::libraries::LibraryAction;
use kuznor::ui::sidebar::SidebarAction;

fn score(value: f32) -> Score {
    Score { bits: value.to_bits(), three: format!("{value:.3}"), four: format!("{value:.4}") }
}

fn chat(id: i64, title: &str) -> Chat {
    Chat {
        id,
        title: title.to_string(),
        profile: Profile::General,
        library_id: None,
        created_at: String::new(),
        updated_at: String::new(),
    }
}

fn library(id: i64, name: &str) -> Library {
    Library { id, name: name.to_string(), created_at: String::new() }
}

fn project(id: i64, status: &str) -> CodeProject {
    CodeProject {
        id,
        name: format!("proyecto-{id}"),
        root_path: format!("/proyectos/{id}"),
        status: status.to_string(),
        last_opened: String::new(),
    }
}

fn document(id: i64, name: &str, status: &str) -> Document {
    Document {
        id,
        library_id: 9,
        name: name.to_string(),
        original_path: format!("/docs/{name}"),
        hash: String::new(),
        file_type: "pdf".to_string(),
        status: status.to_string(),
        created_at: String::new(),
        error: None,
    }
}

fn file(id: i64, project_id: i64, path: &str) -> CodeFile {
    CodeFile {
        id,
        project_id,
        relative_path: path.to_string(),
        hash: String::new(),
        extension: "rs".to_string(),
        language: "rust".to_string(),
        size_bytes: 1,
        error: None,
    }
}

fn chunk(id: i64, document_id: i64, name: &str, content: &str) -> Chunk {
    Chunk {
        id,
        document_id,
        document_name: name.to_string(),
        chunk_index: 0,
        content: content.to_string(),
        page_number: Some(1),
        section: None,
        embedding: vec![1.0_f32.to_bits()],
    }
}

fn message(id: i64, role: &str, content: &str) -> Message {
    Message {
        id,
        chat_id: 1,
        role: role.to_string(),
        content: content.to_string(),
        sources: vec![],
        created_at: String::new(),
    }
}

fn opened() -> Session {
    Session::open(None, true, 0)
}

#[test]
fn title_uses_first_message_without_becoming_unwieldy() {
    assert_eq!(automatic_title("Consulta SQL basica"), "Consulta SQL basica");
    assert!(automatic_title(&"x ".repeat(60)).ends_with("..."));
}

#[test]
fn only_a_new_chat_gets_a_title() {
    assert_eq!(automatic_title(&"y".repeat(50)), format!("{}...", "y".repeat(42)));
    assert_eq!(automatic_title("  "), "Nuevo chat");
    assert_eq!(new_title("Nuevo chat", "  hola   mundo "), Some("hola mundo".to_string()));
    assert_eq!(new_title("Otro", "hola"), None);
}

#[test]
fn external_chat_server_skips_initial_settings() {
    assert_eq!(startup_view(true, false, false), Screen::Chat);
}

#[test]
fn managed_chat_configuration_skips_initial_settings() {
    assert_eq!(startup_view(false, true, true), Screen::Chat);
}

#[test]
fn unusable_chat_configuration_opens_settings() {
    assert_eq!(startup_view(false, false, false), Screen::Settings);
    assert_eq!(startup_view(false, true, false), Screen::Settings);
}

#[test]
fn empty_document_chat_uses_the_active_library_id_immediately() {
    assert_eq!(active_library_for_sidebar(Profile::Documentation, Some(42)), Some(42));
    assert_eq!(active_library_for_sidebar(Profile::General, Some(42)), None);
}

#[test]
fn selecting_a_chat_from_a_subview_opens_its_conversation_view() {
    assert_eq!(chat_view_for_profile(Profile::Documentation), Screen::Chat);
    assert_eq!(chat_view_for_profile(Profile::General), Screen::Chat);
    assert_eq!(chat_view_for_profile(Profile::Code), Screen::Code);
}

#[test]
fn active_library_is_context_not_navigation() {
    let current_chat = Some(17);
    let selected_library = Some(42);

    assert_eq!(current_chat, Some(17));
    assert_eq!(
        active_library_for_sidebar(Profile::Documentation, selected_library),
        Some(42)
    );
}

#[test]
fn service_state_moves_from_checking_to_healthy_and_tracks_requests() {
    assert_eq!(status_after_health(&ServiceStatus::Starting, true), ServiceStatus::Ready);
    assert_eq!(status_after_request(None), ServiceStatus::Ready);
    assert!(matches!(status_after_request(Some("fallo local")), ServiceStatus::Error(_)));
    assert_eq!(status_after_health(&ServiceStatus::Busy, true), ServiceStatus::Busy);
    let check_started: u128 = 5_000_000_000;
    assert_eq!(
        chat_status_after_health(
            &ServiceStatus::Ready,
            false,
            check_started,
            Some(check_started + 1_000_000),
        ),
        ServiceStatus::Ready
    );
    assert_eq!(
        chat_status_after_health(&ServiceStatus::Ready, false, check_started, Some(1)),
        ServiceStatus::Disconnected
    );
}

#[test]
fn changing_project_drops_a_file_selected_in_the_previous_project() {
    let files = vec![file(20, 2, "src/b.rs")];
    assert_eq!(valid_selected_code_file(Some(10), &files), None);
    assert_eq!(valid_selected_code_file(Some(20), &files), Some(20));
    assert!(files.iter().all(|file| file.project_id == 2));
    assert!(captured_code_file(2, Some(10), &files).is_none());
    assert_eq!(captured_code_file(2, Some(20), &files).unwrap().id, 20);
    assert!(captured_code_file(1, Some(20), &files).is_none());
    assert!(captured_code_file(2, None, &files).is_none());
}

#[test]
fn current_code_sources_reject_other_projects_and_files() {
    let source = |project_id, file_id: i64, chunk_id| Source {
        library_id: 0,
        project_id,
        file_id,
        document_id: file_id,
        chunk_id,
        score: score(1.0),
        document_name: format!("file-{file_id}.py"),
        chunk_index: 0,
        page_number: None,
        preview: String::new(),
        relative_path: format!("src/file-{file_id}.py"),
        line_start: Some(1),
        line_end: Some(2),
    };
    let current = sources_for_code_scope(
        &vec![source(1, 10, 1), source(2, 10, 2), source(2, 20, 3)],
        2,
        &Some(vec![20]),
    );
    assert_eq!(current.len(), 1);
    assert_eq!(current[0].project_id, 2);
    assert_eq!(current[0].file_id, 20);
    let repeated = vec![source(2, 20, 3), source(2, 20, 3), source(2, 10, 2)];
    let all = sources_for_code_scope(&repeated, 2, &None);
    assert_eq!(all.iter().map(|s| s.chunk_id).collect::<Vec<_>>(), [3, 2]);
}

#[test]
fn visible_sources_are_rebuilt_for_the_active_library_only() {
    let source = |library_id, document_id: i64, name: &str| Source {
        library_id,
        project_id: 0,
        file_id: 0,
        document_id,
        chunk_id: document_id * 10,
        score: score(0.9),
        document_name: name.to_string(),
        chunk_index: 0,
        page_number: Some(1),
        preview: String::new(),
        relative_path: String::new(),
        line_start: None,
        line_end: None,
    };
    let sources = vec![
        source(1, 10, "sql.pdf"),
        source(2, 20, "viajes.pdf"),
        source(2, 20, "viajes.pdf"),
    ];
    let current = sources_for_library(&sources, 2, &vec![20]);
    assert_eq!(current.len(), 1);
    assert_eq!(current[0].library_id, 2);
    assert_eq!(current[0].document_id, 20);
    assert_eq!(current[0].document_name, "viajes.pdf");
    let shown = turn_sources(&TurnPlan::SemanticSearch(5), sources, &None, &vec![10, 20]);
    assert_eq!(shown.iter().map(|s| (s.library_id, s.document_id)).collect::<Vec<_>>(), [(5, 10), (5, 20)]);
}

#[test]
fn the_former_data_file_is_copied_once() {
    assert_eq!(choose_data_file(false, true), DataFile::CopyFormer);
    assert_eq!(choose_data_file(true, true), DataFile::Current);
    assert_eq!(choose_data_file(false, false), DataFile::Current);
    assert_eq!(kuznor::session::choices::DATA_FILE, "kuznor.db");
}

#[test]
fn generation_survives_navigation_and_returns_only_to_its_chat() {
    let generation_chat = Some(41);
    assert!(generation_belongs_to_chat(Some(41), generation_chat));
    assert!(!generation_belongs_to_chat(Some(99), generation_chat));
    assert!(!generation_belongs_to_chat(None, generation_chat));
    assert!(generation_belongs_to_chat(Some(41), generation_chat));
}

#[test]
fn no_chat_or_mode_change_can_reassign_generation_buffer() {
    let generation_chat = Some(7);
    let other_chat = Some(8);
    assert_ne!(generation_chat, other_chat);
    assert!(!generation_belongs_to_chat(other_chat, generation_chat));
    assert!(generation_belongs_to_chat(generation_chat, generation_chat));
}

#[test]
fn modes_and_their_last_chats() {
    assert_eq!(mode_key(Profile::Documentation), "last_chat_id_documentos");
    assert_eq!(mode_key(Profile::Study), mode_key(Profile::General));
    assert_eq!(active_profile(Profile::Business), Profile::General);
    assert!(is_retired(Profile::Programming));
    assert!(!is_retired(Profile::Code));
    let chats = vec![chat(3, "a"), chat(-4, "b")];
    assert_eq!(last_chat(&Some("-4".to_string()), &chats), Some(-4));
    assert_eq!(last_chat(&Some("5".to_string()), &chats), None);
    assert_eq!(last_chat(&Some("tres".to_string()), &chats), None);
    assert_eq!(last_chat(&None, &chats), None);
}

#[test]
fn only_a_ready_project_is_active_at_the_start() {
    let projects = vec![project(1, "partial"), project(2, "ready"), project(3, "listo")];
    assert_eq!(initial_project(&Some("3".to_string()), &projects), Some(3));
    assert_eq!(initial_project(&Some("1".to_string()), &projects), Some(2));
    assert_eq!(initial_project(&None, &projects), Some(2));
    assert_eq!(initial_project(&None, &vec![project(1, "failed")]), None);
}

#[test]
fn errors_are_told_by_what_they_hold() {
    assert!(notice_for("Conversation roles must alternate").starts_with("El modelo rechazo"));
    assert_eq!(notice_for("SQLite: locked"), "No se pudo acceder a los datos locales.");
    assert_eq!(notice_for("embedding vacio"), "No se pudo procesar la busqueda documental.");
    assert_eq!(notice_for("falta el modelo"), "No se pudo iniciar el modelo local.");
    assert_eq!(notice_for("HTTP 500"), "No se pudo conectar con el servidor de IA.");
    assert_eq!(notice_for("PDF roto"), "No se pudo procesar el documento.");
    assert_eq!(notice_for("otra cosa"), "Kuznor no pudo completar la operacion.");
}

#[test]
fn a_session_begins_with_nothing_open() {
    let session = opened();
    assert_eq!(session.mode, Profile::General);
    assert_eq!(session.screen, Screen::Chat);
    assert_eq!(session.current_chat, None);
    assert_eq!(session.chat_status, ServiceStatus::Starting);
    assert_eq!(session.code_status, "Selecciona un archivo o carpeta");
    assert!(session.health_check_in_flight);
}

#[test]
fn pieces_of_an_answer_reach_their_chat_only() {
    let mut session = opened();
    session.current_chat = Some(7);
    session.start_generation(7, 1_000);
    assert!(forces_repaint(&Event::ChatRequestSucceeded));
    assert!(!forces_repaint(&Event::ChatDelta(7, "a".to_string())));
    session.handle(Event::ChatDelta(8, "no".to_string()), 1_000);
    session.handle(Event::ChatDelta(7, "Ku".to_string()), 1_000);
    session.handle(Event::ChatDelta(7, "znor".to_string()), 1_000);
    assert_eq!(session.streaming_buffer, "Kuznor");
    let round = session.tick(1_000, false);
    assert_eq!(round.repaint_ms, 40);
    assert_eq!(session.streaming_text, "");
    session.tick(40_001_000, false);
    assert_eq!(session.streaming_text, "Kuznor");
    assert_eq!(session.ui_updates, 1);
    assert!(session.generation_visible_for_current_chat());
    assert_eq!(session.streaming_for_current_chat(), "Kuznor");
    let chats = vec![chat(7, "a"), chat(8, "b")];
    let effect = session.sidebar(SidebarAction::SelectChat(8), &chats, &vec![]);
    assert_eq!(effect, Effect::RememberChat(8));
    assert!(!session.generation_visible_for_current_chat());
    assert_eq!(session.streaming_for_current_chat(), "");
    assert_eq!(session.generation_chat, Some(7));
    let after = session.handle(Event::ChatFinished(Ok(7)), 90_000_000);
    assert_eq!(after, Followup { save_project: None, reload: false });
    assert!(!session.generating);
    assert_eq!(session.streaming_text, "");
}

#[test]
fn the_time_of_an_answer_is_noted_in_diagnostic_mode() {
    let mut session = opened();
    session.start_generation(1, 0);
    session.handle(Event::PromptDiagnostic("ENVIADO".to_string()), 0);
    session.handle(Event::ChatRequestStarted(12), 0);
    session.handle(Event::OverviewMetrics("fichas".to_string()), 0);
    session.handle(Event::ChatFinished(Err("HTTP 500".to_string())), 250_000_000);
    let metrics = "request desde Enviar: 12 ms | primer token: n/d ms | total: 250 ms | actualizaciones UI: 0";
    assert_eq!(session.generation_metrics.as_deref(), Some(metrics));
    assert_eq!(
        session.prompt_diagnostic.unwrap(),
        format!("ENVIADO\n\nDIAGNOSTICO DE OVERVIEW LOCAL\nfichas\n\n\nDIAGNOSTICO DE LATENCIA LOCAL\n{metrics}\n")
    );
    assert_eq!(session.notice.as_deref(), Some("No se pudo conectar con el servidor de IA."));
    assert_eq!(session.notice_details.as_deref(), Some("HTTP 500"));
}

#[test]
fn health_is_checked_when_nothing_is_under_way() {
    let mut session = opened();
    let snapshot = Event::HealthSnapshot {
        chat_reachable: false,
        embedding_reachable: true,
        initial: true,
        chat_model_available: false,
        llama_command_available: false,
        started_at: 0,
    };
    session.handle(snapshot, 10);
    assert_eq!(session.screen, Screen::Settings);
    assert_eq!(session.chat_status, ServiceStatus::Disconnected);
    assert_eq!(session.embedding_status, ServiceStatus::Ready);
    assert!(!session.tick(14_999_999_999, true).check_health);
    session.indexing = true;
    assert!(!session.tick(15_000_000_010, true).check_health);
    session.indexing = false;
    let round = session.tick(15_000_000_010, true);
    assert!(round.check_health);
    assert_eq!(round.repaint_ms, 0);
    assert!(!session.tick(99_000_000_010, false).check_health);
    assert!(!session.schedule_health_check(true));
}

#[test]
fn indexing_ends_in_a_notice() {
    let mut session = opened();
    assert!(session.begin_indexing());
    assert!(!session.begin_indexing());
    session.handle(Event::IndexProgress("Guardando...".to_string()), 0);
    assert_eq!(session.progress.as_deref(), Some("Guardando..."));
    let after = session.handle(Event::IndexFinished(Ok("Documento listo".to_string())), 0);
    assert!(after.reload);
    assert!(!session.indexing);
    assert_eq!(session.notice.as_deref(), Some("Documento listo"));
    assert!(session.begin_code_indexing());
    assert_eq!(session.code_status, "Escaneando proyecto...");
    assert!(session.cancel_code_indexing());
    let after = session.handle(Event::CodeIndexCancelled(Some(4)), 0);
    assert!(after.reload);
    assert_eq!(session.active_project, Some(4));
    assert!(!session.cancel_code_indexing());
    session.begin_code_indexing();
    let done = session.handle(Event::CodeIndexFinished(Ok((5, "listo".to_string()))), 0);
    assert_eq!(done, Followup { save_project: Some(5), reload: true });
    session.begin_code_indexing();
    session.handle(Event::CodeIndexFinished(Err("disco".to_string())), 0);
    assert_eq!(session.code_status, "No se pudo indexar el proyecto");
}

#[test]
fn a_cancelled_answer_is_told() {
    let mut session = opened();
    assert!(!session.cancel_generation());
    session.start_generation(1, 0);
    assert!(session.cancel_generation());
    session.handle(Event::ChatCancelled, 5);
    assert_eq!(
        session.notice.as_deref(),
        Some("Generacion detenida. La respuesta no fue guardada.")
    );
    session.close_notice();
    assert_eq!(session.notice, None);
}

#[test]
fn the_side_bar_moves_between_chats_and_libraries() {
    let mut session = opened();
    let chats = vec![chat(1, "uno"), chat(2, "dos")];
    let libraries = vec![library(9, "Manuales")];
    session.input = "a medias".to_string();
    session.screen = Screen::Settings;
    assert_eq!(session.sidebar(SidebarAction::SelectChat(2), &chats, &libraries), Effect::RememberChat(2));
    assert_eq!(session.input, "");
    assert_eq!(session.screen, Screen::Chat);
    assert_eq!(session.sidebar(SidebarAction::SelectChat(5), &chats, &libraries), Effect::Nothing);
    session.sidebar(SidebarAction::RenameChat(1), &chats, &libraries);
    assert_eq!((session.rename_chat, session.rename_text.as_str()), (Some(1), "uno"));
    assert_eq!(
        session.sidebar(SidebarAction::SelectLibrary(Some(9)), &chats, &libraries),
        Effect::LoadDocuments
    );
    assert_eq!(session.active_library, Some(9));
    assert_eq!(session.current_chat, Some(2));
    assert_eq!(
        session.sidebar(SidebarAction::SelectLibrary(Some(10)), &chats, &libraries),
        Effect::Nothing
    );
    assert_eq!(session.notice_details.as_deref(), Some("La biblioteca seleccionada ya no existe"));
    assert_eq!(session.sidebar(SidebarAction::NewChat, &chats, &libraries), Effect::ForgetMessages);
    assert_eq!(session.current_chat, None);
    session.sidebar(SidebarAction::OpenLibraries, &chats, &libraries);
    assert_eq!(session.screen, Screen::Libraries);
}

#[test]
fn the_project_panel_asks_for_what_it_needs() {
    let mut session = opened();
    let projects = vec![project(1, "partial"), project(2, "ready")];
    assert_eq!(session.code(CodeAction::OpenFolder, &projects), Effect::PickFolder);
    assert_eq!(session.code(CodeAction::CancelIndexing, &projects), Effect::Nothing);
    session.selected_file = Some(3);
    assert_eq!(session.code(CodeAction::SelectProject(2), &projects), Effect::RememberProject(2));
    assert_eq!(session.selected_file, None);
    assert_eq!(
        session.code(CodeAction::ReindexProject(1), &projects),
        Effect::IndexFolder("/proyectos/1".to_string())
    );
    assert_eq!(session.code(CodeAction::ReindexProject(8), &projects), Effect::Nothing);
    assert_eq!(session.code(CodeAction::QuickPrompt(QuickAction::Summarize), &projects), Effect::Send);
    assert_eq!(session.input, "Resume el archivo seleccionado.");
    session.code(CodeAction::RemoveProject(1), &projects);
    assert_eq!(session.pending_remove_project, Some(1));
}

#[test]
fn the_window_of_libraries_asks_for_what_it_needs() {
    let mut session = opened();
    let libraries = vec![library(9, "Manuales")];
    let documents = vec![document(4, "a.pdf", "listo")];
    assert_eq!(session.library(LibraryAction::AddDocument, &libraries, &documents), Effect::Nothing);
    assert_eq!(session.library(LibraryAction::Select(9), &libraries, &documents), Effect::LoadDocuments);
    assert_eq!(session.library(LibraryAction::AddDocument, &libraries, &documents), Effect::PickDocument(9));
    assert_eq!(session.library(LibraryAction::CancelIndexing, &libraries, &documents), Effect::Nothing);
    assert_eq!(
        session.library(LibraryAction::Reindex(4), &libraries, &documents),
        Effect::IndexDocument { library: 9, path: "/docs/a.pdf".to_string(), document: 4 }
    );
    session.library(LibraryAction::Rename(9), &libraries, &documents);
    assert_eq!(session.rename_library_text, "Manuales");
    assert!(session.library_deleted(9));
    assert_eq!(session.active_library, None);
    assert!(!session.library_deleted(9));
}

#[test]
fn reading_again_keeps_only_what_exists() {
    let mut session = opened();
    session.current_chat = Some(5);
    session.settle_chat(&vec![chat(1, "a"), chat(5, "b")]);
    assert_eq!(session.current_chat, Some(5));
    session.settle_chat(&vec![chat(1, "a")]);
    assert_eq!(session.current_chat, Some(1));
    session.settle_chat(&vec![]);
    assert_eq!(session.current_chat, None);
    session.active_library = Some(3);
    session.settle_library(&vec![library(4, "b")], Some(4));
    assert_eq!(session.active_library, None);
    session.mode = Profile::Documentation;
    session.settle_library(&vec![library(4, "b")], Some(4));
    assert_eq!(session.active_library, Some(4));
    session.selected_file = Some(2);
    session.settle_file(&vec![file(3, 1, "a.rs")]);
    assert_eq!(session.selected_file, None);
}

#[test]
fn another_mode_opens_its_own_chat() {
    let mut session = opened();
    session.input = "a medias".to_string();
    session.switch_mode(Profile::Code, &Some("3".to_string()), &vec![chat(3, "c")]);
    assert_eq!(session.mode, Profile::Code);
    assert_eq!(session.current_chat, Some(3));
    assert_eq!(session.input, "");
    session.input = "sigue".to_string();
    session.switch_mode(Profile::Code, &None, &vec![chat(3, "c")]);
    assert_eq!(session.input, "sigue");
    assert_eq!(session.current_chat, None);
}

#[test]
fn removing_the_active_project_leaves_it() {
    let mut session = opened();
    session.active_project = Some(1);
    session.selected_file = Some(2);
    assert!(session.can_remove_project());
    let saved = session.remove_code_project(1, &vec![project(4, "partial"), project(5, "ready")]);
    assert_eq!(saved, "5");
    assert_eq!(session.active_project, Some(5));
    assert_eq!(session.selected_file, None);
    assert_eq!(session.code_status, "Proyecto activo actualizado");
    assert_eq!(session.remove_code_project(5, &vec![]), "");
    assert_eq!(session.code_status, "Selecciona un archivo o carpeta");
    session.begin_code_indexing();
    assert!(!session.can_remove_project());
}

#[test]
fn a_question_needs_text_and_a_place() {
    let mut session = opened();
    let files = vec![file(20, 2, "src/b.rs")];
    session.input = "   ".to_string();
    assert_eq!(session.take_question(&files), None);
    session.input = " hola ".to_string();
    assert_eq!(session.take_question(&files), Some("hola".to_string()));
    session.mode = Profile::Code;
    assert_eq!(session.take_question(&files), None);
    assert_eq!(session.notice.as_deref(), Some("No hay un proyecto valido seleccionado."));
    session.active_project = Some(2);
    session.input = "Explica el archivo seleccionado".to_string();
    assert_eq!(session.take_question(&files), None);
    assert_eq!(session.notice.as_deref(), Some("No hay un archivo valido seleccionado."));
    session.selected_file = Some(20);
    assert!(session.take_question(&files).is_some());
    session.start_generation(1, 0);
    session.input = "otra".to_string();
    assert_eq!(session.take_question(&files), None);
}

#[test]
fn services_and_settings_are_told() {
    let mut session = opened();
    session.service_stopped(ServiceKind::Chat, true);
    assert_eq!(session.chat_status, ServiceStatus::Disconnected);
    session.service_stopped(ServiceKind::Embedding, false);
    assert_eq!(session.embedding_status, ServiceStatus::Starting);
    assert!(session.notice.as_deref().unwrap().contains("no se cerrara"));
    session.settings_saved(false, 20_000_000_000);
    assert_eq!(session.health_checked, 5_000_000_000);
    assert!(!session.diagnostic_mode);
    session.chat_deleted();
    assert_eq!(session.pending_delete, None);
    session.back_to_chat();
    assert_eq!(session.screen, Screen::Chat);
    session.documents_loaded();
    assert_eq!(session.prompt_diagnostic, None);
    assert_eq!(
        compact_status("IA principal", &ServiceStatus::Ready, "gemma.gguf", 8080, false),
        "IA principal: listo\nModelo: gemma.gguf\nPuerto: 8080\nProceso: servidor externo"
    );
    assert_eq!(
        compact_status("IA principal", &ServiceStatus::Disconnected, "", 8080, false),
        "IA principal: desconectado\nModelo: sin configurar\nPuerto: 8080\nProceso: detenido"
    );
    assert_eq!(
        performance_text(
            &Some("1.5".to_string()),
            Some(1024 * 1024),
            2,
            &ServiceStatus::Ready,
            &ServiceStatus::Disconnected,
            true,
            false,
        ),
        "CPU Kuznor: 1.5% | RAM Kuznor: 1.0 MB | llama.cpp administrados: 2 | IA principal: listo | Búsqueda semántica: detenido | indexaciones activas: 1"
    );
    let chat = service_description(true, false, true, true, "127.0.0.1", 8080);
    assert_eq!(chat, "servidor externo conectado (127.0.0.1:8080)");
    let embedding = service_description(false, false, true, true, "127.0.0.1", 8081);
    assert_eq!(embedding, "listo para inicio administrado");
    assert_eq!(
        configuration_report(&chat, &embedding, &None),
        format!("IA principal: {chat}\nBúsqueda semántica: {embedding}\nllama.cpp: no disponible; configura llama, llama serve o llama-server")
    );
}

// ----------------------------------------------------------------------- turns

#[test]
fn a_question_is_planned_by_mode_and_words() {
    let plan = |profile, project, library, question| plan_turn(profile, project, library, question);
    assert_eq!(plan(Profile::General, Some(1), Some(2), "hola"), TurnPlan::Plain);
    assert_eq!(plan(Profile::Code, Some(1), None, "hola"), TurnPlan::Code(1));
    assert_eq!(plan(Profile::Code, None, None, "hola"), TurnPlan::CodeWithoutProject);
    assert_eq!(plan(Profile::Documentation, None, None, "hola"), TurnPlan::Plain);
    assert_eq!(plan(Profile::Documentation, None, Some(2), "Hola"), TurnPlan::DocumentMeta(2));
    assert_eq!(
        plan(Profile::Documentation, None, Some(2), "Compara los 3 archivos"),
        TurnPlan::LibraryOverview(2)
    );
    let literal = plan(
        Profile::Documentation,
        None,
        Some(2),
        "¿Alguno de los documentos contiene RFC?",
    );
    assert_eq!(literal, TurnPlan::LiteralSearch { library: 2, terms: vec!["RFC".to_string()] });
    assert!(uses_evidence(&literal));
    let semantic = plan(Profile::Documentation, None, Some(2), "¿Que temas de SQL aparecen?");
    assert_eq!(semantic, TurnPlan::SemanticSearch(2));
    assert!(!uses_evidence(&TurnPlan::Plain));
}

#[test]
fn a_named_document_is_searched_alone() {
    let chunks = vec![
        chunk(1, 10, "ventas_anuales.pdf", "ventas"),
        chunk(2, 20, "examen_final.pdf", "examen"),
    ];
    let (scope, named) = search_scope(chunks.clone(), "resume ventas anuales");
    assert_eq!(named, vec![(10, "ventas_anuales.pdf".to_string())]);
    assert_eq!(scope.iter().map(|c| c.id).collect::<Vec<_>>(), [1]);
    let (both, named) = search_scope(chunks.clone(), "compara ventas anuales con examen final");
    assert_eq!(both.len(), 2);
    assert_eq!(named.len(), 2);
    let given = vec![score(0.9), score(0.8)];
    let found = find_passages(&both, &given, 1, "compara", 2, &named);
    assert_eq!(found.iter().map(|f| f.chunk.id).collect::<Vec<_>>(), [1, 2]);
    let (prompt, sources) = passages_prompt(Profile::Documentation, &found, &named);
    assert!(prompt.contains("DOCUMENTO A: ventas_anuales.pdf"));
    assert_eq!(sources.len(), 2);
    let alone = find_passages(&both, &given, 1, "ventas", 1, &vec![]);
    assert_eq!(alone.len(), 1);
}

#[test]
fn a_literal_search_without_matches_is_answered_directly() {
    let answer = direct_answer(&vec![], &vec!["RFC".to_string(), "CURP".to_string()], 3, "Trabajo");
    assert_eq!(
        answer.unwrap(),
        "No se encontro el termino exacto 'RFC', 'CURP' tras revisar los 3 documentos disponibles en la biblioteca Trabajo."
    );
    let found = vec![ScoredChunk { chunk: chunk(1, 1, "a", "RFC"), score: score(1.0) }];
    assert_eq!(direct_answer(&found, &vec!["RFC".to_string()], 3, "Trabajo"), None);
}

#[test]
fn only_ready_documents_are_evidence() {
    let documents = vec![document(1, "a.pdf", "listo"), document(2, "b.pdf", "error")];
    let ready = ready_documents(&documents);
    assert_eq!(ready, vec![(1, "a.pdf".to_string())]);
    assert_eq!(document_ids(&ready), [1]);
    let system = with_library_context("reglas".to_string(), "Trabajo", &ready);
    assert_eq!(
        system,
        "reglas\n\nCONTEXTO DOCUMENTAL ACTUAL\nBiblioteca actual: Trabajo\nDocumentos permitidos:\n- a.pdf\nSolo este contexto y sus fragmentos son evidencia documental para el turno actual. El historial conversacional no es una fuente y no puede atribuirse a estos archivos."
    );
    assert_eq!(name_of_active_library(&vec![library(9, "Manuales")], Some(9)), "Manuales");
    assert_eq!(name_of_active_library(&vec![], Some(9)), "Sin biblioteca");
    assert_eq!(name_of_project(&vec![project(1, "ready")], Some(1)), "proyecto-1");
    assert_eq!(name_of_project(&vec![], None), "Sin proyecto");
}

#[test]
fn history_is_repeated_by_profile() {
    let messages = vec![message(1, "user", "Explica A"), message(2, "assistant", "A es B")];
    assert_eq!(turn_history(Profile::General, &messages), messages);
    let code = turn_history(Profile::Code, &messages);
    assert!(code.iter().all(|m| m.content.starts_with('[')));
}

fn turn(profile: Profile, inputs: Vec<DocumentOverviewInput>) -> Turn {
    Turn {
        profile,
        question: "Resume esta biblioteca".to_string(),
        system: "reglas".to_string(),
        history: vec![message(1, "user", "antes"), message(2, "assistant", "despues")],
        inputs,
        analyses: vec![],
        context_size: 4096,
        max_tokens: 1000,
    }
}

#[test]
fn an_overview_asks_once_for_each_document_and_once_for_all() {
    let input = |id: i64, name: &str| DocumentOverviewInput {
        document_id: id,
        filename: name.to_string(),
        representative_chunks: vec![],
    };
    let mut turn = turn(Profile::Documentation, vec![input(1, "a.pdf"), input(2, "b.pdf")]);
    match turn.next(false) {
        TurnAction::Analyse { stage, messages, max_tokens } => {
            assert_eq!(stage, "Analizando documento 1 de 2...");
            assert_eq!(max_tokens, 256);
            assert!(messages[0].content.contains("a.pdf"));
            assert!(messages.iter().all(|m| !m.content.contains("antes")));
        }
        other => panic!("{other:?}"),
    }
    assert_eq!(turn.next(true), TurnAction::Stop);
    turn.analysed("sin formato");
    turn.analysed("sin formato");
    assert_eq!(turn.analyses[1].1, "b.pdf");
    match turn.next(true) {
        TurnAction::Answer { label, messages, max_tokens } => {
            assert_eq!(label.as_deref(), Some("Sintetizando..."));
            assert_eq!(max_tokens, 512);
            assert!(messages.last().unwrap().content.contains("sintesis global"));
        }
        other => panic!("{other:?}"),
    }
    assert!(turn.finish(String::new()).contains("evidencia"));
}

#[test]
fn a_plain_question_goes_with_its_history() {
    let turn = turn(Profile::General, vec![]);
    match turn.next(false) {
        TurnAction::Answer { label, messages, max_tokens } => {
            assert_eq!(label, None);
            assert_eq!(max_tokens, 1000);
            assert_eq!(messages.len(), 4);
        }
        other => panic!("{other:?}"),
    }
    assert_eq!(turn.finish("ver http://a.b".to_string()), "ver http://a.b");
}

#[test]
fn a_turn_ends_in_events() {
    assert_eq!(turn_outcome(true, Ok(1)), (None, Event::ChatCancelled));
    assert_eq!(turn_outcome(false, Ok(1)), (None, Event::ChatFinished(Ok(1))));
    let failed = turn_outcome(false, Err("HTTP 500".to_string()));
    assert_eq!(failed.0, Some(ServiceStatus::Error("HTTP 500".to_string())));
    assert_eq!(failed.1, Event::ChatFinished(Err("HTTP 500".to_string())));
    assert!(asks_again(false, false, false));
    assert!(!asks_again(true, false, false));
    assert!(!asks_again(false, false, true));
    assert_eq!(embedding_after_search(true, true), (true, ServiceStatus::Disconnected));
    assert_eq!(embedding_after_search(false, true), (false, ServiceStatus::Ready));
    assert_eq!(
        overview_metrics(1, 2, &vec![3, 4], 5, 6, 300),
        "overview: preparacion 1 ms | retrieval representativo 2 ms | documento 1/2: 3 ms | documento 2/2: 4 ms | sintesis 5 ms | total 6 ms | limite ficha 256 tokens | limite sintesis 300 tokens"
    );
}

// -------------------------------------------------------------------- indexing

#[test]
fn a_known_document_is_refused_unless_it_is_replaced() {
    assert_eq!(plan_document(None, false), DocumentPlan::Create);
    assert_eq!(plan_document(None, true), DocumentPlan::Refuse);
    assert_eq!(plan_document(Some(4), true), DocumentPlan::Replace(4));
    assert_eq!(document_ready_text("a.pdf", 3), "Documento listo: a.pdf (3 fragmentos).");
}

#[test]
fn a_document_is_cut_embedded_in_batches_and_numbered() {
    let text = (0..100).map(|i| format!("w{i}")).collect::<Vec<_>>().join(" ");
    let parsed = ParsedDocument {
        title: "a".to_string(),
        sections: vec![ParsedSection { text, page_number: None, title: None }],
        metadata: HashMap::new(),
    };
    let chunks = cut_document(&parsed, 7, 10, 0).unwrap();
    assert_eq!(chunks.len(), 10);
    assert!(chunks.iter().all(|c| c.document_id == 7));
    let (first, told) = next_batch(&chunks, 0);
    assert_eq!(first.len(), 8);
    assert_eq!(told, "Generando embeddings 8/10...");
    let (second, told) = next_batch(&chunks, 8);
    assert_eq!(second.len(), 2);
    assert_eq!(told, "Generando embeddings 10/10...");
    let numbered = number_chunks(&second);
    assert_eq!(numbered.iter().map(|c| c.chunk_index).collect::<Vec<_>>(), [0, 1]);
    let empty =
        ParsedDocument { title: "a".to_string(), sections: vec![], metadata: HashMap::new() };
    assert_eq!(cut_document(&empty, 7, 10, 0), None);
}

#[test]
fn a_project_run_counts_each_file_once() {
    let scanned = |path: &str| ScannedCodeFile {
        absolute_path: path.to_string(),
        relative_path: path.to_string(),
        extension: "rs".to_string(),
        language: "rust".to_string(),
        size_bytes: 1,
    };
    let mut report = ScanReport::complete();
    for path in ["a.rs", "b.rs", "c.rs"] {
        report.add_file(scanned(path));
    }
    let mut known = file(1, 1, "a.rs");
    known.hash = "h".to_string();
    let files = vec![known];
    let mut run = CodeRun::begin(&report);
    assert_eq!(run.found_text(), "Indexando... 3 archivos detectados");
    assert!(run.read(&files, "a.rs", "h"));
    assert!(!run.read(&files, "b.rs", "h"));
    run.unreadable_file();
    assert_eq!(run.start("b.rs"), "Indexando... b.rs (1/2)");
    run.refuse();
    assert_eq!(
        run.ready_text(12),
        "Proyecto listo: 3 archivos, 12 fragmentos, 1 sin cambios, 1 errores"
    );
    assert_eq!(run.status(), CodeProjectStatus::Ready);
    assert!(!is_unchanged(&files, "a.rs", "otro"));
    assert_eq!(single_file_report(scanned("a.rs")).files.len(), 1);
    assert_eq!(project_name(None), "Proyecto");
    assert_eq!(project_name(Some("kuznor".to_string())), "kuznor");
}

#[test]
fn a_long_document_is_cut_without_limits() {
    let text = (0..2_100).map(|i| format!("w{i} x")).collect::<Vec<_>>().join(" ");
    let parsed = ParsedDocument {
        title: "a".to_string(),
        sections: vec![ParsedSection { text, page_number: None, title: None }],
        metadata: HashMap::new(),
    };
    assert_eq!(cut_document(&parsed, 7, 2, 0).unwrap().len(), 2_100);
}

#[test]
fn only_a_complete_run_over_the_whole_project_prunes() {
    let complete = ScanReport::complete();
    let run = CodeRun::begin(&complete);
    assert!(run.prunes(false));
    assert!(!run.prunes(true));
    let mut partial = ScanReport::complete();
    partial.fail("Sin acceso".to_string());
    let run = CodeRun::begin(&partial);
    assert!(!run.prunes(false));
    assert!(!run.prunes(true));
    assert_eq!(run.status(), CodeProjectStatus::Ready);
}

#[test]
fn the_prompt_is_told_in_diagnostic_mode_only() {
    assert_eq!(diagnostic_of(true, Profile::Code, None), Some(Diagnostic::Code));
    assert_eq!(diagnostic_of(true, Profile::Documentation, Some(1)), Some(Diagnostic::Documents));
    assert_eq!(diagnostic_of(true, Profile::Documentation, None), None);
    assert_eq!(diagnostic_of(true, Profile::General, Some(1)), None);
    assert_eq!(diagnostic_of(false, Profile::Code, None), None);
    assert_eq!(diagnostic_of(false, Profile::Documentation, Some(1)), None);
}

#[test]
fn a_project_run_that_fails_is_never_ready() {
    let cancelled = code_index_outcome(true, Some(3), Ok((3, "x".to_string())));
    assert_eq!(cancelled.0, Some((3, CodeProjectStatus::Partial)));
    assert_eq!(cancelled.1, Event::CodeIndexCancelled(Some(3)));
    let failed = code_index_outcome(false, Some(3), Err("disco".to_string()));
    assert_eq!(failed.0, Some((3, CodeProjectStatus::Failed)));
    let done = code_index_outcome(false, Some(3), Ok((3, "x".to_string())));
    assert_eq!(done.0, None);
    assert_eq!(done.1, Event::CodeIndexFinished(Ok((3, "x".to_string()))));
}

// ------------------------------------------------------------------- processes

#[test]
fn llama_cli_uses_serve_subcommand() {
    assert_eq!(
        command_spec("llama", false).unwrap(),
        CommandSpec { program: "llama".to_string(), prefix_args: vec!["serve".to_string()] }
    );
    assert_eq!(command_spec("llama serve", false).unwrap().prefix_args, ["serve"]);
}

#[test]
fn llama_server_does_not_add_subcommand() {
    assert!(command_spec("llama-server", false).unwrap().prefix_args.is_empty());
}

#[test]
fn process_manager_counts_only_owned_processes() {
    let mut manager = ProcessManager::default();
    assert_eq!(manager.owned_count(), 0);
    manager.adopt(ServiceKind::Chat, 42);
    assert!(manager.owns(ServiceKind::Chat));
    assert!(!manager.owns(ServiceKind::Embedding));
    assert_eq!(manager.owned_count(), 1);
    assert_eq!(manager.stop_owned(ServiceKind::Embedding), None);
    assert_eq!(manager.stop_owned(ServiceKind::Chat), Some(42));
    assert_eq!(manager.owned_count(), 0);
}

#[test]
fn a_server_is_started_with_its_settings() {
    let settings = Settings { embedding_model_path: "e.gguf".to_string(), ..Settings::default() };
    let arguments = server_arguments(ServiceKind::Embedding, &settings, 4);
    assert_eq!(&arguments[..2], ["-m", "e.gguf"]);
    assert_eq!(arguments.last().unwrap(), "--embedding");
    assert_eq!(plan_service(ServiceKind::Chat, &settings, true, false), Ok(EnsurePlan::AlreadyRunning));
    assert_eq!(plan_service(ServiceKind::Chat, &settings, false, true), Ok(EnsurePlan::Start));
    assert_eq!(
        plan_service(ServiceKind::Chat, &settings, false, false),
        Ok(EnsurePlan::MissingModel)
    );
    assert_eq!(startup_step(0, false, false), StartupStep::Wait);
    assert_eq!(startup_step(0, true, false), StartupStep::Ready);
    assert_eq!(startup_step(0, false, true), StartupStep::Ended);
    assert!(llama_candidates("mi-llama").contains(&"mi-llama".to_string()));
    assert_eq!(command_spec("   ", false), None);
}
