//! The state of a session and what the events of its background work do to it.

use vstd::prelude::*;
use vstd::string::StringExecFns;

use crate::ai::process::{ServiceStatus, StatusView};
use crate::models::{opt_text, Profile};
use crate::session::choices::{
    after_health, belongs, chat_after_health, chat_status_after_health, generation_belongs_to_chat,
    notice_for, notice_text, opening_screen, startup_view, status_after_health, Screen,
};
use crate::text::{decimal, decimal_string};

verus! {

/// The state of a session. Moments are counted in nanoseconds from its start.
#[derive(Debug, PartialEq, Eq)]
pub struct Session {
    pub mode: Profile,
    pub screen: Screen,
    pub current_chat: Option<i64>,
    pub active_library: Option<i64>,
    pub active_project: Option<i64>,
    pub selected_file: Option<i64>,
    pub input: String,
    pub notice: Option<String>,
    pub notice_details: Option<String>,
    pub prompt_diagnostic: Option<String>,
    pub prompt_diagnostic_open: bool,
    pub progress: Option<String>,
    pub generating: bool,
    pub generation_chat: Option<i64>,
    pub generation_started: Option<u128>,
    pub streaming_text: String,
    pub streaming_buffer: String,
    pub streaming_flushed: u128,
    pub request_started_ms: Option<u128>,
    pub first_token_ms: Option<u128>,
    pub ui_updates: u64,
    pub generation_metrics: Option<String>,
    pub generation_stage: Option<String>,
    pub indexing: bool,
    pub code_indexing: bool,
    pub code_status: String,
    pub chat_status: ServiceStatus,
    pub embedding_status: ServiceStatus,
    pub health_check_in_flight: bool,
    pub health_checked: u128,
    pub last_chat_success: Option<u128>,
    pub diagnostic_mode: bool,
    pub rename_chat: Option<i64>,
    pub rename_text: String,
    pub rename_library: Option<i64>,
    pub rename_library_text: String,
    pub pending_delete: Option<i64>,
    pub pending_delete_library: Option<i64>,
    pub pending_remove_project: Option<i64>,
}

/// What a `Session` holds.
pub struct SessionView {
    pub mode: Profile,
    pub screen: Screen,
    pub current_chat: Option<i64>,
    pub active_library: Option<i64>,
    pub active_project: Option<i64>,
    pub selected_file: Option<i64>,
    pub input: Seq<char>,
    pub notice: Option<Seq<char>>,
    pub notice_details: Option<Seq<char>>,
    pub prompt_diagnostic: Option<Seq<char>>,
    pub prompt_diagnostic_open: bool,
    pub progress: Option<Seq<char>>,
    pub generating: bool,
    pub generation_chat: Option<i64>,
    pub generation_started: Option<u128>,
    pub streaming_text: Seq<char>,
    pub streaming_buffer: Seq<char>,
    pub streaming_flushed: u128,
    pub request_started_ms: Option<u128>,
    pub first_token_ms: Option<u128>,
    pub ui_updates: u64,
    pub generation_metrics: Option<Seq<char>>,
    pub generation_stage: Option<Seq<char>>,
    pub indexing: bool,
    pub code_indexing: bool,
    pub code_status: Seq<char>,
    pub chat_status: StatusView,
    pub embedding_status: StatusView,
    pub health_check_in_flight: bool,
    pub health_checked: u128,
    pub last_chat_success: Option<u128>,
    pub diagnostic_mode: bool,
    pub rename_chat: Option<i64>,
    pub rename_text: Seq<char>,
    pub rename_library: Option<i64>,
    pub rename_library_text: Seq<char>,
    pub pending_delete: Option<i64>,
    pub pending_delete_library: Option<i64>,
    pub pending_remove_project: Option<i64>,
}

impl View for Session {
    type V = SessionView;

    open spec fn view(&self) -> SessionView {
        SessionView {
            mode: self.mode,
            screen: self.screen,
            current_chat: self.current_chat,
            active_library: self.active_library,
            active_project: self.active_project,
            selected_file: self.selected_file,
            input: self.input@,
            notice: opt_text(self.notice),
            notice_details: opt_text(self.notice_details),
            prompt_diagnostic: opt_text(self.prompt_diagnostic),
            prompt_diagnostic_open: self.prompt_diagnostic_open,
            progress: opt_text(self.progress),
            generating: self.generating,
            generation_chat: self.generation_chat,
            generation_started: self.generation_started,
            streaming_text: self.streaming_text@,
            streaming_buffer: self.streaming_buffer@,
            streaming_flushed: self.streaming_flushed,
            request_started_ms: self.request_started_ms,
            first_token_ms: self.first_token_ms,
            ui_updates: self.ui_updates,
            generation_metrics: opt_text(self.generation_metrics),
            generation_stage: opt_text(self.generation_stage),
            indexing: self.indexing,
            code_indexing: self.code_indexing,
            code_status: self.code_status@,
            chat_status: self.chat_status@,
            embedding_status: self.embedding_status@,
            health_check_in_flight: self.health_check_in_flight,
            health_checked: self.health_checked,
            last_chat_success: self.last_chat_success,
            diagnostic_mode: self.diagnostic_mode,
            rename_chat: self.rename_chat,
            rename_text: self.rename_text@,
            rename_library: self.rename_library,
            rename_library_text: self.rename_library_text@,
            pending_delete: self.pending_delete,
            pending_delete_library: self.pending_delete_library,
            pending_remove_project: self.pending_remove_project,
        }
    }
}

/// How long shown text waits for more, in nanoseconds.
pub const FLUSH_INTERVAL: u128 = 40_000_000;

/// How long the state of the services counts as known, in nanoseconds.
pub const HEALTH_INTERVAL: u128 = 15_000_000_000;

/// The time from one moment to another, none where the second comes first.
pub open spec fn time_between(from: u128, to: u128) -> int {
    if to >= from {
        to - from
    } else {
        0
    }
}

/// The time from one moment to another.
pub fn elapsed(from: u128, to: u128) -> (r: u128)
    ensures
        r == time_between(from, to),
{
    if to >= from {
        to - from
    } else {
        0
    }
}

/// A number of milliseconds, or that it is not known.
pub open spec fn ms_text(ms: Option<u128>) -> Seq<char> {
    match ms {
        Some(n) => decimal(n as nat),
        None => "n/d"@,
    }
}

/// A number of milliseconds, or that it is not known.
pub fn ms_string(ms: Option<u128>) -> (r: String)
    ensures
        r@ == ms_text(ms),
{
    match ms {
        Some(n) => decimal_string(n),
        None => "n/d".to_owned(),
    }
}

// ----------------------------------------------------------------------- events

/// What background work tells of itself.
#[derive(Debug, PartialEq, Eq)]
pub enum Event {
    ChatStatus(ServiceStatus),
    EmbeddingStatus(ServiceStatus),
    HealthSnapshot {
        chat_reachable: bool,
        embedding_reachable: bool,
        initial: bool,
        chat_model_available: bool,
        llama_command_available: bool,
        started_at: u128,
    },
    ChatRequestSucceeded,
    ChatRequestStarted(u128),
    ChatFirstToken(u128),
    ChatDelta(i64, String),
    ChatFinished(Result<i64, String>),
    PromptDiagnostic(String),
    GenerationStage(Option<String>),
    OverviewMetrics(String),
    ChatCancelled,
    IndexProgress(String),
    IndexFinished(Result<String, String>),
    CodeIndexProgress(String),
    CodeIndexFinished(Result<(i64, String), String>),
    CodeIndexCancelled(Option<i64>),
    ConfigResult(String),
}

/// What an `Event` holds.
pub enum EventView {
    ChatStatus(StatusView),
    EmbeddingStatus(StatusView),
    HealthSnapshot {
        chat_reachable: bool,
        embedding_reachable: bool,
        initial: bool,
        chat_model_available: bool,
        llama_command_available: bool,
        started_at: u128,
    },
    ChatRequestSucceeded,
    ChatRequestStarted(u128),
    ChatFirstToken(u128),
    ChatDelta(i64, Seq<char>),
    ChatFinished(Result<i64, Seq<char>>),
    PromptDiagnostic(Seq<char>),
    GenerationStage(Option<Seq<char>>),
    OverviewMetrics(Seq<char>),
    ChatCancelled,
    IndexProgress(Seq<char>),
    IndexFinished(Result<Seq<char>, Seq<char>>),
    CodeIndexProgress(Seq<char>),
    CodeIndexFinished(Result<(i64, Seq<char>), Seq<char>>),
    CodeIndexCancelled(Option<i64>),
    ConfigResult(Seq<char>),
}

impl View for Event {
    type V = EventView;

    open spec fn view(&self) -> EventView {
        match self {
            Event::ChatStatus(s) => EventView::ChatStatus(s@),
            Event::EmbeddingStatus(s) => EventView::EmbeddingStatus(s@),
            Event::HealthSnapshot {
                chat_reachable,
                embedding_reachable,
                initial,
                chat_model_available,
                llama_command_available,
                started_at,
            } => EventView::HealthSnapshot {
                chat_reachable: *chat_reachable,
                embedding_reachable: *embedding_reachable,
                initial: *initial,
                chat_model_available: *chat_model_available,
                llama_command_available: *llama_command_available,
                started_at: *started_at,
            },
            Event::ChatRequestSucceeded => EventView::ChatRequestSucceeded,
            Event::ChatRequestStarted(ms) => EventView::ChatRequestStarted(*ms),
            Event::ChatFirstToken(ms) => EventView::ChatFirstToken(*ms),
            Event::ChatDelta(chat, text) => EventView::ChatDelta(*chat, text@),
            Event::ChatFinished(Ok(chat)) => EventView::ChatFinished(Ok(*chat)),
            Event::ChatFinished(Err(error)) => EventView::ChatFinished(Err(error@)),
            Event::PromptDiagnostic(text) => EventView::PromptDiagnostic(text@),
            Event::GenerationStage(stage) => EventView::GenerationStage(opt_text(*stage)),
            Event::OverviewMetrics(text) => EventView::OverviewMetrics(text@),
            Event::ChatCancelled => EventView::ChatCancelled,
            Event::IndexProgress(text) => EventView::IndexProgress(text@),
            Event::IndexFinished(Ok(text)) => EventView::IndexFinished(Ok(text@)),
            Event::IndexFinished(Err(error)) => EventView::IndexFinished(Err(error@)),
            Event::CodeIndexProgress(text) => EventView::CodeIndexProgress(text@),
            Event::CodeIndexFinished(Ok((project, text))) => EventView::CodeIndexFinished(
                Ok((*project, text@)),
            ),
            Event::CodeIndexFinished(Err(error)) => EventView::CodeIndexFinished(Err(error@)),
            Event::CodeIndexCancelled(project) => EventView::CodeIndexCancelled(*project),
            Event::ConfigResult(text) => EventView::ConfigResult(text@),
        }
    }
}

/// What is owed to the stored data after an event.
#[derive(Debug, Clone, Copy, PartialEq, Eq, Structural)]
pub struct Followup {
    /// The project that is saved as the active one.
    pub save_project: Option<i64>,
    /// The lists are read again.
    pub reload: bool,
}

impl Followup {
    pub open spec fn nothing() -> Followup {
        Followup { save_project: None, reload: false }
    }
}

/// What is owed to the stored data after an event.
pub open spec fn followup(current_chat: Option<i64>, event: EventView) -> Followup {
    match event {
        EventView::ChatFinished(Ok(chat)) => Followup {
            save_project: None,
            reload: current_chat == Some(chat),
        },
        EventView::IndexFinished(_) => Followup { save_project: None, reload: true },
        EventView::CodeIndexFinished(Ok((project, _))) => Followup {
            save_project: Some(project),
            reload: true,
        },
        EventView::CodeIndexCancelled(_) => Followup { save_project: None, reload: true },
        _ => Followup::nothing(),
    }
}

impl SessionView {
    /// The state of a session that begins: nothing is open, and the services are
    /// being looked for.
    pub open spec fn opened(active_project: Option<i64>, diagnostic_mode: bool, now: u128) -> SessionView {
        SessionView {
            mode: Profile::General,
            screen: Screen::Chat,
            current_chat: None,
            active_library: None,
            active_project,
            selected_file: None,
            input: seq![],
            notice: None,
            notice_details: None,
            prompt_diagnostic: None,
            prompt_diagnostic_open: false,
            progress: None,
            generating: false,
            generation_chat: None,
            generation_started: None,
            streaming_text: seq![],
            streaming_buffer: seq![],
            streaming_flushed: now,
            request_started_ms: None,
            first_token_ms: None,
            ui_updates: 0,
            generation_metrics: None,
            generation_stage: None,
            indexing: false,
            code_indexing: false,
            code_status: "Selecciona un archivo o carpeta"@,
            chat_status: StatusView::Starting,
            embedding_status: StatusView::Starting,
            health_check_in_flight: true,
            health_checked: now,
            last_chat_success: None,
            diagnostic_mode,
            rename_chat: None,
            rename_text: seq![],
            rename_library: None,
            rename_library_text: seq![],
            pending_delete: None,
            pending_delete_library: None,
            pending_remove_project: None,
        }
    }

    /// An answer is on its way exactly if it has a chat, and there is shown or
    /// waiting text only while it is.
    pub open spec fn wf(self) -> bool {
        &&& self.generating == (self.generation_chat is Some)
        &&& !self.generating ==> self.streaming_text.len() == 0 && self.streaming_buffer.len() == 0
    }

    /// An error is told.
    pub open spec fn failed(self, details: Seq<char>) -> SessionView {
        SessionView { notice: Some(notice_text(details)), notice_details: Some(details), ..self }
    }

    /// How long the answer took, up to the given moment.
    pub open spec fn metrics_text(self, now: u128) -> Seq<char> {
        let total = match self.generation_started {
            Some(started) => Some((time_between(started, now) / 1_000_000) as u128),
            None => None,
        };
        "request desde Enviar: "@ + ms_text(self.request_started_ms) + " ms | primer token: "@
            + ms_text(self.first_token_ms) + " ms | total: "@ + ms_text(total)
            + " ms | actualizaciones UI: "@ + decimal(self.ui_updates as nat)
    }

    /// The time that the answer took is noted, where that is asked for.
    pub open spec fn measured(self, now: u128) -> SessionView {
        if self.diagnostic_mode {
            let metrics = self.metrics_text(now);
            SessionView {
                generation_metrics: Some(metrics),
                prompt_diagnostic: match self.prompt_diagnostic {
                    Some(text) => Some(
                        text + "\n\nDIAGNOSTICO DE LATENCIA LOCAL\n"@ + metrics + seq!['\n'],
                    ),
                    None => None,
                },
                generation_started: None,
                ..self
            }
        } else {
            SessionView { generation_started: None, ..self }
        }
    }

    /// No answer is on its way any more.
    pub open spec fn generation_ended(self, now: u128) -> SessionView {
        SessionView {
            generating: false,
            generation_chat: None,
            generation_stage: None,
            streaming_buffer: seq![],
            streaming_text: seq![],
            ..self.measured(now)
        }
    }

    /// The state after an event that is handled at the given moment.
    pub open spec fn after(self, event: EventView, now: u128) -> SessionView {
        match event {
            EventView::ChatStatus(status) => SessionView { chat_status: status, ..self },
            EventView::EmbeddingStatus(status) => SessionView { embedding_status: status, ..self },
            EventView::ChatRequestSucceeded => SessionView {
                last_chat_success: Some(now),
                chat_status: StatusView::Ready,
                ..self
            },
            EventView::HealthSnapshot {
                chat_reachable,
                embedding_reachable,
                initial,
                chat_model_available,
                llama_command_available,
                started_at,
            } => SessionView {
                health_check_in_flight: false,
                health_checked: now,
                chat_status: chat_after_health(
                    self.chat_status,
                    chat_reachable,
                    started_at,
                    self.last_chat_success,
                ),
                embedding_status: after_health(self.embedding_status, embedding_reachable),
                screen: if initial && opening_screen(
                    chat_reachable,
                    chat_model_available,
                    llama_command_available,
                ) == Screen::Settings && self.current_chat is None && self.mode == Profile::General
                    && self.screen == Screen::Chat {
                    Screen::Settings
                } else {
                    self.screen
                },
                ..self
            },
            EventView::ChatRequestStarted(ms) => SessionView {
                request_started_ms: Some(ms),
                ..self
            },
            EventView::ChatFirstToken(ms) => SessionView { first_token_ms: Some(ms), ..self },
            EventView::PromptDiagnostic(text) => SessionView {
                prompt_diagnostic: Some(text),
                ..self
            },
            EventView::GenerationStage(stage) => SessionView { generation_stage: stage, ..self },
            EventView::OverviewMetrics(metrics) => if self.diagnostic_mode {
                let before = match self.prompt_diagnostic {
                    Some(text) => text,
                    None => seq![],
                };
                SessionView {
                    prompt_diagnostic: Some(
                        before + "\n\nDIAGNOSTICO DE OVERVIEW LOCAL\n"@ + metrics + seq!['\n'],
                    ),
                    ..self
                }
            } else {
                self
            },
            EventView::ChatDelta(chat, text) => if self.generation_chat == Some(chat) {
                SessionView { streaming_buffer: self.streaming_buffer + text, ..self }
            } else {
                self
            },
            EventView::ChatFinished(Ok(_)) => self.generation_ended(now),
            EventView::ChatFinished(Err(error)) => self.generation_ended(now).failed(error),
            EventView::ChatCancelled => SessionView {
                notice: Some("Generacion detenida. La respuesta no fue guardada."@),
                ..self.generation_ended(now)
            },
            EventView::IndexProgress(text) => SessionView { progress: Some(text), ..self },
            EventView::IndexFinished(Ok(text)) => SessionView {
                indexing: false,
                progress: None,
                notice: Some(text),
                ..self
            },
            EventView::IndexFinished(Err(error)) => SessionView {
                indexing: false,
                progress: None,
                ..self
            }.failed(error),
            EventView::CodeIndexProgress(text) => SessionView { code_status: text, ..self },
            EventView::CodeIndexFinished(Ok((project, status))) => SessionView {
                code_indexing: false,
                active_project: Some(project),
                code_status: status,
                ..self
            },
            EventView::CodeIndexFinished(Err(error)) => SessionView {
                code_indexing: false,
                code_status: "No se pudo indexar el proyecto"@,
                ..self
            }.failed(error),
            EventView::CodeIndexCancelled(project) => SessionView {
                code_indexing: false,
                active_project: match project {
                    Some(id) => Some(id),
                    None => self.active_project,
                },
                code_status: "Indexacion cancelada"@,
                notice: Some("Indexacion cancelada. El proyecto quedo marcado como incompleto."@),
                ..self
            },
            EventView::ConfigResult(text) => SessionView { notice: Some(text), ..self },
        }
    }

    /// Waiting text is shown now.
    pub open spec fn flush_due(self, now: u128) -> bool {
        self.generating && self.streaming_buffer.len() > 0 && time_between(
            self.streaming_flushed,
            now,
        ) >= FLUSH_INTERVAL
    }

    /// The services are looked for now.
    pub open spec fn health_due(self, now: u128) -> bool {
        !self.health_check_in_flight && !self.generating && !self.indexing && !self.code_indexing
            && time_between(self.health_checked, now) >= HEALTH_INTERVAL
    }

    /// Waiting text has been shown, if it was due.
    pub open spec fn flushed(self, now: u128) -> SessionView {
        if self.flush_due(now) {
            SessionView {
                streaming_text: self.streaming_text + self.streaming_buffer,
                streaming_buffer: seq![],
                streaming_flushed: now,
                ui_updates: (self.ui_updates + 1) as u64,
                ..self
            }
        } else {
            self
        }
    }

    /// The state after a round in which nothing else happened.
    pub open spec fn ticked(self, now: u128) -> SessionView {
        SessionView {
            health_check_in_flight: self.health_check_in_flight || self.health_due(now),
            ..self.flushed(now)
        }
    }
}

/// What follows a round.
#[derive(Debug, Clone, Copy, PartialEq, Eq, Structural)]
pub struct Round {
    /// The services are looked for.
    pub check_health: bool,
    /// The window is drawn again after so many milliseconds.
    pub repaint_ms: u64,
}

/// The event is more than a piece of an answer, and is shown without delay.
pub open spec fn shows_at_once(event: EventView) -> bool {
    !(event is ChatDelta) && !(event is ChatFirstToken)
}

/// Whether an event is shown without delay.
pub fn forces_repaint(event: &Event) -> (r: bool)
    ensures
        r == shows_at_once(event@),
{
    match event {
        Event::ChatDelta(_, _) => false,
        Event::ChatFirstToken(_) => false,
        _ => true,
    }
}

impl Session {
    /// A session that begins.
    pub fn open(active_project: Option<i64>, diagnostic_mode: bool, now: u128) -> (r: Session)
        ensures
            r@ == SessionView::opened(active_project, diagnostic_mode, now),
            r@.wf(),
    {
        Session {
            mode: Profile::General,
            screen: Screen::Chat,
            current_chat: None,
            active_library: None,
            active_project,
            selected_file: None,
            input: String::new(),
            notice: None,
            notice_details: None,
            prompt_diagnostic: None,
            prompt_diagnostic_open: false,
            progress: None,
            generating: false,
            generation_chat: None,
            generation_started: None,
            streaming_text: String::new(),
            streaming_buffer: String::new(),
            streaming_flushed: now,
            request_started_ms: None,
            first_token_ms: None,
            ui_updates: 0,
            generation_metrics: None,
            generation_stage: None,
            indexing: false,
            code_indexing: false,
            code_status: "Selecciona un archivo o carpeta".to_owned(),
            chat_status: ServiceStatus::Starting,
            embedding_status: ServiceStatus::Starting,
            health_check_in_flight: true,
            health_checked: now,
            last_chat_success: None,
            diagnostic_mode,
            rename_chat: None,
            rename_text: String::new(),
            rename_library: None,
            rename_library_text: String::new(),
            pending_delete: None,
            pending_delete_library: None,
            pending_remove_project: None,
        }
    }

    /// Tells an error: what it means, and its details.
    pub fn fail(&mut self, details: String)
        ensures
            final(self)@ == old(self)@.failed(details@),
    {
        self.notice = Some(notice_for(details.as_str()).to_owned());
        self.notice_details = Some(details);
    }

    /// Tells something.
    pub fn tell(&mut self, text: &str)
        ensures
            final(self)@ == (SessionView { notice: Some(text@), ..old(self)@ }),
    {
        self.notice = Some(text.to_owned());
    }

    /// Notes how long the answer took, where that is asked for.
    fn measure(&mut self, now: u128)
        ensures
            final(self)@ == old(self)@.measured(now),
    {
        if self.diagnostic_mode {
            let total: Option<u128> = match self.generation_started {
                Some(started) => Some(elapsed(started, now) / 1_000_000),
                None => None,
            };
            let mut metrics = "request desde Enviar: ".to_owned();
            metrics.append(ms_string(self.request_started_ms).as_str());
            metrics.append(" ms | primer token: ");
            metrics.append(ms_string(self.first_token_ms).as_str());
            metrics.append(" ms | total: ");
            metrics.append(ms_string(total).as_str());
            metrics.append(" ms | actualizaciones UI: ");
            metrics.append(decimal_string(self.ui_updates as u128).as_str());
            assert(metrics@ =~= old(self)@.metrics_text(now));
            let text = match &self.prompt_diagnostic {
                Some(before) => {
                    let mut text = before.clone();
                    text.append("\n\nDIAGNOSTICO DE LATENCIA LOCAL\n");
                    text.append(metrics.as_str());
                    text.push('\n');
                    assert(text@ =~= before@ + "\n\nDIAGNOSTICO DE LATENCIA LOCAL\n"@ + metrics@ + seq![
                        '\n',
                    ]);
                    Some(text)
                },
                None => None,
            };
            self.prompt_diagnostic = text;
            self.generation_metrics = Some(metrics);
        }
        self.generation_started = None;
    }

    /// Ends the answer that is on its way.
    fn end_generation(&mut self, now: u128)
        ensures
            final(self)@ == old(self)@.generation_ended(now),
    {
        self.measure(now);
        self.generating = false;
        self.generation_chat = None;
        self.generation_stage = None;
        self.streaming_buffer = String::new();
        self.streaming_text = String::new();
    }

    fn note_health(
        &mut self,
        chat_reachable: bool,
        embedding_reachable: bool,
        settings_needed: bool,
        started_at: u128,
        now: u128,
    )
        ensures
            final(self)@ == (SessionView {
                health_check_in_flight: false,
                health_checked: now,
                chat_status: chat_after_health(
                    old(self)@.chat_status,
                    chat_reachable,
                    started_at,
                    old(self)@.last_chat_success,
                ),
                embedding_status: after_health(old(self)@.embedding_status, embedding_reachable),
                screen: if settings_needed && old(self)@.current_chat is None && old(self)@.mode
                    == Profile::General && old(self)@.screen == Screen::Chat {
                    Screen::Settings
                } else {
                    old(self)@.screen
                },
                ..old(self)@
            }),
    {
        self.health_check_in_flight = false;
        self.health_checked = now;
        self.chat_status = chat_status_after_health(
            &self.chat_status,
            chat_reachable,
            started_at,
            self.last_chat_success,
        );
        self.embedding_status = status_after_health(&self.embedding_status, embedding_reachable);
        if settings_needed && self.current_chat.is_none() && self.mode == Profile::General
            && self.screen == Screen::Chat {
            self.screen = Screen::Settings;
        }
    }

    fn note_overview(&mut self, metrics: &str, now: u128)
        ensures
            final(self)@ == old(self)@.after(EventView::OverviewMetrics(metrics@), now),
    {
        if self.diagnostic_mode {
            let mut text = match &self.prompt_diagnostic {
                Some(before) => before.clone(),
                None => String::new(),
            };
            let ghost before = text@;
            text.append("\n\nDIAGNOSTICO DE OVERVIEW LOCAL\n");
            text.append(metrics);
            text.push('\n');
            assert(text@ =~= before + "\n\nDIAGNOSTICO DE OVERVIEW LOCAL\n"@ + metrics@ + seq!['\n']);
            self.prompt_diagnostic = Some(text);
        }
    }

    fn finish_chat(&mut self, result: Result<i64, String>, now: u128) -> (r: Followup)
        ensures
            final(self)@ == old(self)@.after(Event::ChatFinished(result)@, now),
            r == followup(old(self)@.current_chat, Event::ChatFinished(result)@),
    {
        self.end_generation(now);
        match result {
            Ok(chat) => Followup { save_project: None, reload: self.current_chat == Some(chat) },
            Err(error) => {
                self.fail(error);
                Followup { save_project: None, reload: false }
            },
        }
    }

    fn finish_index(&mut self, result: Result<String, String>, now: u128)
        ensures
            final(self)@ == old(self)@.after(Event::IndexFinished(result)@, now),
    {
        self.indexing = false;
        self.progress = None;
        match result {
            Ok(text) => {
                self.notice = Some(text);
            },
            Err(error) => {
                self.fail(error);
            },
        }
    }

    fn finish_code_index(&mut self, result: Result<(i64, String), String>, now: u128) -> (r: Followup)
        ensures
            final(self)@ == old(self)@.after(Event::CodeIndexFinished(result)@, now),
            r == followup(old(self)@.current_chat, Event::CodeIndexFinished(result)@),
    {
        self.code_indexing = false;
        match result {
            Ok((project, status)) => {
                self.active_project = Some(project);
                self.code_status = status;
                Followup { save_project: Some(project), reload: true }
            },
            Err(error) => {
                self.code_status = "No se pudo indexar el proyecto".to_owned();
                self.fail(error);
                Followup { save_project: None, reload: false }
            },
        }
    }

    fn cancel_code_index(&mut self, project: Option<i64>, now: u128)
        ensures
            final(self)@ == old(self)@.after(EventView::CodeIndexCancelled(project), now),
    {
        self.code_indexing = false;
        if let Some(id) = project {
            self.active_project = Some(id);
        }
        self.code_status = "Indexacion cancelada".to_owned();
        self.tell("Indexacion cancelada. El proyecto quedo marcado como incompleto.");
    }

    /// Handles an event.
    pub fn handle(&mut self, event: Event, now: u128) -> (r: Followup)
        ensures
            final(self)@ == old(self)@.after(event@, now),
            r == followup(old(self)@.current_chat, event@),
    {
        let nothing = Followup { save_project: None, reload: false };
        let reload = Followup { save_project: None, reload: true };
        match event {
            Event::ChatStatus(status) => {
                self.chat_status = status;
                nothing
            },
            Event::EmbeddingStatus(status) => {
                self.embedding_status = status;
                nothing
            },
            Event::ChatRequestSucceeded => {
                self.last_chat_success = Some(now);
                self.chat_status = ServiceStatus::Ready;
                nothing
            },
            Event::HealthSnapshot {
                chat_reachable,
                embedding_reachable,
                initial,
                chat_model_available,
                llama_command_available,
                started_at,
            } => {
                let settings_needed = initial && startup_view(
                    chat_reachable,
                    chat_model_available,
                    llama_command_available,
                ) == Screen::Settings;
                self.note_health(
                    chat_reachable,
                    embedding_reachable,
                    settings_needed,
                    started_at,
                    now,
                );
                nothing
            },
            Event::ChatRequestStarted(ms) => {
                self.request_started_ms = Some(ms);
                nothing
            },
            Event::ChatFirstToken(ms) => {
                self.first_token_ms = Some(ms);
                nothing
            },
            Event::PromptDiagnostic(text) => {
                self.prompt_diagnostic = Some(text);
                nothing
            },
            Event::GenerationStage(stage) => {
                self.generation_stage = stage;
                nothing
            },
            Event::OverviewMetrics(metrics) => {
                self.note_overview(metrics.as_str(), now);
                nothing
            },
            Event::ChatDelta(chat, text) => {
                if self.generation_chat == Some(chat) {
                    self.streaming_buffer.append(text.as_str());
                }
                nothing
            },
            Event::ChatFinished(result) => self.finish_chat(result, now),
            Event::ChatCancelled => {
                self.end_generation(now);
                self.tell("Generacion detenida. La respuesta no fue guardada.");
                nothing
            },
            Event::IndexProgress(text) => {
                self.progress = Some(text);
                nothing
            },
            Event::IndexFinished(result) => {
                self.finish_index(result, now);
                reload
            },
            Event::CodeIndexProgress(text) => {
                self.code_status = text;
                nothing
            },
            Event::CodeIndexFinished(result) => self.finish_code_index(result, now),
            Event::CodeIndexCancelled(project) => {
                self.cancel_code_index(project, now);
                reload
            },
            Event::ConfigResult(text) => {
                self.notice = Some(text);
                nothing
            },
        }
    }

    /// Ends a round: shows waiting text, has the services looked for when it is time,
    /// and says when the window is drawn again.
    pub fn tick(&mut self, now: u128, immediate: bool) -> (r: Round)
        requires
            old(self).ui_updates < u64::MAX,
        ensures
            final(self)@ == old(self)@.ticked(now),
            r.check_health == old(self)@.health_due(now),
            r.repaint_ms as int == if immediate {
                0int
            } else if old(self)@.generating {
                40
            } else {
                500
            },
    {
        if self.generating && !self.streaming_buffer.as_str().is_empty() && elapsed(
            self.streaming_flushed,
            now,
        ) >= FLUSH_INTERVAL {
            self.streaming_text.append(self.streaming_buffer.as_str());
            self.streaming_buffer = String::new();
            self.streaming_flushed = now;
            self.ui_updates = self.ui_updates + 1;
        }
        let check_health = !self.health_check_in_flight && !self.generating && !self.indexing
            && !self.code_indexing && elapsed(self.health_checked, now) >= HEALTH_INTERVAL;
        if check_health {
            self.health_check_in_flight = true;
        }
        let repaint_ms: u64 = if immediate {
            0
        } else if self.generating {
            40
        } else {
            500
        };
        Round { check_health, repaint_ms }
    }

    /// Whether the open chat shows that its answer is on its way.
    pub fn generation_visible_for_current_chat(&self) -> (r: bool)
        ensures
            r == (self@.generating && belongs(self@.current_chat, self@.generation_chat)),
    {
        self.generating && generation_belongs_to_chat(self.current_chat, self.generation_chat)
    }

    /// The part of the answer that the open chat shows.
    pub fn streaming_for_current_chat(&self) -> (r: String)
        ensures
            r@ == if self@.current_chat == self@.generation_chat {
                self@.streaming_text
            } else {
                seq![]
            },
    {
        if self.current_chat == self.generation_chat {
            self.streaming_text.clone()
        } else {
            String::new()
        }
    }
}

// ------------------------------------------------------------------------- laws

/// Every event keeps the state well formed.
pub proof fn law_events_keep_order(s: SessionView, event: EventView, now: u128)
    requires
        s.wf(),
    ensures
        s.after(event, now).wf(),
        s.ticked(now).wf(),
{
}

/// A piece of an answer goes to the chat that asked for it, and a piece that comes
/// for another chat, or after the answer ended, changes nothing.
pub proof fn law_pieces_reach_their_chat(s: SessionView, chat: i64, text: Seq<char>, now: u128)
    ensures
        s.generation_chat == Some(chat) ==> s.after(EventView::ChatDelta(chat, text), now)
            == (SessionView { streaming_buffer: s.streaming_buffer + text, ..s }),
        s.generation_chat != Some(chat) ==> s.after(EventView::ChatDelta(chat, text), now) == s,
{
}

/// No event but the end of an answer moves it to another chat.
pub proof fn law_events_keep_the_answering_chat(s: SessionView, event: EventView, now: u128)
    requires
        !(event is ChatFinished),
        !(event is ChatCancelled),
    ensures
        s.after(event, now).generation_chat == s.generation_chat,
        s.after(event, now).generating == s.generating,
        s.after(event, now).streaming_text == s.streaming_text,
{
}

/// Showing waiting text loses nothing of an answer.
pub proof fn law_rounds_keep_the_answer(s: SessionView, now: u128)
    ensures
        s.ticked(now).streaming_text + s.ticked(now).streaming_buffer == s.streaming_text
            + s.streaming_buffer,
{
    assert(s.ticked(now).streaming_text + s.ticked(now).streaming_buffer =~= s.streaming_text
        + s.streaming_buffer);
}

/// An event never changes which chat is open, what is typed or what is about to be
/// renamed or deleted.
pub proof fn law_events_keep_the_place(s: SessionView, event: EventView, now: u128)
    ensures
        s.after(event, now).current_chat == s.current_chat,
        s.after(event, now).mode == s.mode,
        s.after(event, now).active_library == s.active_library,
        s.after(event, now).input == s.input,
        s.after(event, now).pending_delete == s.pending_delete,
        s.after(event, now).pending_delete_library == s.pending_delete_library,
        s.after(event, now).pending_remove_project == s.pending_remove_project,
{
}

/// Services are not looked for while an answer or an index is being made.
pub proof fn law_no_check_during_work(s: SessionView, now: u128)
    requires
        s.generating || s.indexing || s.code_indexing,
    ensures
        !s.health_due(now),
{
}

} // verus!
