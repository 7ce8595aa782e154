//! What the requests of the user do to a session, and what they ask of the stored
//! data and of the outside.

use vstd::prelude::*;

use crate::ai::process::{ServiceKind, ServiceStatus, StatusView};
use crate::code::search::{is_about_selection, targets_selected_file};
use crate::code::types::{CodeFile, CodeProject};
use crate::models::{opt_text, Chat, Document, Library, Profile};
use crate::session::choices::{
    active_profile, captured_code_file, chat_view_for_profile, conversation_screen, find_chat,
    find_library, find_project, first_ready, has_chat, has_library, has_project, is_usable,
    kept_file, last_chat, mode_of, ready_project, remembered_chat,
    valid_selected_code_file, Screen,
};
use crate::session::state::{Session, SessionView, HEALTH_INTERVAL};
use crate::text::{integer, integer_string, lowercase, trim, trimmed};
use crate::ui::code::CodeAction;
use crate::ui::libraries::LibraryAction;
use crate::ui::sidebar::SidebarAction;

verus! {

/// What a request asks of the stored data and of the outside.
#[derive(Debug, PartialEq, Eq)]
pub enum Effect {
    Nothing,
    /// The messages on the screen go away.
    ForgetMessages,
    /// The chat is saved as the last one of its mode, and the lists are read again.
    RememberChat(i64),
    /// The documents of the active library are read.
    LoadDocuments,
    PickSourceFile,
    PickFolder,
    /// A document for the library is chosen.
    PickDocument(i64),
    StopCodeIndexing,
    StopIndexing,
    /// The project is saved as the active one, and the lists are read again.
    RememberProject(i64),
    /// The folder is indexed anew.
    IndexFolder(String),
    /// The typed question is sent.
    Send,
    CreateLibrary,
    DeleteDocument(i64),
    /// The file is indexed anew in place of the document.
    IndexDocument { library: i64, path: String, document: i64 },
}

/// What an `Effect` holds.
pub enum EffectView {
    Nothing,
    ForgetMessages,
    RememberChat(i64),
    LoadDocuments,
    PickSourceFile,
    PickFolder,
    PickDocument(i64),
    StopCodeIndexing,
    StopIndexing,
    RememberProject(i64),
    IndexFolder(Seq<char>),
    Send,
    CreateLibrary,
    DeleteDocument(i64),
    IndexDocument { library: i64, path: Seq<char>, document: i64 },
}

impl View for Effect {
    type V = EffectView;

    open spec fn view(&self) -> EffectView {
        match self {
            Effect::Nothing => EffectView::Nothing,
            Effect::ForgetMessages => EffectView::ForgetMessages,
            Effect::RememberChat(id) => EffectView::RememberChat(*id),
            Effect::LoadDocuments => EffectView::LoadDocuments,
            Effect::PickSourceFile => EffectView::PickSourceFile,
            Effect::PickFolder => EffectView::PickFolder,
            Effect::PickDocument(id) => EffectView::PickDocument(*id),
            Effect::StopCodeIndexing => EffectView::StopCodeIndexing,
            Effect::StopIndexing => EffectView::StopIndexing,
            Effect::RememberProject(id) => EffectView::RememberProject(*id),
            Effect::IndexFolder(path) => EffectView::IndexFolder(path@),
            Effect::Send => EffectView::Send,
            Effect::CreateLibrary => EffectView::CreateLibrary,
            Effect::DeleteDocument(id) => EffectView::DeleteDocument(*id),
            Effect::IndexDocument { library, path, document } => EffectView::IndexDocument {
                library: *library,
                path: path@,
                document: *document,
            },
        }
    }
}

// ---------------------------------------------------------------------- looking up

/// The title of the first chat with the number, or nothing.
pub open spec fn title_of_chat(chats: Seq<Chat>, id: i64) -> Seq<char>
    decreases chats.len(),
{
    if chats.len() == 0 {
        seq![]
    } else if chats[0].id == id {
        chats[0].title@
    } else {
        title_of_chat(chats.skip(1), id)
    }
}

/// The title of the first chat with the number, or nothing.
pub fn chat_title(chats: &Vec<Chat>, id: i64) -> (r: String)
    ensures
        r@ == title_of_chat(chats@, id),
{
    let mut i: usize = 0;
    assert(chats@.skip(0) =~= chats@);
    while i < chats.len()
        invariant
            i <= chats.len(),
            title_of_chat(chats@, id) == title_of_chat(chats@.skip(i as int), id),
        decreases chats.len() - i,
    {
        assert(chats@.skip(i as int).skip(1) =~= chats@.skip(i + 1));
        if chats[i].id == id {
            return chats[i].title.clone();
        }
        i += 1;
    }
    String::new()
}

/// The name of the first library with the number, if there is one.
pub open spec fn name_of_library(libraries: Seq<Library>, id: i64) -> Option<Seq<char>>
    decreases libraries.len(),
{
    if libraries.len() == 0 {
        None
    } else if libraries[0].id == id {
        Some(libraries[0].name@)
    } else {
        name_of_library(libraries.skip(1), id)
    }
}

/// The name of the first library with the number, if there is one.
pub fn library_name(libraries: &Vec<Library>, id: i64) -> (r: Option<String>)
    ensures
        opt_text(r) == name_of_library(libraries@, id),
{
    let mut i: usize = 0;
    assert(libraries@.skip(0) =~= libraries@);
    while i < libraries.len()
        invariant
            i <= libraries.len(),
            name_of_library(libraries@, id) == name_of_library(libraries@.skip(i as int), id),
        decreases libraries.len() - i,
    {
        assert(libraries@.skip(i as int).skip(1) =~= libraries@.skip(i + 1));
        if libraries[i].id == id {
            return Some(libraries[i].name.clone());
        }
        i += 1;
    }
    None
}

/// The first project with the number, if there is one.
pub open spec fn project_with(projects: Seq<CodeProject>, id: i64) -> Option<CodeProject>
    decreases projects.len(),
{
    if projects.len() == 0 {
        None
    } else if projects[0].id == id {
        Some(projects[0])
    } else {
        project_with(projects.skip(1), id)
    }
}

/// The position of the first project with the number, if there is one.
pub fn locate_project(projects: &Vec<CodeProject>, id: i64) -> (r: Option<usize>)
    ensures
        match r {
            Some(i) => i < projects@.len() && project_with(projects@, id) == Some(
                projects@[i as int],
            ),
            None => project_with(projects@, id) is None,
        },
{
    let mut i: usize = 0;
    assert(projects@.skip(0) =~= projects@);
    while i < projects.len()
        invariant
            i <= projects.len(),
            project_with(projects@, id) == project_with(projects@.skip(i as int), id),
        decreases projects.len() - i,
    {
        assert(projects@.skip(i as int).skip(1) =~= projects@.skip(i + 1));
        if projects[i].id == id {
            return Some(i);
        }
        i += 1;
    }
    None
}

/// The first document with the number, if there is one.
pub open spec fn document_with(documents: Seq<Document>, id: i64) -> Option<Document>
    decreases documents.len(),
{
    if documents.len() == 0 {
        None
    } else if documents[0].id == id {
        Some(documents[0])
    } else {
        document_with(documents.skip(1), id)
    }
}

/// The position of the first document with the number, if there is one.
pub fn locate_document(documents: &Vec<Document>, id: i64) -> (r: Option<usize>)
    ensures
        match r {
            Some(i) => i < documents@.len() && document_with(documents@, id) == Some(
                documents@[i as int],
            ),
            None => document_with(documents@, id) is None,
        },
{
    let mut i: usize = 0;
    assert(documents@.skip(0) =~= documents@);
    while i < documents.len()
        invariant
            i <= documents.len(),
            document_with(documents@, id) == document_with(documents@.skip(i as int), id),
        decreases documents.len() - i,
    {
        assert(documents@.skip(i as int).skip(1) =~= documents@.skip(i + 1));
        if documents[i].id == id {
            return Some(i);
        }
        i += 1;
    }
    None
}

// --------------------------------------------------------------------- transitions

/// What is said when a library is gone.
pub const LIBRARY_GONE: &'static str = "La biblioteca seleccionada ya no existe";

/// The library can be made the active one: there is none, or it is in the list.
pub open spec fn is_choosable(library: Option<i64>, libraries: Seq<Library>) -> bool {
    library matches Some(id) ==> has_library(libraries, id)
}

impl SessionView {
    /// Another library, or none, is made the active one.
    pub open spec fn with_library(self, library: Option<i64>, libraries: Seq<Library>) -> SessionView {
        if is_choosable(library, libraries) {
            SessionView { active_library: library, ..self }
        } else {
            self.failed(LIBRARY_GONE@)
        }
    }

    /// The state after a request in the side bar.
    pub open spec fn after_sidebar(
        self,
        action: SidebarAction,
        chats: Seq<Chat>,
        libraries: Seq<Library>,
    ) -> SessionView {
        match action {
            SidebarAction::NewChat => SessionView {
                input: seq![],
                current_chat: None,
                prompt_diagnostic: None,
                generation_metrics: None,
                ..self
            },
            SidebarAction::SelectChat(id) => if has_chat(chats, id) {
                SessionView {
                    input: if self.current_chat == Some(id) {
                        self.input
                    } else {
                        seq![]
                    },
                    current_chat: Some(id),
                    screen: conversation_screen(self.mode),
                    ..self
                }
            } else {
                self
            },
            SidebarAction::DeleteChat(id) => SessionView { pending_delete: Some(id), ..self },
            SidebarAction::RenameChat(id) => SessionView {
                rename_chat: Some(id),
                rename_text: title_of_chat(chats, id),
                ..self
            },
            SidebarAction::SelectLibrary(library) => self.with_library(library, libraries),
            SidebarAction::OpenLibraries => SessionView { screen: Screen::Libraries, ..self },
            SidebarAction::OpenSettings => SessionView { screen: Screen::Settings, ..self },
        }
    }

    /// The state after a request in the project panel.
    pub open spec fn after_code(self, action: CodeAction) -> SessionView {
        match action {
            CodeAction::CancelIndexing => self.code_cancelling(),
            CodeAction::SelectProject(id) => SessionView {
                active_project: Some(id),
                selected_file: None,
                ..self
            },
            CodeAction::RemoveProject(id) => SessionView {
                pending_remove_project: Some(id),
                ..self
            },
            CodeAction::SelectFile(id) => SessionView { selected_file: Some(id), ..self },
            CodeAction::QuickPrompt(action) => SessionView {
                input: action.spec_prompt(),
                ..self
            },
            CodeAction::OpenFile => self,
            CodeAction::OpenFolder => self,
            CodeAction::ReindexProject(_) => self,
        }
    }

    /// The state after a request in the window of libraries.
    pub open spec fn after_library(self, action: LibraryAction, libraries: Seq<Library>) -> SessionView {
        match action {
            LibraryAction::BackToChat => SessionView {
                screen: conversation_screen(self.mode),
                ..self
            },
            LibraryAction::Select(id) => self.with_library(Some(id), libraries),
            LibraryAction::Rename(id) => SessionView {
                rename_library: Some(id),
                rename_library_text: match name_of_library(libraries, id) {
                    Some(name) => name,
                    None => seq![],
                },
                ..self
            },
            LibraryAction::Delete(id) => SessionView { pending_delete_library: Some(id), ..self },
            LibraryAction::Create => self,
            LibraryAction::AddDocument => self,
            LibraryAction::CancelIndexing => self,
            LibraryAction::DeleteDocument(_) => self,
            LibraryAction::Reindex(_) => self,
        }
    }

    /// The indexing of a project is being given up.
    pub open spec fn code_cancelling(self) -> SessionView {
        if self.code_indexing {
            SessionView { code_status: "Cancelando indexacion..."@, ..self }
        } else {
            self
        }
    }

    /// The open chat, after the chats were read again.
    pub open spec fn with_chats(self, chats: Seq<Chat>) -> SessionView {
        match self.current_chat {
            Some(id) => if has_chat(chats, id) {
                self
            } else {
                SessionView {
                    current_chat: if chats.len() > 0 {
                        Some(chats[0].id)
                    } else {
                        None
                    },
                    ..self
                }
            },
            None => self,
        }
    }

    /// The active library, after the chats and libraries were read again: one that
    /// is gone is not active, and where documents are talked about the library of
    /// the open chat takes the place of none.
    pub open spec fn with_libraries(self, libraries: Seq<Library>, chat_library: Option<i64>) -> SessionView {
        let kept = match self.active_library {
            Some(id) => if has_library(libraries, id) {
                Some(id)
            } else {
                None
            },
            None => None,
        };
        SessionView {
            active_library: if kept is None && self.mode == Profile::Documentation {
                match chat_library {
                    Some(id) => if has_library(libraries, id) {
                        Some(id)
                    } else {
                        None
                    },
                    None => None,
                }
            } else {
                kept
            },
            ..self
        }
    }

    /// Another mode is chosen.
    pub open spec fn with_mode(self, profile: Profile, saved: Option<Seq<char>>, chats: Seq<Chat>) -> SessionView {
        SessionView {
            input: if mode_of(profile) == self.mode {
                self.input
            } else {
                seq![]
            },
            mode: mode_of(profile),
            current_chat: remembered_chat(saved, chats),
            ..self
        }
    }

    /// A project was removed, and these are left.
    pub open spec fn without_project(self, id: i64, projects: Seq<CodeProject>) -> SessionView {
        let lost = match self.active_project {
            Some(active) => active == id || !has_project(projects, active),
            None => false,
        };
        let active = if lost {
            ready_project(projects)
        } else {
            self.active_project
        };
        SessionView {
            active_project: active,
            selected_file: if lost {
                None
            } else {
                self.selected_file
            },
            code_status: if active is Some {
                "Proyecto activo actualizado"@
            } else {
                "Selecciona un archivo o carpeta"@
            },
            ..self
        }
    }

    /// A question cannot be asked, and this says why.
    pub open spec fn objection(self, files: Seq<CodeFile>) -> Option<Seq<char>> {
        if self.mode == Profile::Code {
            match self.active_project {
                None => Some("No hay un proyecto valido seleccionado."@),
                Some(project) => if is_about_selection(lowercase(trim(self.input))) && forall|i: int|
                    0 <= i < files.len() ==> !is_usable(
                        #[trigger] files[i],
                        project,
                        self.selected_file,
                    ) {
                    Some("No hay un archivo valido seleccionado."@)
                } else {
                    None
                },
            }
        } else {
            None
        }
    }

    /// A question is ready to be asked: something is typed and no answer is on its
    /// way.
    pub open spec fn has_question(self) -> bool {
        trim(self.input).len() > 0 && !self.generating
    }

    /// An answer for the chat is on its way.
    pub open spec fn asked(self, chat: i64, now: u128) -> SessionView {
        SessionView {
            input: seq![],
            generating: true,
            streaming_text: seq![],
            streaming_buffer: seq![],
            streaming_flushed: now,
            generation_started: Some(now),
            request_started_ms: None,
            first_token_ms: None,
            ui_updates: 0,
            generation_metrics: None,
            generation_stage: None,
            generation_chat: Some(chat),
            ..self
        }
    }
}

/// What a request in the side bar asks for.
pub open spec fn sidebar_effect(
    action: SidebarAction,
    chats: Seq<Chat>,
    libraries: Seq<Library>,
) -> EffectView {
    match action {
        SidebarAction::NewChat => EffectView::ForgetMessages,
        SidebarAction::SelectChat(id) => if has_chat(chats, id) {
            EffectView::RememberChat(id)
        } else {
            EffectView::Nothing
        },
        SidebarAction::SelectLibrary(library) => if is_choosable(library, libraries) {
            EffectView::LoadDocuments
        } else {
            EffectView::Nothing
        },
        _ => EffectView::Nothing,
    }
}

/// What a request in the project panel asks for.
pub open spec fn code_effect(s: SessionView, action: CodeAction, projects: Seq<CodeProject>) -> EffectView {
    match action {
        CodeAction::OpenFile => EffectView::PickSourceFile,
        CodeAction::OpenFolder => EffectView::PickFolder,
        CodeAction::CancelIndexing => if s.code_indexing {
            EffectView::StopCodeIndexing
        } else {
            EffectView::Nothing
        },
        CodeAction::SelectProject(id) => EffectView::RememberProject(id),
        CodeAction::ReindexProject(id) => match project_with(projects, id) {
            Some(project) => EffectView::IndexFolder(project.root_path@),
            None => EffectView::Nothing,
        },
        CodeAction::QuickPrompt(_) => EffectView::Send,
        CodeAction::RemoveProject(_) => EffectView::Nothing,
        CodeAction::SelectFile(_) => EffectView::Nothing,
    }
}

/// What a request in the window of libraries asks for.
pub open spec fn library_effect(
    s: SessionView,
    action: LibraryAction,
    libraries: Seq<Library>,
    documents: Seq<Document>,
) -> EffectView {
    match action {
        LibraryAction::Create => EffectView::CreateLibrary,
        LibraryAction::Select(id) => if has_library(libraries, id) {
            EffectView::LoadDocuments
        } else {
            EffectView::Nothing
        },
        LibraryAction::AddDocument => match s.active_library {
            Some(id) => EffectView::PickDocument(id),
            None => EffectView::Nothing,
        },
        LibraryAction::CancelIndexing => if s.indexing {
            EffectView::StopIndexing
        } else {
            EffectView::Nothing
        },
        LibraryAction::DeleteDocument(id) => EffectView::DeleteDocument(id),
        LibraryAction::Reindex(id) => match document_with(documents, id) {
            Some(document) => EffectView::IndexDocument {
                library: document.library_id,
                path: document.original_path@,
                document: id,
            },
            None => EffectView::Nothing,
        },
        _ => EffectView::Nothing,
    }
}

impl Session {
    /// Makes another library, or none, the active one. Says whether it could.
    pub fn set_active_library(&mut self, library: Option<i64>, libraries: &Vec<Library>) -> (r: bool)
        ensures
            final(self)@ == old(self)@.with_library(library, libraries@),
            r == is_choosable(library, libraries@),
    {
        if let Some(id) = library {
            if find_library(libraries, id).is_none() {
                self.fail(LIBRARY_GONE.to_owned());
                return false;
            }
        }
        self.active_library = library;
        true
    }

    /// The documents of the active library were read: what was sent for another one
    /// is no longer shown.
    pub fn documents_loaded(&mut self)
        ensures
            final(self)@ == (SessionView { prompt_diagnostic: None, ..old(self)@ }),
    {
        self.prompt_diagnostic = None;
    }

    /// Serves a request in the side bar.
    pub fn sidebar(
        &mut self,
        action: SidebarAction,
        chats: &Vec<Chat>,
        libraries: &Vec<Library>,
    ) -> (r: Effect)
        ensures
            final(self)@ == old(self)@.after_sidebar(action, chats@, libraries@),
            r@ == sidebar_effect(action, chats@, libraries@),
    {
        match action {
            SidebarAction::NewChat => {
                self.input = String::new();
                self.current_chat = None;
                self.prompt_diagnostic = None;
                self.generation_metrics = None;
                Effect::ForgetMessages
            },
            SidebarAction::SelectChat(id) => match find_chat(chats, id) {
                Some(i) => {
                    assert(chats@[i as int].id == id);
                    if self.current_chat != Some(id) {
                        self.input = String::new();
                    }
                    self.current_chat = Some(id);
                    self.screen = chat_view_for_profile(self.mode);
                    Effect::RememberChat(id)
                },
                None => Effect::Nothing,
            },
            SidebarAction::DeleteChat(id) => {
                self.pending_delete = Some(id);
                Effect::Nothing
            },
            SidebarAction::RenameChat(id) => {
                self.rename_chat = Some(id);
                self.rename_text = chat_title(chats, id);
                Effect::Nothing
            },
            SidebarAction::SelectLibrary(library) => {
                if self.set_active_library(library, libraries) {
                    Effect::LoadDocuments
                } else {
                    Effect::Nothing
                }
            },
            SidebarAction::OpenLibraries => {
                self.screen = Screen::Libraries;
                Effect::Nothing
            },
            SidebarAction::OpenSettings => {
                self.screen = Screen::Settings;
                Effect::Nothing
            },
        }
    }

    /// Serves a request in the project panel.
    pub fn code(&mut self, action: CodeAction, projects: &Vec<CodeProject>) -> (r: Effect)
        ensures
            final(self)@ == old(self)@.after_code(action),
            r@ == code_effect(old(self)@, action, projects@),
    {
        match action {
            CodeAction::OpenFile => Effect::PickSourceFile,
            CodeAction::OpenFolder => Effect::PickFolder,
            CodeAction::CancelIndexing => {
                if self.cancel_code_indexing() {
                    Effect::StopCodeIndexing
                } else {
                    Effect::Nothing
                }
            },
            CodeAction::SelectProject(id) => {
                self.active_project = Some(id);
                self.selected_file = None;
                Effect::RememberProject(id)
            },
            CodeAction::ReindexProject(id) => match locate_project(projects, id) {
                Some(i) => Effect::IndexFolder(projects[i].root_path.clone()),
                None => Effect::Nothing,
            },
            CodeAction::RemoveProject(id) => {
                self.pending_remove_project = Some(id);
                Effect::Nothing
            },
            CodeAction::SelectFile(id) => {
                self.selected_file = Some(id);
                Effect::Nothing
            },
            CodeAction::QuickPrompt(action) => {
                self.input = action.prompt().to_owned();
                Effect::Send
            },
        }
    }

    /// Serves a request in the window of libraries.
    pub fn library(
        &mut self,
        action: LibraryAction,
        libraries: &Vec<Library>,
        documents: &Vec<Document>,
    ) -> (r: Effect)
        ensures
            final(self)@ == old(self)@.after_library(action, libraries@),
            r@ == library_effect(old(self)@, action, libraries@, documents@),
    {
        match action {
            LibraryAction::BackToChat => {
                self.screen = chat_view_for_profile(self.mode);
                Effect::Nothing
            },
            LibraryAction::Create => Effect::CreateLibrary,
            LibraryAction::Select(id) => {
                if self.set_active_library(Some(id), libraries) {
                    Effect::LoadDocuments
                } else {
                    Effect::Nothing
                }
            },
            LibraryAction::Rename(id) => {
                self.rename_library = Some(id);
                self.rename_library_text = match library_name(libraries, id) {
                    Some(name) => name,
                    None => String::new(),
                };
                Effect::Nothing
            },
            LibraryAction::Delete(id) => {
                self.pending_delete_library = Some(id);
                Effect::Nothing
            },
            LibraryAction::AddDocument => match self.active_library {
                Some(id) => Effect::PickDocument(id),
                None => Effect::Nothing,
            },
            LibraryAction::CancelIndexing => {
                if self.indexing {
                    Effect::StopIndexing
                } else {
                    Effect::Nothing
                }
            },
            LibraryAction::DeleteDocument(id) => Effect::DeleteDocument(id),
            LibraryAction::Reindex(id) => match locate_document(documents, id) {
                Some(i) => Effect::IndexDocument {
                    library: documents[i].library_id,
                    path: documents[i].original_path.clone(),
                    document: id,
                },
                None => Effect::Nothing,
            },
        }
    }

    /// Goes back to the conversation.
    pub fn back_to_chat(&mut self)
        ensures
            final(self)@ == (SessionView {
                screen: conversation_screen(old(self)@.mode),
                ..old(self)@
            }),
    {
        self.screen = chat_view_for_profile(self.mode);
    }

    /// Gives up the answer that is on its way. Says whether there is one.
    pub fn cancel_generation(&mut self) -> (r: bool)
        ensures
            r == old(self)@.generating,
            final(self)@ == if r {
                SessionView { notice: Some("Cancelando la respuesta actual..."@), ..old(self)@ }
            } else {
                old(self)@
            },
    {
        if self.generating {
            self.tell("Cancelando la respuesta actual...");
        }
        self.generating
    }

    /// Gives up the indexing of a project. Says whether there is one.
    pub fn cancel_code_indexing(&mut self) -> (r: bool)
        ensures
            r == old(self)@.code_indexing,
            final(self)@ == old(self)@.code_cancelling(),
    {
        if self.code_indexing {
            self.code_status = "Cancelando indexacion...".to_owned();
        }
        self.code_indexing
    }

    /// Begins to index a document, unless one is being indexed.
    pub fn begin_indexing(&mut self) -> (r: bool)
        ensures
            r == !old(self)@.indexing,
            final(self)@ == (SessionView { indexing: true, ..old(self)@ }),
    {
        if self.indexing {
            return false;
        }
        self.indexing = true;
        true
    }

    /// Begins to index a project, unless one is being indexed.
    pub fn begin_code_indexing(&mut self) -> (r: bool)
        ensures
            r == !old(self)@.code_indexing,
            final(self)@ == if r {
                SessionView {
                    code_indexing: true,
                    code_status: "Escaneando proyecto..."@,
                    ..old(self)@
                }
            } else {
                old(self)@
            },
    {
        if self.code_indexing {
            return false;
        }
        self.code_indexing = true;
        self.code_status = "Escaneando proyecto...".to_owned();
        true
    }

    /// Begins to look for the services, unless they are being looked for.
    pub fn schedule_health_check(&mut self, initial: bool) -> (r: bool)
        ensures
            r == !old(self)@.health_check_in_flight,
            final(self)@ == if !r {
                old(self)@
            } else if initial {
                SessionView {
                    health_check_in_flight: true,
                    chat_status: StatusView::Starting,
                    embedding_status: StatusView::Starting,
                    ..old(self)@
                }
            } else {
                SessionView { health_check_in_flight: true, ..old(self)@ }
            },
    {
        if self.health_check_in_flight {
            return false;
        }
        self.health_check_in_flight = true;
        if initial {
            self.chat_status = ServiceStatus::Starting;
            self.embedding_status = ServiceStatus::Starting;
        }
        true
    }

    // -------------------------------------------------------------- reading again

    /// The chats were read again.
    pub fn settle_chat(&mut self, chats: &Vec<Chat>)
        ensures
            final(self)@ == old(self)@.with_chats(chats@),
    {
        if let Some(id) = self.current_chat {
            match find_chat(chats, id) {
                Some(i) => {
                    assert(chats@[i as int].id == id);
                },
                None => {
                    self.current_chat = if chats.len() > 0 {
                        Some(chats[0].id)
                    } else {
                        None
                    };
                },
            }
        }
    }

    /// The libraries were read again. The library of the open chat is told with them.
    pub fn settle_library(&mut self, libraries: &Vec<Library>, chat_library: Option<i64>)
        ensures
            final(self)@ == old(self)@.with_libraries(libraries@, chat_library),
    {
        if let Some(id) = self.active_library {
            match find_library(libraries, id) {
                Some(i) => {
                    assert(libraries@[i as int].id == id);
                },
                None => {
                    self.active_library = None;
                },
            }
        }
        if self.active_library.is_none() && self.mode == Profile::Documentation {
            if let Some(id) = chat_library {
                match find_library(libraries, id) {
                    Some(i) => {
                        assert(libraries@[i as int].id == id);
                        self.active_library = Some(id);
                    },
                    None => {},
                }
            }
        }
    }

    /// The files of the active project were read again.
    pub fn settle_file(&mut self, files: &Vec<CodeFile>)
        ensures
            final(self)@ == (SessionView {
                selected_file: kept_file(old(self)@.selected_file, files@),
                ..old(self)@
            }),
    {
        self.selected_file = valid_selected_code_file(self.selected_file, files);
    }

    /// Chooses another mode. The chat that was last open in it is opened, if it is
    /// still there.
    pub fn switch_mode(&mut self, profile: Profile, saved: &Option<String>, chats: &Vec<Chat>)
        ensures
            final(self)@ == old(self)@.with_mode(profile, opt_text(*saved), chats@),
    {
        let mode = active_profile(profile);
        if mode != self.mode {
            self.input = String::new();
        }
        self.mode = mode;
        self.current_chat = last_chat(saved, chats);
    }

    // ------------------------------------------------------------------ projects

    /// Whether a project can be removed now; says why not.
    pub fn can_remove_project(&mut self) -> (r: bool)
        ensures
            r == !old(self)@.code_indexing,
            final(self)@ == if r {
                old(self)@
            } else {
                SessionView {
                    notice: Some("Espera a que termine o cancela la indexacion actual."@),
                    ..old(self)@
                }
            },
    {
        if self.code_indexing {
            self.tell("Espera a que termine o cancela la indexacion actual.");
            return false;
        }
        true
    }

    /// A project was removed and these are left. Gives what is saved as the active one.
    pub fn remove_code_project(&mut self, project_id: i64, projects: &Vec<CodeProject>) -> (r: String)
        ensures
            final(self)@ == old(self)@.without_project(project_id, projects@),
            r@ == match final(self)@.active_project {
                Some(id) => integer(id as int),
                None => seq![],
            },
    {
        let lost = match self.active_project {
            Some(active) => {
                active == project_id || match find_project(projects, active) {
                    Some(i) => {
                        assert(projects@[i as int].id == active);
                        false
                    },
                    None => true,
                }
            },
            None => false,
        };
        if lost {
            self.active_project = first_ready(projects);
            self.selected_file = None;
        }
        match self.active_project {
            Some(id) => {
                self.code_status = "Proyecto activo actualizado".to_owned();
                integer_string(id)
            },
            None => {
                self.code_status = "Selecciona un archivo o carpeta".to_owned();
                String::new()
            },
        }
    }

    // ----------------------------------------------------------------- questions

    /// The question that is typed, if it can be asked; says why not.
    pub fn take_question(&mut self, files: &Vec<CodeFile>) -> (r: Option<String>)
        ensures
            opt_text(r) == if old(self)@.has_question() && old(self)@.objection(files@) is None {
                Some(trim(old(self)@.input))
            } else {
                None
            },
            final(self)@ == match old(self)@.objection(files@) {
                Some(text) => if old(self)@.has_question() {
                    SessionView { notice: Some(text), ..old(self)@ }
                } else {
                    old(self)@
                },
                None => old(self)@,
            },
    {
        let question = trimmed(self.input.as_str());
        if question.as_str().is_empty() || self.generating {
            return None;
        }
        if self.mode == Profile::Code {
            match self.active_project {
                None => {
                    self.tell("No hay un proyecto valido seleccionado.");
                    return None;
                },
                Some(project) => {
                    if targets_selected_file(question.as_str()) && captured_code_file(
                        project,
                        self.selected_file,
                        files,
                    ).is_none() {
                        self.tell("No hay un archivo valido seleccionado.");
                        return None;
                    }
                },
            }
        }
        Some(question)
    }

    /// An answer for the chat is on its way from now on.
    pub fn start_generation(&mut self, chat: i64, now: u128)
        ensures
            final(self)@ == old(self)@.asked(chat, now),
    {
        self.input = String::new();
        self.generating = true;
        self.streaming_text = String::new();
        self.streaming_buffer = String::new();
        self.streaming_flushed = now;
        self.generation_started = Some(now);
        self.request_started_ms = None;
        self.first_token_ms = None;
        self.ui_updates = 0;
        self.generation_metrics = None;
        self.generation_stage = None;
        self.generation_chat = Some(chat);
    }

    // -------------------------------------------------------------------- windows

    /// A chat was deleted.
    pub fn chat_deleted(&mut self)
        ensures
            final(self)@ == (SessionView { current_chat: None, pending_delete: None, ..old(self)@ }),
    {
        self.current_chat = None;
        self.pending_delete = None;
    }

    /// A library was deleted. Says whether its documents are on the screen.
    pub fn library_deleted(&mut self, id: i64) -> (r: bool)
        ensures
            r == (old(self)@.active_library == Some(id)),
            final(self)@ == (SessionView {
                active_library: if r {
                    None
                } else {
                    old(self)@.active_library
                },
                pending_delete_library: None,
                ..old(self)@
            }),
    {
        let shown = self.active_library == Some(id);
        if shown {
            self.active_library = None;
        }
        self.pending_delete_library = None;
        shown
    }

    /// A notice was read.
    pub fn close_notice(&mut self)
        ensures
            final(self)@ == (SessionView { notice: None, notice_details: None, ..old(self)@ }),
    {
        self.notice = None;
        self.notice_details = None;
    }

    /// The settings were saved: the services are looked for at once.
    pub fn settings_saved(&mut self, diagnostic_mode: bool, now: u128)
        ensures
            final(self)@ == (SessionView {
                notice: Some("Configuracion guardada."@),
                health_checked: if now >= HEALTH_INTERVAL {
                    (now - HEALTH_INTERVAL) as u128
                } else {
                    0
                },
                diagnostic_mode,
                ..old(self)@
            }),
    {
        self.tell("Configuracion guardada.");
        self.health_checked = if now >= HEALTH_INTERVAL {
            now - HEALTH_INTERVAL
        } else {
            0
        };
        self.diagnostic_mode = diagnostic_mode;
    }

    /// A service was asked to stop: only one that was started here does.
    pub fn service_stopped(&mut self, kind: ServiceKind, stopped: bool)
        ensures
            final(self)@ == if !stopped {
                SessionView {
                    notice: Some(
                        "Ese servidor no fue iniciado por la aplicacion y no se cerrara."@,
                    ),
                    ..old(self)@
                }
            } else if kind == ServiceKind::Chat {
                SessionView { chat_status: StatusView::Disconnected, ..old(self)@ }
            } else {
                SessionView { embedding_status: StatusView::Disconnected, ..old(self)@ }
            },
    {
        if !stopped {
            self.tell("Ese servidor no fue iniciado por la aplicacion y no se cerrara.");
        } else if kind == ServiceKind::Chat {
            self.chat_status = ServiceStatus::Disconnected;
        } else {
            self.embedding_status = ServiceStatus::Disconnected;
        }
    }
}

// ---------------------------------------------------------------------------- laws

/// The answer on its way, its chat and the part of it that has come are the same.
pub open spec fn same_generation(a: SessionView, b: SessionView) -> bool {
    &&& a.generating == b.generating
    &&& a.generation_chat == b.generation_chat
    &&& a.streaming_text == b.streaming_text
    &&& a.streaming_buffer == b.streaming_buffer
}

/// No request but a question touches the answer on its way: it survives opening
/// other chats, libraries, projects and modes, and still belongs to its own chat.
pub proof fn law_navigation_keeps_the_answer(
    s: SessionView,
    sidebar: SidebarAction,
    code: CodeAction,
    library: LibraryAction,
    profile: Profile,
    saved: Option<Seq<char>>,
    chats: Seq<Chat>,
    libraries: Seq<Library>,
    projects: Seq<CodeProject>,
    chat_library: Option<i64>,
    project: i64,
)
    ensures
        same_generation(s, s.after_sidebar(sidebar, chats, libraries)),
        same_generation(s, s.after_code(code)),
        same_generation(s, s.after_library(library, libraries)),
        same_generation(s, s.with_mode(profile, saved, chats)),
        same_generation(s, s.with_chats(chats)),
        same_generation(s, s.with_libraries(libraries, chat_library)),
        same_generation(s, s.without_project(project, projects)),
{
}

/// A state with the same answer on its way is as well formed.
pub proof fn law_same_answer_keeps_order(a: SessionView, b: SessionView)
    requires
        a.wf(),
        same_generation(a, b),
    ensures
        b.wf(),
{
}

/// Choosing a library does not leave the conversation.
pub proof fn law_library_is_no_place(s: SessionView, library: Option<i64>, libraries: Seq<Library>)
    ensures
        s.with_library(library, libraries).current_chat == s.current_chat,
        s.with_library(library, libraries).screen == s.screen,
        s.with_library(library, libraries).mode == s.mode,
        s.with_library(library, libraries).input == s.input,
{
}

/// After the lists were read again, the open chat and the active library are in
/// them.
pub proof fn law_what_is_open_exists(
    s: SessionView,
    chats: Seq<Chat>,
    libraries: Seq<Library>,
    chat_library: Option<i64>,
)
    ensures
        s.with_chats(chats).current_chat matches Some(id) ==> has_chat(chats, id),
        s.with_libraries(libraries, chat_library).active_library matches Some(id) ==> has_library(
            libraries,
            id,
        ),
{
    if chats.len() > 0 {
        assert(chats[0].id == chats[0].id);
    }
}

/// A second question is not taken while an answer is on its way, and asking one
/// begins an answer for its chat.
pub proof fn law_one_answer_at_a_time(s: SessionView, chat: i64, now: u128)
    ensures
        !s.asked(chat, now).has_question(),
        s.asked(chat, now).wf(),
        s.asked(chat, now).generation_chat == Some(chat),
{
}

/// A project that was removed is not active any more.
pub proof fn law_removed_project_is_left(s: SessionView, id: i64, projects: Seq<CodeProject>)
    requires
        !has_project(projects, id),
    ensures
        s.without_project(id, projects).active_project != Some(id),
        s.active_project == Some(id) ==> s.without_project(id, projects).selected_file is None,
{
    lemma_ready_is_listed(projects);
}

proof fn lemma_ready_is_listed(projects: Seq<CodeProject>)
    ensures
        ready_project(projects) matches Some(id) ==> has_project(projects, id),
    decreases projects.len(),
{
    if projects.len() > 0 {
        assert(projects[0].id == projects[0].id);
        lemma_ready_is_listed(projects.skip(1));
        if let Some(id) = ready_project(projects.skip(1)) {
            let i = choose|i: int|
                0 <= i < projects.skip(1).len() && (#[trigger] projects.skip(1)[i]).id == id;
            assert(projects[i + 1].id == id);
        }
    }
}

} // verus!
