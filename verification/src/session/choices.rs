//! Small decisions of a session.

use vstd::prelude::*;
use vstd::string::StringExecFns;

use crate::ai::process::{ServiceStatus, StatusView};
use crate::code::types::{CodeFile, CodeProject};
use crate::models::{opt_text, Chat, Library, Profile};
use crate::paths::{can_be_file_name, file_name};
use crate::performance::{format_memory, memory_text};
use crate::text::{
    as_integer, char_count, contains, contains_any, decimal, decimal_string, has, has_any, join,
    joined, lowercase, parse_integer, pieces_of_words, same, str_views, take_chars, words, CharClass,
};
use crate::ui::code::{is_ready, status_is_ready};

verus! {

// ---------------------------------------------------------------------- screens

/// What the window shows.
#[derive(Debug, Clone, Copy, PartialEq, Eq, Structural)]
pub enum Screen {
    Chat,
    Code,
    Libraries,
    Settings,
}

/// The screen with which the application opens, by whether a chat server answers,
/// a chat model is there and the command that runs it is known.
pub open spec fn opening_screen(
    chat_reachable: bool,
    chat_model_available: bool,
    llama_command_available: bool,
) -> Screen {
    if chat_reachable || (chat_model_available && llama_command_available) {
        Screen::Chat
    } else {
        Screen::Settings
    }
}

/// The screen with which the application opens.
pub fn startup_view(
    chat_reachable: bool,
    chat_model_available: bool,
    llama_command_available: bool,
) -> (r: Screen)
    ensures
        r == opening_screen(chat_reachable, chat_model_available, llama_command_available),
{
    if chat_reachable || (chat_model_available && llama_command_available) {
        Screen::Chat
    } else {
        Screen::Settings
    }
}

/// The setting that keeps the last chat of a mode.
pub open spec fn key_of_mode(profile: Profile) -> Seq<char> {
    match profile {
        Profile::Documentation => "last_chat_id_documentos"@,
        Profile::Code => "last_chat_id_codigo"@,
        _ => "last_chat_id_general"@,
    }
}

/// The setting that keeps the last chat of a mode.
pub fn mode_key(profile: Profile) -> (r: &'static str)
    ensures
        r@ == key_of_mode(profile),
{
    match profile {
        Profile::Documentation => "last_chat_id_documentos",
        Profile::Code => "last_chat_id_codigo",
        _ => "last_chat_id_general",
    }
}

/// Two modes that can be chosen do not share the setting of their last chat.
pub proof fn law_modes_keep_their_own_chat(a: Profile, b: Profile)
    ensures
        key_of_mode(a) == key_of_mode(b) <==> mode_of(a) == mode_of(b),
{
    reveal_strlit("last_chat_id_documentos");
    reveal_strlit("last_chat_id_codigo");
    reveal_strlit("last_chat_id_general");
    assert("last_chat_id_documentos"@.len() == 23);
    assert("last_chat_id_codigo"@.len() == 19);
    assert("last_chat_id_general"@.len() == 20);
}

/// The mode that a profile belongs to.
pub open spec fn mode_of(profile: Profile) -> Profile {
    match profile {
        Profile::Documentation => Profile::Documentation,
        Profile::Code => Profile::Code,
        _ => Profile::General,
    }
}

/// The mode that a profile belongs to.
pub fn active_profile(profile: Profile) -> (r: Profile)
    ensures
        r == mode_of(profile),
{
    match profile {
        Profile::Documentation => Profile::Documentation,
        Profile::Code => Profile::Code,
        _ => Profile::General,
    }
}

/// Whether a stored chat is moved to the general mode, as its own is no longer
/// offered.
pub fn is_retired(profile: Profile) -> (r: bool)
    ensures
        r == (profile == Profile::Programming || profile == Profile::Business || profile
            == Profile::Study),
        r == (mode_of(profile) != profile),
{
    match profile {
        Profile::Programming => true,
        Profile::Business => true,
        Profile::Study => true,
        _ => false,
    }
}

/// The screen on which a conversation of a mode stands.
pub open spec fn conversation_screen(profile: Profile) -> Screen {
    if profile == Profile::Code {
        Screen::Code
    } else {
        Screen::Chat
    }
}

/// The screen on which a conversation of a mode stands.
pub fn chat_view_for_profile(profile: Profile) -> (r: Screen)
    ensures
        r == conversation_screen(profile),
{
    if profile == Profile::Code {
        Screen::Code
    } else {
        Screen::Chat
    }
}

/// The library in which questions are answered: the active one, and only where
/// documents are talked about.
pub open spec fn library_in_use(mode: Profile, active_library_id: Option<i64>) -> Option<i64> {
    if mode == Profile::Documentation {
        active_library_id
    } else {
        None
    }
}

/// The library that the side bar shows as active.
pub fn active_library_for_sidebar(mode: Profile, active_library_id: Option<i64>) -> (r: Option<i64>)
    ensures
        r == library_in_use(mode, active_library_id),
{
    if mode == Profile::Documentation {
        active_library_id
    } else {
        None
    }
}

// --------------------------------------------------------------------- services

/// The state of a service after it was asked whether it answers.
pub open spec fn after_health(current: StatusView, reachable: bool) -> StatusView {
    if current is Busy {
        StatusView::Busy
    } else if reachable {
        StatusView::Ready
    } else {
        StatusView::Disconnected
    }
}

/// The state of a service after it was asked whether it answers: one that is at
/// work stays so.
pub fn status_after_health(current: &ServiceStatus, reachable: bool) -> (r: ServiceStatus)
    ensures
        r@ == after_health(current@, reachable),
{
    match current {
        ServiceStatus::Busy => ServiceStatus::Busy,
        _ => if reachable {
            ServiceStatus::Ready
        } else {
            ServiceStatus::Disconnected
        },
    }
}

/// The state of a service after a request.
pub open spec fn after_request(error: Option<Seq<char>>) -> StatusView {
    match error {
        Some(message) => StatusView::Error(message),
        None => StatusView::Ready,
    }
}

/// The state of a service after a request that went well or failed.
pub fn status_after_request(error: Option<&str>) -> (r: ServiceStatus)
    ensures
        r@ == after_request(
            match error {
                Some(message) => Some(message@),
                None => None,
            },
        ),
{
    match error {
        Some(message) => ServiceStatus::Error(message.to_owned()),
        None => ServiceStatus::Ready,
    }
}

/// The state of the chat service after a check: an answer that came in after the
/// check began outweighs it. Moments are counted in nanoseconds.
pub open spec fn chat_after_health(
    current: StatusView,
    reachable: bool,
    check_started: u128,
    last_success: Option<u128>,
) -> StatusView {
    if last_success matches Some(success) && success > check_started {
        StatusView::Ready
    } else {
        after_health(current, reachable)
    }
}

/// The state of the chat service after a check.
pub fn chat_status_after_health(
    current: &ServiceStatus,
    reachable: bool,
    check_started: u128,
    last_success: Option<u128>,
) -> (r: ServiceStatus)
    ensures
        r@ == chat_after_health(current@, reachable, check_started, last_success),
{
    if let Some(success) = last_success {
        if success > check_started {
            return ServiceStatus::Ready;
        }
    }
    status_after_health(current, reachable)
}

/// The word for the state of a service.
pub open spec fn status_label(status: StatusView) -> Seq<char> {
    match status {
        StatusView::Disconnected => "detenido"@,
        StatusView::Starting => "iniciando"@,
        StatusView::Ready => "listo"@,
        StatusView::Busy => "trabajando"@,
        StatusView::Error(_) => "error"@,
    }
}

/// The word for the state of a service.
pub fn service_status_label(status: &ServiceStatus) -> (r: &'static str)
    ensures
        r@ == status_label(status@),
{
    match status {
        ServiceStatus::Disconnected => "detenido",
        ServiceStatus::Starting => "iniciando",
        ServiceStatus::Ready => "listo",
        ServiceStatus::Busy => "trabajando",
        ServiceStatus::Error(_) => "error",
    }
}

/// The service answers.
pub open spec fn is_connected(status: StatusView) -> bool {
    status is Ready || status is Busy
}

/// Whether the service answers.
pub fn status_is_connected(status: &ServiceStatus) -> (r: bool)
    ensures
        r == is_connected(status@),
{
    match status {
        ServiceStatus::Ready => true,
        ServiceStatus::Busy => true,
        _ => false,
    }
}

/// Who runs the process of a service.
pub open spec fn process_label(status: StatusView, owned: bool) -> Seq<char> {
    if owned {
        "iniciado por Kuznor"@
    } else if is_connected(status) {
        "servidor externo"@
    } else {
        "detenido"@
    }
}

/// What is told of a service with the given model file.
pub open spec fn service_text(
    name: Seq<char>,
    status: StatusView,
    model: Option<Seq<char>>,
    port: u16,
    owned: bool,
) -> Seq<char> {
    let state = if status is Disconnected {
        "desconectado"@
    } else {
        status_label(status)
    };
    let file = match model {
        Some(file) => file,
        None => "sin configurar"@,
    };
    name + ": "@ + state + "\nModelo: "@ + file + "\nPuerto: "@ + decimal(port as nat)
        + "\nProceso: "@ + process_label(status, owned)
}

/// What is told of a service with the given model file.
pub fn describe_service(
    name: &str,
    status: &ServiceStatus,
    model: &Option<String>,
    port: u16,
    owned: bool,
) -> (r: String)
    ensures
        r@ == service_text(name@, status@, opt_text(*model), port, owned),
{
    let mut r = name.to_owned();
    r.append(": ");
    match status {
        ServiceStatus::Disconnected => r.append("desconectado"),
        _ => r.append(service_status_label(status)),
    }
    r.append("\nModelo: ");
    match model {
        Some(file) => r.append(file.as_str()),
        None => r.append("sin configurar"),
    }
    r.append("\nPuerto: ");
    r.append(decimal_string(port as u128).as_str());
    r.append("\nProceso: ");
    if owned {
        r.append("iniciado por Kuznor");
    } else if status_is_connected(status) {
        r.append("servidor externo");
    } else {
        r.append("detenido");
    }
    r
}

/// What is told of a service with the model at the given path.
pub fn compact_status(name: &str, status: &ServiceStatus, model_path: &str, port: u16, owned: bool) -> (r:
    String)
    ensures
        exists|model: Option<Seq<char>>|
            can_be_file_name(model_path@, model) && r@ == #[trigger] service_text(
                name@,
                status@,
                model,
                port,
                owned,
            ),
{
    let model = file_name(model_path);
    describe_service(name, status, &model, port, owned)
}

/// What a test of the settings tells of a service.
pub open spec fn configuration_text(
    reachable: bool,
    owned: bool,
    model_available: bool,
    command_available: bool,
    host: Seq<char>,
    port: u16,
) -> Seq<char> {
    if reachable && owned {
        "servidor administrado conectado ("@ + host + ":"@ + decimal(port as nat) + ")"@
    } else if reachable {
        "servidor externo conectado ("@ + host + ":"@ + decimal(port as nat) + ")"@
    } else if model_available && command_available {
        "listo para inicio administrado"@
    } else {
        "sin servidor accesible ni modelo local utilizable"@
    }
}

/// What a test of the settings tells of a service.
pub fn service_description(
    reachable: bool,
    owned: bool,
    model_available: bool,
    command_available: bool,
    host: &str,
    port: u16,
) -> (r: String)
    ensures
        r@ == configuration_text(reachable, owned, model_available, command_available, host@, port),
{
    if reachable {
        let mut r = if owned {
            "servidor administrado conectado (".to_owned()
        } else {
            "servidor externo conectado (".to_owned()
        };
        r.append(host);
        r.append(":");
        r.append(decimal_string(port as u128).as_str());
        r.append(")");
        r
    } else if model_available && command_available {
        "listo para inicio administrado".to_owned()
    } else {
        "sin servidor accesible ni modelo local utilizable".to_owned()
    }
}

/// What a test of the settings tells.
pub fn configuration_report(chat: &str, embedding: &str, command: &Option<String>) -> (r: String)
    ensures
        r@ == "IA principal: "@ + chat@ + "\nBúsqueda semántica: "@ + embedding@ + "\nllama.cpp: "@
            + match *command {
            Some(c) => c@,
            None => "no disponible; configura llama, llama serve o llama-server"@,
        },
{
    let mut r = "IA principal: ".to_owned();
    r.append(chat);
    r.append("\nBúsqueda semántica: ");
    r.append(embedding);
    r.append("\nllama.cpp: ");
    match command {
        Some(c) => r.append(c.as_str()),
        None => r.append("no disponible; configura llama, llama serve o llama-server"),
    }
    r
}

/// A count of nothing, one or two, by what is under way.
pub open spec fn work_count(indexing: bool, code_indexing: bool) -> nat {
    (if indexing {
        1nat
    } else {
        0
    }) + (if code_indexing {
        1nat
    } else {
        0
    })
}

/// What is told of the use of the machine. The share of the processor is given as it
/// is shown, without its sign.
pub fn performance_text(
    cpu: &Option<String>,
    memory_bytes: Option<u64>,
    owned_processes: usize,
    chat_status: &ServiceStatus,
    embedding_status: &ServiceStatus,
    indexing: bool,
    code_indexing: bool,
) -> (r: String)
    ensures
        r@ == "CPU Kuznor: "@ + (match *cpu {
            Some(value) => value@ + "%"@,
            None => "n/d"@,
        }) + " | RAM Kuznor: "@ + (match memory_bytes {
            Some(bytes) => memory_text(bytes as nat),
            None => "n/d"@,
        }) + " | llama.cpp administrados: "@ + decimal(owned_processes as nat)
            + " | IA principal: "@ + status_label(chat_status@) + " | Búsqueda semántica: "@
            + status_label(embedding_status@) + " | indexaciones activas: "@ + decimal(
            work_count(indexing, code_indexing),
        ),
{
    let mut r = "CPU Kuznor: ".to_owned();
    let load = match cpu {
        Some(value) => {
            let mut text = value.clone();
            text.append("%");
            text
        },
        None => "n/d".to_owned(),
    };
    r.append(load.as_str());
    r.append(" | RAM Kuznor: ");
    let memory = match memory_bytes {
        Some(bytes) => format_memory(bytes),
        None => "n/d".to_owned(),
    };
    r.append(memory.as_str());
    r.append(" | llama.cpp administrados: ");
    r.append(decimal_string(owned_processes as u128).as_str());
    r.append(" | IA principal: ");
    r.append(service_status_label(chat_status));
    r.append(" | Búsqueda semántica: ");
    r.append(service_status_label(embedding_status));
    r.append(" | indexaciones activas: ");
    let mut work: u128 = 0;
    if indexing {
        work = work + 1;
    }
    if code_indexing {
        work = work + 1;
    }
    r.append(decimal_string(work).as_str());
    r
}

// ---------------------------------------------------------------------- notices

/// What is said of an error, by the words that its details hold.
pub open spec fn notice_text(details: Seq<char>) -> Seq<char> {
    let lower = lowercase(details);
    if contains_any(lower, seq!["roles must alternate"@, "chat template"@, "template"@]) {
        "El modelo rechazo el formato de conversacion. Kuznor conservo el historial y no guardo una respuesta fallida."@
    } else if contains_any(lower, seq!["sqlite"@, "database"@]) {
        "No se pudo acceder a los datos locales."@
    } else if contains(lower, "embedding"@) {
        "No se pudo procesar la busqueda documental."@
    } else if contains_any(lower, seq!["modelo"@, "llama"@]) {
        "No se pudo iniciar el modelo local."@
    } else if contains_any(lower, seq!["conectar"@, "http"@]) {
        "No se pudo conectar con el servidor de IA."@
    } else if contains_any(lower, seq!["pdf"@, "documento"@]) {
        "No se pudo procesar el documento."@
    } else {
        "Kuznor no pudo completar la operacion."@
    }
}

/// What is said of an error.
pub fn notice_for(details: &str) -> (r: &'static str)
    ensures
        r@ == notice_text(details@),
{
    let lower = details.to_lowercase();
    let format = ["roles must alternate", "chat template", "template"];
    let data = ["sqlite", "database"];
    let model = ["modelo", "llama"];
    let server = ["conectar", "http"];
    let document = ["pdf", "documento"];
    proof {
        assert(str_views(format@) =~= seq!["roles must alternate"@, "chat template"@, "template"@]);
        assert(str_views(data@) =~= seq!["sqlite"@, "database"@]);
        assert(str_views(model@) =~= seq!["modelo"@, "llama"@]);
        assert(str_views(server@) =~= seq!["conectar"@, "http"@]);
        assert(str_views(document@) =~= seq!["pdf"@, "documento"@]);
    }
    if has_any(lower.as_str(), &format) {
        "El modelo rechazo el formato de conversacion. Kuznor conservo el historial y no guardo una respuesta fallida."
    } else if has_any(lower.as_str(), &data) {
        "No se pudo acceder a los datos locales."
    } else if has(lower.as_str(), "embedding") {
        "No se pudo procesar la busqueda documental."
    } else if has_any(lower.as_str(), &model) {
        "No se pudo iniciar el modelo local."
    } else if has_any(lower.as_str(), &server) {
        "No se pudo conectar con el servidor de IA."
    } else if has_any(lower.as_str(), &document) {
        "No se pudo procesar el documento."
    } else {
        "Kuznor no pudo completar la operacion."
    }
}

// ------------------------------------------------------------------------ chats

/// The answer on its way belongs to the chat that is open.
pub open spec fn belongs(current_chat: Option<i64>, generation_chat: Option<i64>) -> bool {
    current_chat is Some && current_chat == generation_chat
}

/// Whether the answer on its way belongs to the chat that is open.
pub fn generation_belongs_to_chat(current_chat: Option<i64>, generation_chat: Option<i64>) -> (r: bool)
    ensures
        r == belongs(current_chat, generation_chat),
{
    match (current_chat, generation_chat) {
        (Some(current), Some(generation)) => current == generation,
        _ => false,
    }
}

/// The title that a question gives to its chat.
pub open spec fn title_of(question: Seq<char>) -> Seq<char> {
    let compact = join(words(question, CharClass::White), " "@);
    if compact.len() == 0 {
        "Nuevo chat"@
    } else if compact.len() > 42 {
        compact.take(42) + "..."@
    } else {
        compact
    }
}

/// The title that a question gives to its chat: its words, up to 42 characters.
pub fn automatic_title(question: &str) -> (r: String)
    ensures
        r@ == title_of(question@),
        0 < r@.len() <= 45,
{
    proof {
        reveal_strlit("...");
        reveal_strlit("Nuevo chat");
    }
    let parts = pieces_of_words(question, CharClass::White);
    let compact = joined(&parts, " ");
    let mut title = take_chars(compact.as_str(), 42);
    if char_count(compact.as_str()) > char_count(title.as_str()) {
        title.append("...");
    }
    if title.as_str().is_empty() {
        "Nuevo chat".to_owned()
    } else {
        title
    }
}

/// The title that a chat gets with a question: only a new chat gets one.
pub fn new_title(title: &str, question: &str) -> (r: Option<String>)
    ensures
        opt_text(r) == if title@ == "Nuevo chat"@ {
            Some(title_of(question@))
        } else {
            None
        },
{
    if same(title, "Nuevo chat") {
        Some(automatic_title(question))
    } else {
        None
    }
}

/// There is a chat with the number.
pub open spec fn has_chat(chats: Seq<Chat>, id: i64) -> bool {
    exists|i: int| 0 <= i < chats.len() && (#[trigger] chats[i]).id == id
}

/// The position of the chat with the number.
pub fn find_chat(chats: &Vec<Chat>, id: i64) -> (r: Option<usize>)
    ensures
        match r {
            Some(i) => i < chats@.len() && chats@[i as int].id == id && forall|j: int|
                0 <= j < i ==> (#[trigger] chats@[j]).id != id,
            None => !has_chat(chats@, id),
        },
{
    let mut i: usize = 0;
    while i < chats.len()
        invariant
            i <= chats.len(),
            forall|j: int| 0 <= j < i ==> (#[trigger] chats@[j]).id != id,
        decreases chats.len() - i,
    {
        if chats[i].id == id {
            return Some(i);
        }
        i += 1;
    }
    None
}

/// The chat that was open last in a mode, if it is still there.
pub open spec fn remembered_chat(saved: Option<Seq<char>>, chats: Seq<Chat>) -> Option<i64> {
    match saved {
        Some(text) => match as_integer(text) {
            Some(id) => if has_chat(chats, id as i64) {
                Some(id as i64)
            } else {
                None
            },
            None => None,
        },
        None => None,
    }
}

/// The chat that was open last in a mode, if it is still there.
pub fn last_chat(saved: &Option<String>, chats: &Vec<Chat>) -> (r: Option<i64>)
    ensures
        r == remembered_chat(opt_text(*saved), chats@),
{
    match saved {
        Some(text) => match parse_integer(text.as_str()) {
            Some(id) => {
                match find_chat(chats, id) {
                    Some(i) => {
                        assert(chats@[i as int].id == id);
                        Some(id)
                    },
                    None => None,
                }
            },
            None => None,
        },
        None => None,
    }
}

/// A chat whose number was saved is found again as long as it is there.
pub proof fn law_open_chat_is_remembered(chats: Seq<Chat>, id: i64)
    requires
        has_chat(chats, id),
    ensures
        remembered_chat(Some(crate::text::integer(id as int)), chats) == Some(id),
{
    crate::text::law_integer_round_trip(id);
}

// -------------------------------------------------------------------- libraries

/// There is a library with the number.
pub open spec fn has_library(libraries: Seq<Library>, id: i64) -> bool {
    exists|i: int| 0 <= i < libraries.len() && (#[trigger] libraries[i]).id == id
}

/// The position of the library with the number.
pub fn find_library(libraries: &Vec<Library>, id: i64) -> (r: Option<usize>)
    ensures
        match r {
            Some(i) => i < libraries@.len() && libraries@[i as int].id == id && forall|j: int|
                0 <= j < i ==> (#[trigger] libraries@[j]).id != id,
            None => !has_library(libraries@, id),
        },
{
    let mut i: usize = 0;
    while i < libraries.len()
        invariant
            i <= libraries.len(),
            forall|j: int| 0 <= j < i ==> (#[trigger] libraries@[j]).id != id,
        decreases libraries.len() - i,
    {
        if libraries[i].id == id {
            return Some(i);
        }
        i += 1;
    }
    None
}

// --------------------------------------------------------------------- projects

/// There is a project with the number.
pub open spec fn has_project(projects: Seq<CodeProject>, id: i64) -> bool {
    exists|i: int| 0 <= i < projects.len() && (#[trigger] projects[i]).id == id
}

/// The position of the project with the number.
pub fn find_project(projects: &Vec<CodeProject>, id: i64) -> (r: Option<usize>)
    ensures
        match r {
            Some(i) => i < projects@.len() && projects@[i as int].id == id && forall|j: int|
                0 <= j < i ==> (#[trigger] projects@[j]).id != id,
            None => !has_project(projects@, id),
        },
{
    let mut i: usize = 0;
    while i < projects.len()
        invariant
            i <= projects.len(),
            forall|j: int| 0 <= j < i ==> (#[trigger] projects@[j]).id != id,
        decreases projects.len() - i,
    {
        if projects[i].id == id {
            return Some(i);
        }
        i += 1;
    }
    None
}

/// There is a ready project with the number.
pub open spec fn has_ready_project(projects: Seq<CodeProject>, id: i64) -> bool {
    exists|i: int|
        0 <= i < projects.len() && (#[trigger] projects[i]).id == id && is_ready(
            projects[i].status@,
        )
}

/// The first ready project.
pub open spec fn ready_project(projects: Seq<CodeProject>) -> Option<i64>
    decreases projects.len(),
{
    if projects.len() == 0 {
        None
    } else if is_ready(projects[0].status@) {
        Some(projects[0].id)
    } else {
        ready_project(projects.skip(1))
    }
}

/// The first ready project.
pub fn first_ready(projects: &Vec<CodeProject>) -> (r: Option<i64>)
    ensures
        r == ready_project(projects@),
{
    let mut i: usize = 0;
    assert(projects@.skip(0) =~= projects@);
    while i < projects.len()
        invariant
            i <= projects.len(),
            ready_project(projects@) == ready_project(projects@.skip(i as int)),
        decreases projects.len() - i,
    {
        assert(projects@.skip(i as int).skip(1) =~= projects@.skip(i + 1));
        if status_is_ready(projects[i].status.as_str()) {
            return Some(projects[i].id);
        }
        i += 1;
    }
    None
}

/// The project that is active when the application starts: the one that was, if
/// it is ready, else the first that is.
pub open spec fn opening_project(saved: Option<Seq<char>>, projects: Seq<CodeProject>) -> Option<i64> {
    match saved {
        Some(text) => match as_integer(text) {
            Some(id) => if has_ready_project(projects, id as i64) {
                Some(id as i64)
            } else {
                ready_project(projects)
            },
            None => ready_project(projects),
        },
        None => ready_project(projects),
    }
}

/// The project that is active when the application starts.
pub fn initial_project(saved: &Option<String>, projects: &Vec<CodeProject>) -> (r: Option<i64>)
    ensures
        r == opening_project(opt_text(*saved), projects@),
{
    if let Some(text) = saved {
        if let Some(id) = parse_integer(text.as_str()) {
            let mut i: usize = 0;
            while i < projects.len()
                invariant
                    i <= projects.len(),
                    opt_text(*saved) == Some(text@),
                    as_integer(text@) == Some(id as int),
                    forall|j: int|
                        0 <= j < i ==> !((#[trigger] projects@[j]).id == id && is_ready(
                            projects@[j].status@,
                        )),
                decreases projects.len() - i,
            {
                if projects[i].id == id && status_is_ready(projects[i].status.as_str()) {
                    assert(projects@[i as int].id == id);
                    return Some(id);
                }
                i += 1;
            }
        }
    }
    first_ready(projects)
}

/// The project that is active at the start is ready.
pub proof fn law_opening_project_is_ready(saved: Option<Seq<char>>, projects: Seq<CodeProject>)
    ensures
        opening_project(saved, projects) matches Some(id) ==> has_ready_project(projects, id),
{
    lemma_ready_project(projects);
}

proof fn lemma_ready_project(projects: Seq<CodeProject>)
    ensures
        ready_project(projects) matches Some(id) ==> has_ready_project(projects, id),
    decreases projects.len(),
{
    if projects.len() > 0 {
        if is_ready(projects[0].status@) {
            assert(projects[0].id == projects[0].id);
        } else {
            lemma_ready_project(projects.skip(1));
            if let Some(id) = ready_project(projects.skip(1)) {
                let i = choose|i: int|
                    0 <= i < projects.skip(1).len() && (#[trigger] projects.skip(1)[i]).id == id
                        && is_ready(projects.skip(1)[i].status@);
                assert(projects[i + 1].id == id);
            }
        }
    }
}

// ------------------------------------------------------------------------ files

/// There is a file with the number.
pub open spec fn has_file(files: Seq<CodeFile>, id: i64) -> bool {
    exists|i: int| 0 <= i < files.len() && (#[trigger] files[i]).id == id
}

/// The file that stays selected: the one that was, if it is among the files.
pub open spec fn kept_file(selected: Option<i64>, files: Seq<CodeFile>) -> Option<i64> {
    match selected {
        Some(id) => if has_file(files, id) {
            Some(id)
        } else {
            None
        },
        None => None,
    }
}

/// The file that stays selected.
pub fn valid_selected_code_file(selected: Option<i64>, files: &Vec<CodeFile>) -> (r: Option<i64>)
    ensures
        r == kept_file(selected, files@),
{
    let id = match selected {
        Some(id) => id,
        None => {
            return None;
        },
    };
    let mut i: usize = 0;
    while i < files.len()
        invariant
            i <= files.len(),
            selected == Some(id),
            forall|j: int| 0 <= j < i ==> (#[trigger] files@[j]).id != id,
        decreases files.len() - i,
    {
        if files[i].id == id {
            assert(files@[i as int].id == id);
            return Some(id);
        }
        i += 1;
    }
    None
}

/// The file can be asked about: it is the selected one, of the project, and was
/// read without an error.
pub open spec fn is_usable(file: CodeFile, project_id: i64, selected: Option<i64>) -> bool {
    selected == Some(file.id) && file.project_id == project_id && file.error is None
}

/// The selected file of a project, if it can be asked about.
pub fn captured_code_file(
    project_id: i64,
    selected_file_id: Option<i64>,
    files: &Vec<CodeFile>,
) -> (r: Option<CodeFile>)
    ensures
        match r {
            Some(file) => exists|i: int|
                0 <= i < files@.len() && file@ == (#[trigger] files@[i])@ && is_usable(
                    files@[i],
                    project_id,
                    selected_file_id,
                ) && forall|j: int|
                    0 <= j < i ==> !is_usable(#[trigger] files@[j], project_id, selected_file_id),
            None => forall|i: int|
                0 <= i < files@.len() ==> !is_usable(
                    #[trigger] files@[i],
                    project_id,
                    selected_file_id,
                ),
        },
{
    let selected = match selected_file_id {
        Some(id) => id,
        None => {
            return None;
        },
    };
    let mut i: usize = 0;
    while i < files.len()
        invariant
            i <= files.len(),
            selected_file_id == Some(selected),
            forall|j: int|
                0 <= j < i ==> !is_usable(#[trigger] files@[j], project_id, selected_file_id),
        decreases files.len() - i,
    {
        if files[i].id == selected && files[i].project_id == project_id && files[i].error.is_none() {
            let file = files[i].clone();
            assert(file@ == files@[i as int]@);
            return Some(file);
        }
        i += 1;
    }
    None
}

// --------------------------------------------------------------------- database

/// Where the data are kept.
#[derive(Debug, Clone, Copy, PartialEq, Eq, Structural)]
pub enum DataFile {
    /// In the file with the current name.
    Current,
    /// In the file with the former name, which is copied to the current one.
    CopyFormer,
}

/// The name of the file that holds the data.
pub const DATA_FILE: &'static str = "kuznor.db";

/// The name that the file had before.
pub const FORMER_DATA_FILE: &'static str = "inference_local.db";

/// Where the data are kept, by which of the two files there are.
pub fn choose_data_file(current_exists: bool, former_exists: bool) -> (r: DataFile)
    ensures
        r == if former_exists && !current_exists {
            DataFile::CopyFormer
        } else {
            DataFile::Current
        },
{
    if current_exists || !former_exists {
        DataFile::Current
    } else {
        DataFile::CopyFormer
    }
}

/// The title of a chat is the words of its question, with one blank between them, or the
/// first 42 characters of that; it is never empty.
pub proof fn law_title_is_the_question(question: Seq<char>)
    ensures
        ({
            let w = words(question, CharClass::White);
            let t = title_of(question);
            &&& t.len() > 0
            &&& w.len() > 0 && join(w, " "@).len() <= 42 ==> words(t, CharClass::White) == w
            &&& join(w, " "@).len() > 42 ==> t.len() == 45 && join(w, " "@).take(42) == t.take(42)
        }),
{
    reveal_strlit("Nuevo chat");
    reveal_strlit("...");
    reveal_strlit(" ");
    assert(" "@ =~= seq![' ']);
    let w = words(question, CharClass::White);
    let compact = join(w, " "@);
    crate::text::lemma_words(question, CharClass::White);
    assert(CharClass::White.has(' '));
    crate::text::law_words_of_joined(w, ' ', CharClass::White);
    if w.len() > 0 {
        crate::text::lemma_join_contains(w, " "@, 0);
        assert(crate::text::is_word(w[0], CharClass::White));
    }
    if compact.len() > 42 {
        assert(title_of(question).take(42) =~= compact.take(42));
    }
}

} // verus!
