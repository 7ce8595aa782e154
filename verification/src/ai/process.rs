//! Starting the local model servers and keeping track of those that were started.

use vstd::prelude::*;

use crate::config::{is_local_host, validate_loopback_host, Settings, SettingsError, SettingsView};
use crate::models::opt_text;
use crate::paths::{can_be_file_name, file_name};
use crate::code::scanner::{is_named, lemma_before_last_splits};
use crate::text::{
    ascii_lower, before_last, blank, decimal, decimal_string, head_before_last, is_blank, is_among,
    pieces_of_words, same, to_ascii_lower, trim, trimmed, views, words, CharClass,
};

verus! {

/// The server of a kind of service.
#[derive(Debug, Clone, Copy, PartialEq, Eq, Structural)]
pub enum ServiceKind {
    Chat,
    Embedding,
}

/// The state of a service.
#[derive(Debug, PartialEq, Eq)]
pub enum ServiceStatus {
    Disconnected,
    Starting,
    Ready,
    Busy,
    Error(String),
}

/// What a `ServiceStatus` holds.
pub enum StatusView {
    Disconnected,
    Starting,
    Ready,
    Busy,
    Error(Seq<char>),
}

impl View for ServiceStatus {
    type V = StatusView;

    open spec fn view(&self) -> StatusView {
        match self {
            ServiceStatus::Disconnected => StatusView::Disconnected,
            ServiceStatus::Starting => StatusView::Starting,
            ServiceStatus::Ready => StatusView::Ready,
            ServiceStatus::Busy => StatusView::Busy,
            ServiceStatus::Error(e) => StatusView::Error(e@),
        }
    }
}

impl Clone for ServiceStatus {
    fn clone(&self) -> (r: ServiceStatus)
        ensures
            r@ == self@,
    {
        match self {
            ServiceStatus::Disconnected => ServiceStatus::Disconnected,
            ServiceStatus::Starting => ServiceStatus::Starting,
            ServiceStatus::Ready => ServiceStatus::Ready,
            ServiceStatus::Busy => ServiceStatus::Busy,
            ServiceStatus::Error(e) => ServiceStatus::Error(e.clone()),
        }
    }
}

// --------------------------------------------------------------------- commands

/// A program to run and the arguments that come first.
#[derive(Debug, PartialEq, Eq)]
pub struct CommandSpec {
    pub program: String,
    pub prefix_args: Vec<String>,
}

/// What a `CommandSpec` holds.
pub struct CommandView {
    pub program: Seq<char>,
    pub prefix_args: Seq<Seq<char>>,
}

impl View for CommandSpec {
    type V = CommandView;

    open spec fn view(&self) -> CommandView {
        CommandView { program: self.program@, prefix_args: views(self.prefix_args@) }
    }
}

/// The program and the arguments of a command line: all of it is the program where
/// it is the path of something that exists, and its first word otherwise.
pub open spec fn command_parts(value: Seq<char>, path_exists: bool) -> CommandView {
    let w = words(trim(value), CharClass::White);
    if path_exists || w.len() == 0 {
        CommandView { program: trim(value), prefix_args: seq![] }
    } else {
        CommandView { program: w[0], prefix_args: w.skip(1) }
    }
}

/// The name of a program without its extension, given the name of its file.
pub open spec fn executable_name(program: Seq<char>, name: Option<Seq<char>>) -> Seq<char> {
    match name {
        Some(n) => match before_last(n, '.') {
            Some(stem) => if stem.len() > 0 {
                ascii_lower(stem)
            } else {
                ascii_lower(n)
            },
            None => ascii_lower(n),
        },
        None => ascii_lower(program),
    }
}

/// The command, with the subcommand that the plain `llama` program needs.
pub open spec fn with_serve(c: CommandView, name: Option<Seq<char>>) -> CommandView {
    if executable_name(c.program, name) == "llama"@ && c.prefix_args.len() == 0 {
        CommandView { prefix_args: seq!["serve"@], ..c }
    } else {
        c
    }
}

proof fn lemma_llama(c: CommandView, n: Seq<char>)
    requires
        c.prefix_args.len() == 0,
    ensures
        with_serve(c, Some(n)).prefix_args == seq!["serve"@] <==> is_llama(n),
{
    let r = with_serve(c, Some(n)).prefix_args;
    lemma_before_last_splits(n, '.');
    reveal_strlit("llama");
    assert(r.len() == 0 ==> r != seq!["serve"@]);
    match before_last(n, '.') {
        None => {
            if is_llama(n) && !(ascii_lower(n) == "llama"@ && !n.contains('.')) {
                let (stem, e) = choose|stem: Seq<char>, e: Seq<char>| #[trigger]
                    is_named(n, stem, e) && !e.contains('.') && ascii_lower(stem) == "llama"@;
                assert(n[stem.len() as int] == '.');
                assert(n.contains('.'));
            }
        },
        Some(head) => {
            let tail = n.skip((head.len() + 1) as int);
            assert(n =~= head + seq!['.'] + tail);
            assert(n[head.len() as int] == '.');
            assert(n.contains('.'));
            if head.len() > 0 {
                assert(is_named(n, head, tail));
            } else {
                assert(ascii_lower(n)[0] == '.');
                assert("llama"@[0] == 'l');
            }
            if is_llama(n) {
                let (stem, e) = choose|stem: Seq<char>, e: Seq<char>| #[trigger]
                    is_named(n, stem, e) && !e.contains('.') && ascii_lower(stem) == "llama"@;
                if stem.len() < head.len() {
                    let k = head.len() - stem.len() - 1;
                    assert((stem + seq!['.'] + e)[stem.len() + 1 + k] == e[k]);
                    assert(e.contains(e[k]));
                } else if head.len() < stem.len() {
                    let k = stem.len() - head.len() - 1;
                    assert((stem + seq!['.'] + e)[stem.len() as int] == '.');
                    assert((head + seq!['.'] + tail)[head.len() + 1 + k] == tail[k]);
                    assert(tail.contains(tail[k]));
                }
                assert(stem =~= (stem + seq!['.'] + e).take(stem.len() as int));
                assert(head =~= (head + seq!['.'] + tail).take(head.len() as int));
            }
        },
    }
}

/// The name is that of the plain `llama` program, in any case, with an extension or without.
pub open spec fn is_llama(n: Seq<char>) -> bool {
    (ascii_lower(n) == "llama"@ && !n.contains('.')) || exists|stem: Seq<char>, e: Seq<char>|
        #[trigger] is_named(n, stem, e) && !e.contains('.') && ascii_lower(stem) == "llama"@
}

/// No word of a command line is lost, and nothing is put before the arguments that it
/// gives; a program gets the subcommand where it is called `llama`, in any case and with
/// any extension, and has no arguments.
pub proof fn law_command_words(value: Seq<char>, c: CommandView, name: Option<Seq<char>>)
    ensures
        words(trim(value), CharClass::White).len() > 0 ==> seq![
            command_parts(value, false).program,
        ] + command_parts(value, false).prefix_args == words(trim(value), CharClass::White),
        command_parts(value, true).program == trim(value),
        command_parts(value, true).prefix_args.len() == 0,
        with_serve(c, name).program == c.program,
        c.prefix_args.len() > 0 ==> with_serve(c, name).prefix_args == c.prefix_args,
        c.prefix_args.len() == 0 && name is Some ==> (with_serve(c, name).prefix_args == seq![
            "serve"@,
        ] <==> is_llama(name.unwrap())),
{
    let w = words(trim(value), CharClass::White);
    if w.len() > 0 {
        assert(seq![w[0]] + w.skip(1) =~= w);
    }
    if let Some(n) = name {
        if c.prefix_args.len() == 0 {
            lemma_llama(c, n);
        }
    }
}

fn split_command(value: &str, path_exists: bool) -> (r: CommandSpec)
    ensures
        r@ == command_parts(value@, path_exists),
{
    let line = trimmed(value);
    let w = pieces_of_words(line.as_str(), CharClass::White);
    let ghost all = views(w@);
    assert(all.len() == w@.len());
    let mut args: Vec<String> = Vec::new();
    if path_exists || w.len() == 0 {
        assert(views(args@) =~= seq![]);
        return CommandSpec { program: line, prefix_args: args };
    }
    let mut i: usize = 1;
    assert(views(args@) =~= all.subrange(1, 1));
    while i < w.len()
        invariant
            1 <= i <= w.len(),
            all == views(w@),
            views(args@) == all.subrange(1, i as int),
        decreases w.len() - i,
    {
        let ghost before = views(args@);
        args.push(w[i].clone());
        assert(views(args@) =~= before.push(w@[i as int]@));
        assert(views(args@) =~= all.subrange(1, i + 1));
        i += 1;
    }
    assert(all.subrange(1, i as int) =~= all.skip(1));
    assert(all[0] == w@[0]@);
    CommandSpec { program: w[0].clone(), prefix_args: args }
}

/// The command with the subcommand that it needs, given the name of its program's
/// file.
pub fn add_subcommand(spec: CommandSpec, name: &Option<String>) -> (r: CommandSpec)
    ensures
        r@ == with_serve(spec@, opt_text(*name)),
{
    let program_name = match name {
        Some(n) => {
            match head_before_last(n.as_str(), '.') {
                Some(stem) => {
                    if !stem.as_str().is_empty() {
                        to_ascii_lower(stem.as_str())
                    } else {
                        to_ascii_lower(n.as_str())
                    }
                },
                None => to_ascii_lower(n.as_str()),
            }
        },
        None => to_ascii_lower(spec.program.as_str()),
    };
    let mut spec = spec;
    assert(spec@.prefix_args.len() == spec.prefix_args@.len());
    if same(program_name.as_str(), "llama") && spec.prefix_args.len() == 0 {
        let ghost before = spec@;
        let serve = "serve".to_owned();
        spec.prefix_args.push(serve);
        assert(spec@.prefix_args =~= seq!["serve"@]);
    }
    spec
}

/// The command that a command line means, and whether it means one at all; whether
/// the line is the path of something that exists has to be told.
pub fn command_spec(value: &str, path_exists: bool) -> (r: Option<CommandSpec>)
    ensures
        match r {
            None => is_blank(value@),
            Some(c) => !is_blank(value@) && exists|name: Option<Seq<char>>|
                can_be_file_name(command_parts(value@, path_exists).program, name) && c@
                    == #[trigger] with_serve(command_parts(value@, path_exists), name),
        },
{
    if blank(value) {
        return None;
    }
    let parts = split_command(value, path_exists);
    let ghost shown = parts@;
    let name = file_name(parts.program.as_str());
    let ghost of_file = opt_text(name);
    let r = add_subcommand(parts, &name);
    assert(can_be_file_name(shown.program, of_file) && r@ == with_serve(shown, of_file));
    Some(r)
}

/// The commands to try, in order: the configured one, then the usual ones.
pub open spec fn candidates(configured: Seq<char>) -> Seq<Seq<char>> {
    let own = trim(configured);
    let first = if own.len() == 0 {
        seq![]
    } else {
        seq![own]
    };
    let second = if first.contains("llama"@) {
        first
    } else {
        first.push("llama"@)
    };
    if second.contains("llama-server"@) {
        second
    } else {
        second.push("llama-server"@)
    }
}

/// The commands to try, in order.
pub fn llama_candidates(configured: &str) -> (r: Vec<String>)
    ensures
        views(r@) == candidates(configured@),
{
    let mut r: Vec<String> = Vec::new();
    let own = trimmed(configured);
    assert(views(r@) =~= seq![]);
    if !own.as_str().is_empty() {
        r.push(own);
        assert(views(r@) =~= seq![own@]);
    }
    if !is_among("llama", &r) {
        let ghost before = views(r@);
        let s = "llama".to_owned();
        r.push(s);
        assert(views(r@) =~= before.push(s@));
    }
    if !is_among("llama-server", &r) {
        let ghost before = views(r@);
        let s = "llama-server".to_owned();
        r.push(s);
        assert(views(r@) =~= before.push(s@));
    }
    r
}

// ---------------------------------------------------------------------- servers

/// The host, the port and the model of a service.
pub open spec fn service_of(kind: ServiceKind, s: SettingsView) -> (Seq<char>, u16, Seq<char>) {
    match kind {
        ServiceKind::Chat => (s.chat_host, s.chat_port, s.chat_model_path),
        ServiceKind::Embedding => (s.embedding_host, s.embedding_port, s.embedding_model_path),
    }
}

/// The arguments of the server of a service.
pub open spec fn server_args(kind: ServiceKind, s: SettingsView, threads: usize) -> Seq<Seq<char>> {
    let service = service_of(kind, s);
    let common = seq![
        "-m"@,
        service.2,
        "--host"@,
        service.0,
        "--port"@,
        decimal(service.1 as nat),
        "-c"@,
        decimal(s.context_size as nat),
        "-t"@,
        decimal(threads as nat),
    ];
    match kind {
        ServiceKind::Chat => common,
        ServiceKind::Embedding => common.push("--embedding"@),
    }
}

/// The arguments of the server of a service.
pub fn server_arguments(kind: ServiceKind, settings: &Settings, threads: usize) -> (r: Vec<String>)
    ensures
        views(r@) == server_args(kind, settings@, threads),
{
    let (host, port, model) = match kind {
        ServiceKind::Chat => (
            settings.chat_host.clone(),
            settings.chat_port,
            settings.chat_model_path.clone(),
        ),
        ServiceKind::Embedding => (
            settings.embedding_host.clone(),
            settings.embedding_port,
            settings.embedding_model_path.clone(),
        ),
    };
    let mut r: Vec<String> = Vec::new();
    r.push("-m".to_owned());
    r.push(model);
    r.push("--host".to_owned());
    r.push(host);
    r.push("--port".to_owned());
    r.push(decimal_string(port as u128));
    r.push("-c".to_owned());
    r.push(decimal_string(settings.context_size as u128));
    r.push("-t".to_owned());
    r.push(decimal_string(threads as u128));
    if kind == ServiceKind::Embedding {
        r.push("--embedding".to_owned());
    }
    assert(views(r@) =~= server_args(kind, settings@, threads));
    r
}

/// What has to be done for a service to be there.
#[derive(Debug, Clone, Copy, PartialEq, Eq, Structural)]
pub enum EnsurePlan {
    /// Its server already answers, and is somebody else's.
    AlreadyRunning,
    /// Its model is missing.
    MissingModel,
    /// Its server has to be started.
    Start,
}

/// What has to be done for a service to be there, given whether its server answers
/// and whether its model is there; a server elsewhere is refused.
pub fn plan_service(kind: ServiceKind, settings: &Settings, healthy: bool, model_exists: bool) -> (r:
    Result<EnsurePlan, SettingsError>)
    ensures
        if !is_local_host(service_of(kind, settings@).0) {
            r matches Err(e) && e is RemoteHost
        } else {
            r == Ok::<EnsurePlan, SettingsError>(
                if healthy {
                    EnsurePlan::AlreadyRunning
                } else if !model_exists {
                    EnsurePlan::MissingModel
                } else {
                    EnsurePlan::Start
                },
            )
        },
{
    let host = match kind {
        ServiceKind::Chat => settings.chat_host.as_str(),
        ServiceKind::Embedding => settings.embedding_host.as_str(),
    };
    match validate_loopback_host(host) {
        Err(e) => {
            return Err(e);
        },
        Ok(()) => {},
    }
    if healthy {
        Ok(EnsurePlan::AlreadyRunning)
    } else if !model_exists {
        Ok(EnsurePlan::MissingModel)
    } else {
        Ok(EnsurePlan::Start)
    }
}

/// The seconds that a server may take to answer after its start.
pub const STARTUP_SECONDS: u64 = 90;

/// What to do while a server starts.
#[derive(Debug, Clone, Copy, PartialEq, Eq, Structural)]
pub enum StartupStep {
    /// It answers.
    Ready,
    /// It has ended.
    Ended,
    /// It has taken too long.
    TimedOut,
    /// Look again in a moment.
    Wait,
}

/// What to do while a server starts, given the milliseconds since its start, whether
/// it answers and whether it has ended.
pub fn startup_step(elapsed_millis: u64, healthy: bool, ended: bool) -> (r: StartupStep)
    ensures
        r == if elapsed_millis >= STARTUP_SECONDS * 1000 {
            StartupStep::TimedOut
        } else if healthy {
            StartupStep::Ready
        } else if ended {
            StartupStep::Ended
        } else {
            StartupStep::Wait
        },
{
    if elapsed_millis >= STARTUP_SECONDS * 1000 {
        StartupStep::TimedOut
    } else if healthy {
        StartupStep::Ready
    } else if ended {
        StartupStep::Ended
    } else {
        StartupStep::Wait
    }
}

/// The servers that were started here, each by the number of its process; servers of
/// others are not among them.
#[derive(Debug)]
pub struct ProcessManager {
    pub chat: Option<u32>,
    pub embedding: Option<u32>,
}

impl Default for ProcessManager {
    fn default() -> (r: ProcessManager)
        ensures
            r.chat is None,
            r.embedding is None,
    {
        ProcessManager { chat: None, embedding: None }
    }
}

impl ProcessManager {
    /// The process of a service.
    pub open spec fn process(self, kind: ServiceKind) -> Option<u32> {
        match kind {
            ServiceKind::Chat => self.chat,
            ServiceKind::Embedding => self.embedding,
        }
    }

    /// Takes note of a server that was started.
    pub fn adopt(&mut self, kind: ServiceKind, process: u32)
        ensures
            final(self).process(kind) == Some(process),
            forall|other: ServiceKind|
                other != kind ==> #[trigger] final(self).process(other) == old(self).process(other),
    {
        match kind {
            ServiceKind::Chat => {
                self.chat = Some(process);
            },
            ServiceKind::Embedding => {
                self.embedding = Some(process);
            },
        }
    }

    /// The server to stop, if one was started here; it is then no longer among them.
    pub fn stop_owned(&mut self, kind: ServiceKind) -> (r: Option<u32>)
        ensures
            r == old(self).process(kind),
            final(self).process(kind) is None,
            forall|other: ServiceKind|
                other != kind ==> #[trigger] final(self).process(other) == old(self).process(other),
    {
        match kind {
            ServiceKind::Chat => {
                let r = self.chat;
                self.chat = None;
                r
            },
            ServiceKind::Embedding => {
                let r = self.embedding;
                self.embedding = None;
                r
            },
        }
    }

    /// Whether the server of a service was started here.
    pub fn owns(&self, kind: ServiceKind) -> (r: bool)
        ensures
            r == (self.process(kind) is Some),
    {
        match kind {
            ServiceKind::Chat => self.chat.is_some(),
            ServiceKind::Embedding => self.embedding.is_some(),
        }
    }

    /// How many servers were started here.
    pub fn owned_count(&self) -> (r: usize)
        ensures
            r == (if self.chat is Some {
                1int
            } else {
                0
            }) + (if self.embedding is Some {
                1int
            } else {
                0
            }),
    {
        let a: usize = if self.chat.is_some() {
            1
        } else {
            0
        };
        let b: usize = if self.embedding.is_some() {
            1
        } else {
            0
        };
        a + b
    }
}

/// A server is told the model, the address and the port of its own service, the size of
/// the context and the number of threads, each behind its flag; only the server of the
/// embeddings is told to make them.
pub proof fn law_server_is_told_its_service(s: SettingsView, threads: usize)
    ensures
        ({
            let chat = server_args(ServiceKind::Chat, s, threads);
            let embedding = server_args(ServiceKind::Embedding, s, threads);
            &&& chat =~= seq![
                "-m"@,
                s.chat_model_path,
                "--host"@,
                s.chat_host,
                "--port"@,
                decimal(s.chat_port as nat),
                "-c"@,
                decimal(s.context_size as nat),
                "-t"@,
                decimal(threads as nat),
            ]
            &&& embedding =~= seq![
                "-m"@,
                s.embedding_model_path,
                "--host"@,
                s.embedding_host,
                "--port"@,
                decimal(s.embedding_port as nat),
                "-c"@,
                decimal(s.context_size as nat),
                "-t"@,
                decimal(threads as nat),
                "--embedding"@,
            ]
        }),
{
}

/// The commands to try begin with the configured one, if there is one, and have both usual
/// ones; none is tried twice.
pub proof fn law_candidates(configured: Seq<char>)
    ensures
        !is_blank(configured) ==> candidates(configured)[0] == trim(configured),
        candidates(configured).contains("llama"@),
        candidates(configured).contains("llama-server"@),
        candidates(configured).no_duplicates(),
        forall|x: Seq<char>| #[trigger]
            candidates(configured).contains(x) ==> x == "llama"@ || x == "llama-server"@ || x
                == trim(configured),
{
    reveal_strlit("llama");
    reveal_strlit("llama-server");
    assert("llama"@.len() != "llama-server"@.len());
    let own = trim(configured);
    let first = if own.len() == 0 {
        seq![]
    } else {
        seq![own]
    };
    let second = if first.contains("llama"@) {
        first
    } else {
        first.push("llama"@)
    };
    let r = candidates(configured);
    assert(second.contains("llama"@)) by {
        if !first.contains("llama"@) {
            assert(second[first.len() as int] == "llama"@);
        }
    }
    let i = choose|i: int| 0 <= i < second.len() && second[i] == "llama"@;
    assert(r[i] == "llama"@);
    if !second.contains("llama-server"@) {
        assert(r[second.len() as int] == "llama-server"@);
    }
}

} // verus!
