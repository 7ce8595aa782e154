//! Settings: defaults, stored values, and the addresses of the local servers.

use vstd::prelude::*;
use vstd::string::StringExecFns;

use crate::net::{is_local_name, local_name};
use crate::text::{
    all_digits, ascii_lower, chars, contains, decimal, decimal_string, has, number, only_digits,
    parse_number, same, same_ignoring_ascii_case, string, trim, trim_end, trim_end_chars, trim_start,
    trim_start_chars, CharClass,
};

verus! {

pub const DEFAULT_LLAMA_COMMAND: &'static str = "llama";

/// The bits of the default temperature, 0.3.
pub const DEFAULT_TEMPERATURE_BITS: u32 = 0x3e99_999a;

/// The settings of the application; the temperature is the bits of a
/// single-precision number.
#[derive(Debug, PartialEq, Eq)]
pub struct Settings {
    pub chat_model_path: String,
    pub embedding_model_path: String,
    pub chat_host: String,
    pub chat_port: u16,
    pub embedding_host: String,
    pub embedding_port: u16,
    pub llama_command: String,
    pub temperature: u32,
    pub max_tokens: usize,
    pub context_size: usize,
    pub inference_threads: usize,
    pub chunk_size: usize,
    pub chunk_overlap: usize,
    pub top_k: usize,
    pub diagnostic_mode: bool,
}

/// What a `Settings` holds.
pub struct SettingsView {
    pub chat_model_path: Seq<char>,
    pub embedding_model_path: Seq<char>,
    pub chat_host: Seq<char>,
    pub chat_port: u16,
    pub embedding_host: Seq<char>,
    pub embedding_port: u16,
    pub llama_command: Seq<char>,
    pub temperature: u32,
    pub max_tokens: usize,
    pub context_size: usize,
    pub inference_threads: usize,
    pub chunk_size: usize,
    pub chunk_overlap: usize,
    pub top_k: usize,
    pub diagnostic_mode: bool,
}

impl View for Settings {
    type V = SettingsView;

    open spec fn view(&self) -> SettingsView {
        SettingsView {
            chat_model_path: self.chat_model_path@,
            embedding_model_path: self.embedding_model_path@,
            chat_host: self.chat_host@,
            chat_port: self.chat_port,
            embedding_host: self.embedding_host@,
            embedding_port: self.embedding_port,
            llama_command: self.llama_command@,
            temperature: self.temperature,
            max_tokens: self.max_tokens,
            context_size: self.context_size,
            inference_threads: self.inference_threads,
            chunk_size: self.chunk_size,
            chunk_overlap: self.chunk_overlap,
            top_k: self.top_k,
            diagnostic_mode: self.diagnostic_mode,
        }
    }
}

/// The settings of a new installation.
pub open spec fn default_settings() -> SettingsView {
    SettingsView {
            chat_model_path: seq![],
            embedding_model_path: seq![],
            chat_host: "127.0.0.1"@,
            chat_port: 8080,
            embedding_host: "127.0.0.1"@,
            embedding_port: 8081,
            llama_command: DEFAULT_LLAMA_COMMAND@,
            temperature: DEFAULT_TEMPERATURE_BITS,
            max_tokens: 1024,
            context_size: 4096,
            inference_threads: 0,
            chunk_size: 600,
            chunk_overlap: 80,
            top_k: 4,
            diagnostic_mode: false,
    }
}

impl Default for Settings {
    fn default() -> (r: Settings)
        ensures
            r@ == default_settings(),
    {
        Settings {
            chat_model_path: String::new(),
            embedding_model_path: String::new(),
            chat_host: "127.0.0.1".to_owned(),
            chat_port: 8080,
            embedding_host: "127.0.0.1".to_owned(),
            embedding_port: 8081,
            llama_command: DEFAULT_LLAMA_COMMAND.to_owned(),
            temperature: DEFAULT_TEMPERATURE_BITS,
            max_tokens: 1024,
            context_size: 4096,
            inference_threads: 0,
            chunk_size: 600,
            chunk_overlap: 80,
            top_k: 4,
            diagnostic_mode: false,
        }
    }
}

impl Clone for Settings {
    fn clone(&self) -> (r: Settings)
        ensures
            r@ == self@,
    {
        Settings {
            chat_model_path: self.chat_model_path.clone(),
            embedding_model_path: self.embedding_model_path.clone(),
            chat_host: self.chat_host.clone(),
            chat_port: self.chat_port,
            embedding_host: self.embedding_host.clone(),
            embedding_port: self.embedding_port,
            llama_command: self.llama_command.clone(),
            temperature: self.temperature,
            max_tokens: self.max_tokens,
            context_size: self.context_size,
            inference_threads: self.inference_threads,
            chunk_size: self.chunk_size,
            chunk_overlap: self.chunk_overlap,
            top_k: self.top_k,
            diagnostic_mode: self.diagnostic_mode,
        }
    }
}

/// Why settings are not accepted.
#[derive(Debug, PartialEq, Eq)]
pub enum SettingsError {
    /// A stored value cannot be read: its key.
    Invalid(String),
    /// A host is not this machine.
    RemoteHost,
    /// The host of the chat server is not this machine.
    ChatHost,
    /// The host of the embedding server is not this machine.
    EmbeddingHost,
}

impl SettingsError {
    pub open spec fn spec_message(self) -> Seq<char> {
        match self {
            SettingsError::Invalid(key) => "Configuracion invalida: "@ + key@,
            SettingsError::RemoteHost => {
                "Kuznor V1 solo permite servidores locales: usa localhost, 127.0.0.1 o ::1"@
            },
            SettingsError::ChatHost => "Host de chat no permitido"@,
            SettingsError::EmbeddingHost => "Host de embeddings no permitido"@,
        }
    }

    /// The error in words.
    pub fn message(&self) -> (r: String)
        ensures
            r@ == self.spec_message(),
    {
        match self {
            SettingsError::Invalid(key) => {
                let mut r = "Configuracion invalida: ".to_owned();
                r.append(key.as_str());
                r
            },
            SettingsError::RemoteHost => {
                "Kuznor V1 solo permite servidores locales: usa localhost, 127.0.0.1 o ::1".to_owned()
            },
            SettingsError::ChatHost => "Host de chat no permitido".to_owned(),
            SettingsError::EmbeddingHost => "Host de embeddings no permitido".to_owned(),
        }
    }
}

// ---------------------------------------------------------------- stored values

/// What a list of stored values holds.
pub open spec fn value_views(v: Seq<(String, String)>) -> Seq<(Seq<char>, Seq<char>)> {
    v.map_values(|p: (String, String)| (p.0@, p.1@))
}

/// The value that is stored under a key.
pub open spec fn value_of(values: Seq<(Seq<char>, Seq<char>)>, key: Seq<char>) -> Option<Seq<char>>
    decreases values.len(),
{
    if values.len() == 0 {
        None
    } else if values[0].0 == key {
        Some(values[0].1)
    } else {
        value_of(values.skip(1), key)
    }
}

fn find_value(values: &Vec<(String, String)>, key: &str) -> (r: Option<String>)
    ensures
        crate::models::opt_text(r) == value_of(value_views(values@), key@),
{
    let ghost all = value_views(values@);
    let mut i: usize = 0;
    assert(all.skip(0) =~= all);
    while i < values.len()
        invariant
            i <= values.len(),
            all == value_views(values@),
            value_of(all, key@) == value_of(all.skip(i as int), key@),
        decreases values.len() - i,
    {
        assert(all.skip(i as int)[0] == (values@[i as int].0@, values@[i as int].1@));
        assert(all.skip(i as int).skip(1) =~= all.skip(i + 1));
        if same(values[i].0.as_str(), key) {
            return Some(values[i].1.clone());
        }
        i += 1;
    }
    None
}

/// The number that a stored value writes: digits, with or without a plus before
/// them.
pub open spec fn unsigned(s: Seq<char>) -> Option<nat> {
    let digits = if s.len() > 0 && s[0] == '+' {
        s.skip(1)
    } else {
        s
    };
    if digits.len() > 0 && all_digits(digits) {
        Some(number(digits))
    } else {
        None
    }
}

fn parse_unsigned(s: &str) -> (r: Option<usize>)
    ensures
        match r {
            Some(n) => unsigned(s@) == Some(n as nat),
            None => unsigned(s@) is None || unsigned(s@).unwrap() > usize::MAX,
        },
{
    proof {
        reveal_strlit("+");
        crate::text::lemma_one_char_prefix(s@, "+"@);
    }
    let digits = match crate::text::strip_prefix(s, "+") {
        Some(rest) => rest,
        None => s.to_owned(),
    };
    if digits.as_str().is_empty() || !only_digits(digits.as_str()) {
        return None;
    }
    parse_number(digits.as_str())
}

/// The text setting under a key, or the default.
pub open spec fn text_setting(
    values: Seq<(Seq<char>, Seq<char>)>,
    key: Seq<char>,
    default: Seq<char>,
) -> Seq<char> {
    match value_of(values, key) {
        Some(v) => v,
        None => default,
    }
}

/// The number setting under a key, or the default; none where the stored value is
/// no number or beyond the range.
pub open spec fn number_setting(
    values: Seq<(Seq<char>, Seq<char>)>,
    key: Seq<char>,
    default: nat,
    max: nat,
) -> Option<nat> {
    match value_of(values, key) {
        Some(v) => match unsigned(v) {
            Some(n) => if n <= max {
                Some(n)
            } else {
                None
            },
            None => None,
        },
        None => Some(default),
    }
}

/// The switch under a key, or the default; none where the stored value is neither
/// `true` nor `false`.
pub open spec fn flag_setting(
    values: Seq<(Seq<char>, Seq<char>)>,
    key: Seq<char>,
    default: bool,
) -> Option<bool> {
    match value_of(values, key) {
        Some(v) => if v == "true"@ {
            Some(true)
        } else if v == "false"@ {
            Some(false)
        } else {
            None
        },
        None => Some(default),
    }
}

fn read_text(values: &Vec<(String, String)>, key: &str, default: String) -> (r: String)
    ensures
        r@ == text_setting(value_views(values@), key@, default@),
{
    match find_value(values, key) {
        Some(v) => v,
        None => default,
    }
}

fn read_number(values: &Vec<(String, String)>, key: &str, default: usize, max: usize) -> (r: Option<
    usize,
>)
    ensures
        match r {
            Some(n) => number_setting(value_views(values@), key@, default as nat, max as nat)
                == Some(n as nat),
            None => number_setting(
                value_views(values@),
                key@,
                default as nat,
                max as nat,
            ) is None,
        },
        default <= max && r is Some ==> r.unwrap() <= max,
{
    match find_value(values, key) {
        Some(v) => {
            match parse_unsigned(v.as_str()) {
                Some(n) => if n <= max {
                    Some(n)
                } else {
                    None
                },
                None => None,
            }
        },
        None => Some(default),
    }
}

fn read_flag(values: &Vec<(String, String)>, key: &str, default: bool) -> (r: Option<bool>)
    ensures
        r == flag_setting(value_views(values@), key@, default),
{
    proof {
        reveal_strlit("true");
        reveal_strlit("false");
        assert("true"@.len() != "false"@.len());
    }
    match find_value(values, key) {
        Some(v) => {
            if same(v.as_str(), "true") {
                Some(true)
            } else if same(v.as_str(), "false") {
                Some(false)
            } else {
                None
            }
        },
        None => Some(default),
    }
}

/// What the stored temperature is: nothing, a number, or no number.
#[derive(Debug, Clone, Copy)]
pub enum TemperatureValue {
    Absent,
    Bits(u32),
    Invalid,
}

/// The settings that stored values give: defaults where nothing is stored, and the
/// key of the first value that cannot be read.
pub open spec fn loaded(
    values: Seq<(Seq<char>, Seq<char>)>,
    temperature: TemperatureValue,
) -> Result<SettingsView, Seq<char>> {
    let d = default_settings();
    if number_setting(values, "chat_port"@, d.chat_port as nat, 65535) is None {
        Err("chat_port"@)
    } else     if number_setting(values, "embedding_port"@, d.embedding_port as nat, 65535) is None {
        Err("embedding_port"@)
    } else if temperature is Invalid {
        Err("temperature"@)
    } else if number_setting(values, "max_tokens"@, d.max_tokens as nat, usize::MAX as nat) is None {
        Err("max_tokens"@)
    } else if number_setting(values, "context_size"@, d.context_size as nat, usize::MAX as nat) is None {
        Err("context_size"@)
    } else if number_setting(values, "inference_threads"@, d.inference_threads as nat, usize::MAX as nat) is None {
        Err("inference_threads"@)
    } else if number_setting(values, "chunk_size"@, d.chunk_size as nat, usize::MAX as nat) is None {
        Err("chunk_size"@)
    } else if number_setting(values, "chunk_overlap"@, d.chunk_overlap as nat, usize::MAX as nat) is None {
        Err("chunk_overlap"@)
    } else if number_setting(values, "top_k"@, d.top_k as nat, usize::MAX as nat) is None {
        Err("top_k"@)
    } else if flag_setting(values, "diagnostic_mode"@, d.diagnostic_mode) is None {
        Err("diagnostic_mode"@)
    } else {
        Ok(
            SettingsView {
                chat_model_path: text_setting(values, "chat_model_path"@, d.chat_model_path),
                embedding_model_path: text_setting(values, "embedding_model_path"@, d.embedding_model_path),
                chat_host: text_setting(values, "chat_host"@, d.chat_host),
                chat_port: number_setting(values, "chat_port"@, d.chat_port as nat, 65535).unwrap() as u16,
                embedding_host: text_setting(values, "embedding_host"@, d.embedding_host),
                embedding_port: number_setting(values, "embedding_port"@, d.embedding_port as nat, 65535).unwrap() as u16,
                llama_command: text_setting(values, "llama_command"@, d.llama_command),
                temperature: match temperature {
                    TemperatureValue::Bits(b) => b,
                    _ => d.temperature,
                },
                max_tokens: number_setting(values, "max_tokens"@, d.max_tokens as nat, usize::MAX as nat).unwrap() as usize,
                context_size: number_setting(values, "context_size"@, d.context_size as nat, usize::MAX as nat).unwrap() as usize,
                inference_threads: number_setting(values, "inference_threads"@, d.inference_threads as nat, usize::MAX as nat).unwrap() as usize,
                chunk_size: number_setting(values, "chunk_size"@, d.chunk_size as nat, usize::MAX as nat).unwrap() as usize,
                chunk_overlap: number_setting(values, "chunk_overlap"@, d.chunk_overlap as nat, usize::MAX as nat).unwrap() as usize,
                top_k: number_setting(values, "top_k"@, d.top_k as nat, usize::MAX as nat).unwrap() as usize,
                diagnostic_mode: flag_setting(values, "diagnostic_mode"@, d.diagnostic_mode).unwrap(),
            },
        )
    }
}

/// A switch as it is stored.
pub open spec fn flag_text(b: bool) -> Seq<char> {
    if b {
        "true"@
    } else {
        "false"@
    }
}

/// The values under which settings are stored, given the temperature as it is
/// written.
pub open spec fn stored(s: SettingsView, temperature: Seq<char>) -> Seq<(Seq<char>, Seq<char>)> {
    seq![
        ("chat_host"@, s.chat_host),
        ("chat_model_path"@, s.chat_model_path),
        ("chat_port"@, decimal(s.chat_port as nat)),
        ("chunk_overlap"@, decimal(s.chunk_overlap as nat)),
        ("chunk_size"@, decimal(s.chunk_size as nat)),
        ("context_size"@, decimal(s.context_size as nat)),
        ("diagnostic_mode"@, flag_text(s.diagnostic_mode)),
        ("embedding_host"@, s.embedding_host),
        ("embedding_model_path"@, s.embedding_model_path),
        ("embedding_port"@, decimal(s.embedding_port as nat)),
        ("inference_threads"@, decimal(s.inference_threads as nat)),
        ("llama_command"@, s.llama_command),
        ("max_tokens"@, decimal(s.max_tokens as nat)),
        ("temperature"@, temperature),
        ("top_k"@, decimal(s.top_k as nat)),
    ]
}

impl Settings {
    /// The settings that stored values give.
    pub fn load(values: &Vec<(String, String)>, temperature: TemperatureValue) -> (r: Result<
        Settings,
        SettingsError,
    >)
        ensures
            match loaded(value_views(values@), temperature) {
                Ok(v) => r matches Ok(s) && s@ == v,
                Err(key) => r matches Err(e) && e matches SettingsError::Invalid(k) && k@ == key,
            },
    {
        let mut s = Settings::default();
        s.chat_model_path = read_text(values, "chat_model_path", s.chat_model_path);
        s.embedding_model_path = read_text(values, "embedding_model_path", s.embedding_model_path);
        s.chat_host = read_text(values, "chat_host", s.chat_host);
        s.embedding_host = read_text(values, "embedding_host", s.embedding_host);
        s.llama_command = read_text(values, "llama_command", s.llama_command);
        match read_number(values, "chat_port", s.chat_port as usize, 65535) {
            Some(n) => {
                s.chat_port = n as u16;
            },
            None => {
                return Err(SettingsError::Invalid("chat_port".to_owned()));
            },
        }
        match read_number(values, "embedding_port", s.embedding_port as usize, 65535) {
            Some(n) => {
                s.embedding_port = n as u16;
            },
            None => {
                return Err(SettingsError::Invalid("embedding_port".to_owned()));
            },
        }
        match temperature {
            TemperatureValue::Absent => {},
            TemperatureValue::Bits(b) => {
                s.temperature = b;
            },
            TemperatureValue::Invalid => {
                return Err(SettingsError::Invalid("temperature".to_owned()));
            },
        }
        match read_number(values, "max_tokens", s.max_tokens, usize::MAX) {
            Some(n) => {
                s.max_tokens = n;
            },
            None => {
                return Err(SettingsError::Invalid("max_tokens".to_owned()));
            },
        }
        match read_number(values, "context_size", s.context_size, usize::MAX) {
            Some(n) => {
                s.context_size = n;
            },
            None => {
                return Err(SettingsError::Invalid("context_size".to_owned()));
            },
        }
        match read_number(values, "inference_threads", s.inference_threads, usize::MAX) {
            Some(n) => {
                s.inference_threads = n;
            },
            None => {
                return Err(SettingsError::Invalid("inference_threads".to_owned()));
            },
        }
        match read_number(values, "chunk_size", s.chunk_size, usize::MAX) {
            Some(n) => {
                s.chunk_size = n;
            },
            None => {
                return Err(SettingsError::Invalid("chunk_size".to_owned()));
            },
        }
        match read_number(values, "chunk_overlap", s.chunk_overlap, usize::MAX) {
            Some(n) => {
                s.chunk_overlap = n;
            },
            None => {
                return Err(SettingsError::Invalid("chunk_overlap".to_owned()));
            },
        }
        match read_number(values, "top_k", s.top_k, usize::MAX) {
            Some(n) => {
                s.top_k = n;
            },
            None => {
                return Err(SettingsError::Invalid("top_k".to_owned()));
            },
        }
        match read_flag(values, "diagnostic_mode", s.diagnostic_mode) {
            Some(b) => {
                s.diagnostic_mode = b;
            },
            None => {
                return Err(SettingsError::Invalid("diagnostic_mode".to_owned()));
            },
        }
        Ok(s)
    }

    /// The values under which the settings are stored; settings with hosts elsewhere
    /// are never stored.
    pub fn save(&self, temperature: &str) -> (r: Result<Vec<(String, String)>, SettingsError>)
        ensures
            match r {
                Ok(v) => self@.is_local() && value_views(v@) == stored(self@, temperature@),
                Err(e) => is_host_error(self@, e),
            },
    {
        match self.validate_local_only() {
            Err(e) => {
                return Err(e);
            },
            Ok(()) => {},
        }
        let mut r: Vec<(String, String)> = Vec::new();
        r.push(("chat_host".to_owned(), self.chat_host.clone()));
        r.push(("chat_model_path".to_owned(), self.chat_model_path.clone()));
        r.push(("chat_port".to_owned(), decimal_string(self.chat_port as u128)));
        r.push(("chunk_overlap".to_owned(), decimal_string(self.chunk_overlap as u128)));
        r.push(("chunk_size".to_owned(), decimal_string(self.chunk_size as u128)));
        r.push(("context_size".to_owned(), decimal_string(self.context_size as u128)));
        r.push(("diagnostic_mode".to_owned(), (if self.diagnostic_mode {
                "true".to_owned()
            } else {
                "false".to_owned()
            })));
        r.push(("embedding_host".to_owned(), self.embedding_host.clone()));
        r.push(("embedding_model_path".to_owned(), self.embedding_model_path.clone()));
        r.push(("embedding_port".to_owned(), decimal_string(self.embedding_port as u128)));
        r.push(("inference_threads".to_owned(), decimal_string(self.inference_threads as u128)));
        r.push(("llama_command".to_owned(), self.llama_command.clone()));
        r.push(("max_tokens".to_owned(), decimal_string(self.max_tokens as u128)));
        r.push(("temperature".to_owned(), temperature.to_owned()));
        r.push(("top_k".to_owned(), decimal_string(self.top_k as u128)));
        assert(value_views(r@) =~= stored(self@, temperature@));
        Ok(r)
    }

    /// Checks that both servers are on this machine.
    pub fn validate_local_only(&self) -> (r: Result<(), SettingsError>)
        ensures
            match r {
                Ok(()) => self@.is_local(),
                Err(e) => is_host_error(self@, e),
            },
    {
        match validate_loopback_host(self.chat_host.as_str()) {
            Err(_) => {
                return Err(SettingsError::ChatHost);
            },
            Ok(()) => {},
        }
        match validate_loopback_host(self.embedding_host.as_str()) {
            Err(_) => Err(SettingsError::EmbeddingHost),
            Ok(()) => Ok(()),
        }
    }

    /// Where questions are sent.
    pub fn chat_url(&self) -> (r: Result<String, SettingsError>)
        ensures
            is_url_outcome(self@.chat_host, self@.chat_port, "/v1/chat/completions"@, r),
    {
        endpoint_url(self.chat_host.as_str(), self.chat_port, "/v1/chat/completions")
    }

    /// Where embeddings are asked for.
    pub fn embedding_url(&self) -> (r: Result<String, SettingsError>)
        ensures
            is_url_outcome(self@.embedding_host, self@.embedding_port, "/v1/embeddings"@, r),
    {
        endpoint_url(self.embedding_host.as_str(), self.embedding_port, "/v1/embeddings")
    }

    /// Where the chat server describes itself.
    pub fn chat_props_url(&self) -> (r: Result<String, SettingsError>)
        ensures
            is_url_outcome(self@.chat_host, self@.chat_port, "/props"@, r),
    {
        endpoint_url(self.chat_host.as_str(), self.chat_port, "/props")
    }
}

impl SettingsView {
    /// Both servers are on this machine.
    pub open spec fn is_local(self) -> bool {
        is_local_host(self.chat_host) && is_local_host(self.embedding_host)
    }
}

/// The error says which server is not on this machine; the chat server first.
pub open spec fn is_host_error(s: SettingsView, e: SettingsError) -> bool {
    if !is_local_host(s.chat_host) {
        e is ChatHost
    } else {
        e is EmbeddingHost && !is_local_host(s.embedding_host)
    }
}

proof fn lemma_value_at(values: Seq<(Seq<char>, Seq<char>)>, i: int)
    requires
        0 <= i < values.len(),
        forall|j: int| 0 <= j < i ==> (#[trigger] values[j]).0 != values[i].0,
    ensures
        value_of(values, values[i].0) == Some(values[i].1),
    decreases i,
{
    if i > 0 {
        let rest = values.skip(1);
        assert(values[0].0 != values[i].0);
        assert(rest[i - 1] == values[i]);
        assert forall|j: int| 0 <= j < i - 1 implies (#[trigger] rest[j]).0 != rest[i - 1].0 by {
            assert(rest[j] == values[j + 1]);
        }
        lemma_value_at(rest, i - 1);
    }
}

proof fn lemma_keys_differ(s: SettingsView, temperature: Seq<char>, i: int, j: int)
    requires
        0 <= j < i < stored(s, temperature).len(),
    ensures
        stored(s, temperature)[j].0 != stored(s, temperature)[i].0,
{
    reveal_strlit("chat_host");
    reveal_strlit("chat_model_path");
    reveal_strlit("chat_port");
    reveal_strlit("chunk_overlap");
    reveal_strlit("chunk_size");
    reveal_strlit("context_size");
    reveal_strlit("diagnostic_mode");
    reveal_strlit("embedding_host");
    reveal_strlit("embedding_model_path");
    reveal_strlit("embedding_port");
    reveal_strlit("inference_threads");
    reveal_strlit("llama_command");
    reveal_strlit("max_tokens");
    reveal_strlit("temperature");
    reveal_strlit("top_k");
    assert("chat_host"@.len() == 9);
    assert("chat_model_path"@.len() == 15);
    assert("chat_port"@.len() == 9);
    assert("chunk_overlap"@.len() == 13);
    assert("chunk_size"@.len() == 10);
    assert("context_size"@.len() == 12);
    assert("diagnostic_mode"@.len() == 15);
    assert("embedding_host"@.len() == 14);
    assert("embedding_model_path"@.len() == 20);
    assert("embedding_port"@.len() == 14);
    assert("inference_threads"@.len() == 17);
    assert("llama_command"@.len() == 13);
    assert("max_tokens"@.len() == 10);
    assert("temperature"@.len() == 11);
    assert("top_k"@.len() == 5);
    assert("chat_host"@[5] == 'h');
    assert("chat_port"@[5] == 'p');
    assert("chat_model_path"@[0] == 'c');
    assert("diagnostic_mode"@[0] == 'd');
    assert("chunk_overlap"@[0] == 'c');
    assert("llama_command"@[0] == 'l');
    assert("chunk_size"@[0] == 'c');
    assert("max_tokens"@[0] == 'm');
    assert("embedding_host"@[10] == 'h');
    assert("embedding_port"@[10] == 'p');
}

proof fn lemma_unsigned(n: nat)
    ensures
        unsigned(decimal(n)) == Some(n),
{
    crate::text::law_decimal_round_trip(n);
    assert(crate::text::is_digit(decimal(n)[0]));
}

/// Loading what was stored of settings gives the settings back.
pub proof fn law_settings_round_trip(s: SettingsView, temperature: Seq<char>)
    ensures
        loaded(stored(s, temperature), TemperatureValue::Bits(s.temperature)) == Ok::<
            SettingsView,
            Seq<char>,
        >(s),
{
    let v = stored(s, temperature);
    assert forall|i: int, j: int| 0 <= j < i < v.len() implies (#[trigger] v[j]).0 != (
    #[trigger] v[i]).0 by {
        lemma_keys_differ(s, temperature, i, j);
    }
    lemma_value_at(v, 0);
    lemma_value_at(v, 1);
    lemma_value_at(v, 2);
    lemma_value_at(v, 3);
    lemma_value_at(v, 4);
    lemma_value_at(v, 5);
    lemma_value_at(v, 6);
    lemma_value_at(v, 7);
    lemma_value_at(v, 8);
    lemma_value_at(v, 9);
    lemma_value_at(v, 10);
    lemma_value_at(v, 11);
    lemma_value_at(v, 12);
    lemma_value_at(v, 13);
    lemma_value_at(v, 14);
    lemma_unsigned(s.chat_port as nat);
    lemma_unsigned(s.embedding_port as nat);
    lemma_unsigned(s.max_tokens as nat);
    lemma_unsigned(s.context_size as nat);
    lemma_unsigned(s.inference_threads as nat);
    lemma_unsigned(s.chunk_size as nat);
    lemma_unsigned(s.chunk_overlap as nat);
    lemma_unsigned(s.top_k as nat);
    reveal_strlit("true");
    reveal_strlit("false");
    assert("true"@.len() != "false"@.len());
}

/// Settings with a host elsewhere have no web address for that server: whatever is
/// sent stays on this machine.
pub proof fn law_only_this_machine(host: Seq<char>, port: u16, path: Seq<char>, r: Result<
    String,
    SettingsError,
>)
    requires
        is_url_outcome(host, port, path, r),
        r is Ok,
    ensures
        r.unwrap()@ == "http://"@ + url_host(host) + ":"@ + decimal(port as nat) + path,
        crate::net::is_loopback_address(bare_host(host)) || url_host(host) == "127.0.0.1"@,
{
    if ascii_lower(bare_host(host)) == ascii_lower("localhost"@) {
        reveal_strlit("127.0.0.1");
        reveal_strlit(":");
        assert(!contains("127.0.0.1"@, ":"@)) by {
            if contains("127.0.0.1"@, ":"@) {
                let i = choose|i: int| crate::text::occurs_at("127.0.0.1"@, ":"@, i);
                assert("127.0.0.1"@.subrange(i, i + 1)[0] == ':');
                assert("127.0.0.1"@[i] == ':');
            }
        }
    }
}

// ------------------------------------------------------------------------ hosts

/// A host without white space and brackets around it.
pub open spec fn bare_host(host: Seq<char>) -> Seq<char> {
    trim_end(trim_start(trim(host), CharClass::One('[')), CharClass::One(']'))
}

/// The host is this machine.
pub open spec fn is_local_host(host: Seq<char>) -> bool {
    is_local_name(bare_host(host))
}

fn strip_host(host: &str) -> (r: String)
    ensures
        r@ == bare_host(host@),
{
    let c = chars(host);
    let t = trim_end_chars(trim_start_chars(&c, CharClass::White), CharClass::White);
    string(trim_end_chars(trim_start_chars(t, CharClass::One('[')), CharClass::One(']')))
}

/// Accepts a host that is this machine.
pub fn validate_loopback_host(host: &str) -> (r: Result<(), SettingsError>)
    ensures
        match r {
            Ok(()) => is_local_host(host@),
            Err(e) => e is RemoteHost && !is_local_host(host@),
        },
{
    let bare = strip_host(host);
    if local_name(bare.as_str()) {
        Ok(())
    } else {
        Err(SettingsError::RemoteHost)
    }
}

/// A host as it stands in a web address: an address instead of `localhost`, and
/// brackets around one with colons.
pub open spec fn url_host(host: Seq<char>) -> Seq<char> {
    let bare = bare_host(host);
    let address = if ascii_lower(bare) == ascii_lower("localhost"@) {
        "127.0.0.1"@
    } else {
        bare
    };
    if contains(address, ":"@) {
        "["@ + address + "]"@
    } else {
        address
    }
}

/// The web address of a path on a server.
pub open spec fn url(host: Seq<char>, port: u16, path: Seq<char>) -> Seq<char> {
    "http://"@ + url_host(host) + ":"@ + decimal(port as nat) + path
}

/// The outcome of asking for a web address: there is one exactly for a host that is
/// this machine.
pub open spec fn is_url_outcome(
    host: Seq<char>,
    port: u16,
    path: Seq<char>,
    r: Result<String, SettingsError>,
) -> bool {
    match r {
        Ok(u) => is_local_host(host) && u@ == url(host, port, path),
        Err(e) => e is RemoteHost && !is_local_host(host),
    }
}

/// The web address of a path on a server of this machine.
pub fn endpoint_url(host: &str, port: u16, path: &str) -> (r: Result<String, SettingsError>)
    ensures
        is_url_outcome(host@, port, path@, r),
{
    match validate_loopback_host(host) {
        Err(e) => {
            return Err(e);
        },
        Ok(()) => {},
    }
    let bare = strip_host(host);
    let address = if same_ignoring_ascii_case(bare.as_str(), "localhost") {
        "127.0.0.1".to_owned()
    } else {
        bare
    };
    let mut r = "http://".to_owned();
    if has(address.as_str(), ":") {
        let mut bracketed = "[".to_owned();
        bracketed.append(address.as_str());
        bracketed.append("]");
        r.append(bracketed.as_str());
    } else {
        r.append(address.as_str());
    }
    r.append(":");
    r.append(decimal_string(port as u128).as_str());
    r.append(path);
    Ok(r)
}

/// The number of threads to compute with, given the one that is configured, zero for
/// automatic, and the number of processors, where it is known.
pub fn effective_inference_threads(configured: usize, available: Option<usize>) -> (r: usize)
    ensures
        r == if configured > 0 {
            configured
        } else {
            let known = match available {
                Some(n) => n,
                None => 2,
            };
            if known > 3 {
                (known - 2) as usize
            } else {
                1
            }
        },
        r >= 1,
{
    if configured > 0 {
        return configured;
    }
    let known: usize = match available {
        Some(n) => n,
        None => 2,
    };
    if known > 3 {
        known - 2
    } else {
        1
    }
}

/// Settings are refused exactly where one of the two hosts is not this machine, and the
/// error names that host; the chat host where neither is.
pub proof fn law_remote_hosts_are_refused(s: SettingsView, e: SettingsError)
    ensures
        s.is_local() ==> is_local_host(s.chat_host) && is_local_host(s.embedding_host),
        is_host_error(s, e) ==> !s.is_local(),
        is_host_error(s, e) ==> e is ChatHost || e is EmbeddingHost,
        is_host_error(s, e) && e is ChatHost ==> !is_local_host(s.chat_host),
        is_host_error(s, e) && e is EmbeddingHost ==> is_local_host(s.chat_host) && !is_local_host(
            s.embedding_host,
        ),
{
}

} // verus!
