//! What the settings window says of the local services.

use vstd::prelude::*;
use vstd::string::StringExecFns;

use crate::text::{blank, is_blank};

verus! {

/// What a service has to work with.
#[derive(Debug, Clone, Copy, PartialEq, Eq, Structural)]
pub enum Requirement {
    Managed,
    Local,
    Configured,
    Missing,
}

/// What a service has to work with: a running server, else a model, else nothing.
pub open spec fn requirement(connected: bool, owned: bool, model_available: bool) -> Requirement {
    if connected {
        if owned {
            Requirement::Managed
        } else {
            Requirement::Local
        }
    } else if model_available {
        Requirement::Configured
    } else {
        Requirement::Missing
    }
}

impl Requirement {
    pub open spec fn spec_text(self) -> Seq<char> {
        match self {
            Requirement::Managed => "servidor administrado conectado"@,
            Requirement::Local => "servidor local conectado"@,
            Requirement::Configured => "modelo local configurado"@,
            Requirement::Missing => "sin servidor accesible ni modelo local"@,
        }
    }

    /// The words for it.
    pub fn text(self) -> (r: &'static str)
        ensures
            r@ == self.spec_text(),
    {
        match self {
            Requirement::Managed => "servidor administrado conectado",
            Requirement::Local => "servidor local conectado",
            Requirement::Configured => "modelo local configurado",
            Requirement::Missing => "sin servidor accesible ni modelo local",
        }
    }
}

/// What a named service has to work with, and the line that says so.
pub fn service_requirement(name: &str, connected: bool, owned: bool, model_available: bool) -> (r: (
    Requirement,
    String,
))
    ensures
        r.0 == requirement(connected, owned, model_available),
        r.1@ == name@ + ": "@ + r.0.spec_text(),
{
    let kind = if connected && owned {
        Requirement::Managed
    } else if connected {
        Requirement::Local
    } else if model_available {
        Requirement::Configured
    } else {
        Requirement::Missing
    };
    let mut line = name.to_owned();
    line.append(": ");
    line.append(kind.text());
    (kind, line)
}

/// Whether the first steps are shown: nothing answers, and a model or the
/// command that runs it is missing.
pub fn is_initial_setup(chat_connected: bool, chat_model_available: bool, llama_command: &str) -> (r:
    bool)
    ensures
        r == (!chat_connected && (!chat_model_available || is_blank(llama_command@))),
{
    !chat_connected && (!chat_model_available || blank(llama_command))
}

/// The path that is shown for a model, or that there is none.
pub fn visible_path(value: &str) -> (r: String)
    ensures
        r@ == if is_blank(value@) {
            "Ningun modelo seleccionado"@
        } else {
            value@
        },
{
    if blank(value) {
        "Ningun modelo seleccionado".to_owned()
    } else {
        value.to_owned()
    }
}

} // verus!
