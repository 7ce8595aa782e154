//! What the project panel shows and what can be asked in it.

use vstd::prelude::*;
use vstd::string::StringExecFns;
use vstd::slice::slice_subrange;

use crate::code::search::{after_last, tail_after_last};
use crate::code::types::CodeProject;
use crate::text::{chars, contains, count_matches, occurrences, occurs_at, same, string};

verus! {

/// A request about the selected file.
#[derive(Debug, Clone, Copy, PartialEq, Eq, Structural)]
pub enum QuickAction {
    Explain,
    FindErrors,
    ReviewLogic,
    SuggestImprovements,
    Refactor,
    Summarize,
}

/// A request made in the project panel.
#[derive(Debug, Clone, Copy, PartialEq, Eq, Structural)]
pub enum CodeAction {
    OpenFile,
    OpenFolder,
    CancelIndexing,
    SelectProject(i64),
    ReindexProject(i64),
    RemoveProject(i64),
    SelectFile(i64),
    QuickPrompt(QuickAction),
}

impl QuickAction {
    pub open spec fn spec_prompt(self) -> Seq<char> {
        match self {
            QuickAction::Explain => "Explica que hace el archivo seleccionado."@,
            QuickAction::FindErrors => "Busca posibles errores logicos en el archivo seleccionado."@,
            QuickAction::ReviewLogic => "Revisa la logica del archivo seleccionado y senala riesgos."@,
            QuickAction::SuggestImprovements =>
                "Sugiere mejoras concretas para el archivo seleccionado."@,
            QuickAction::Refactor =>
                "Propone una version refactorizada del archivo seleccionado, lista para copiar manualmente."@,
            QuickAction::Summarize => "Resume el archivo seleccionado."@,
        }
    }

    /// The question that the request stands for.
    pub fn prompt(self) -> (r: &'static str)
        ensures
            r@ == self.spec_prompt(),
    {
        match self {
            QuickAction::Explain => "Explica que hace el archivo seleccionado.",
            QuickAction::FindErrors => "Busca posibles errores logicos en el archivo seleccionado.",
            QuickAction::ReviewLogic => "Revisa la logica del archivo seleccionado y senala riesgos.",
            QuickAction::SuggestImprovements =>
                "Sugiere mejoras concretas para el archivo seleccionado.",
            QuickAction::Refactor =>
                "Propone una version refactorizada del archivo seleccionado, lista para copiar manualmente.",
            QuickAction::Summarize => "Resume el archivo seleccionado.",
        }
    }
}

/// Every request asks about the selected file.
pub proof fn law_quick_actions_name_the_file(action: QuickAction)
    ensures
        contains(action.spec_prompt(), "archivo seleccionado"@),
{
    let prompt = action.spec_prompt();
    let name = "archivo seleccionado"@;
    reveal_strlit("archivo seleccionado");
    match action {
        QuickAction::Explain => {
            reveal_strlit("Explica que hace el archivo seleccionado.");
            assert(prompt.subrange(20, 40) =~= name);
            assert(occurs_at(prompt, name, 20));
        },
        QuickAction::FindErrors => {
            reveal_strlit("Busca posibles errores logicos en el archivo seleccionado.");
            assert(prompt.subrange(37, 57) =~= name);
            assert(occurs_at(prompt, name, 37));
        },
        QuickAction::ReviewLogic => {
            reveal_strlit("Revisa la logica del archivo seleccionado y senala riesgos.");
            assert(prompt.subrange(21, 41) =~= name);
            assert(occurs_at(prompt, name, 21));
        },
        QuickAction::SuggestImprovements => {
            reveal_strlit("Sugiere mejoras concretas para el archivo seleccionado.");
            assert(prompt.subrange(34, 54) =~= name);
            assert(occurs_at(prompt, name, 34));
        },
        QuickAction::Refactor => {
            reveal_strlit("Propone una version refactorizada del archivo seleccionado, lista para copiar manualmente.");
            assert(prompt.subrange(38, 58) =~= name);
            assert(occurs_at(prompt, name, 38));
        },
        QuickAction::Summarize => {
            reveal_strlit("Resume el archivo seleccionado.");
            assert(prompt.subrange(10, 30) =~= name);
            assert(occurs_at(prompt, name, 10));
        },
    }
}

/// A text, shortened at its start where it has more than `max` characters.
pub open spec fn compact(value: Seq<char>, max: nat) -> Seq<char> {
    if value.len() <= max {
        value
    } else {
        let kept: int = if max < 4 {
            0
        } else {
            max - 4
        };
        ".../"@ + value.skip(value.len() - kept)
    }
}

/// Shortens a text to its end.
pub fn compact_path(value: &str, max_chars: usize) -> (r: String)
    ensures
        r@ == compact(value@, max_chars as nat),
{
    let c = chars(value);
    if c.len() <= max_chars {
        return value.to_owned();
    }
    let kept = if max_chars < 4 {
        0
    } else {
        max_chars - 4
    };
    let tail = string(slice_subrange(&c, c.len() - kept, c.len()));
    let mut r = ".../".to_owned();
    r.append(tail.as_str());
    assert(value@.subrange(value@.len() - kept, value@.len() as int) =~= value@.skip(
        value@.len() - kept,
    ));
    r
}

/// A shortened text has at most as many characters as asked for, and its end is
/// the end of the text.
pub proof fn law_labels_are_bounded(value: Seq<char>, max: nat)
    requires
        max >= 4,
    ensures
        compact(value, max).len() <= max,
        value.len() > max ==> ".../"@.is_prefix_of(compact(value, max)) && compact(value, max).skip(
            4,
        ) == value.skip(value.len() - (max - 4)),
{
    reveal_strlit(".../");
    if value.len() > max {
        assert(compact(value, max).skip(4) =~= value.skip(value.len() - (max - 4)));
    }
}

/// The word shown for the stored status of a project.
pub open spec fn status_label(status: Seq<char>) -> Seq<char> {
    if status == "ready"@ || status == "listo"@ {
        "listo"@
    } else if status == "indexing"@ || status == "escaneando"@ {
        "indexando"@
    } else if status == "cancelled"@ {
        "cancelado"@
    } else if status == "failed"@ {
        "fallido"@
    } else if status == "incomplete"@ {
        "incompleto"@
    } else {
        status
    }
}

/// The word shown for the stored status of a project.
pub fn project_status_label(status: &str) -> (r: String)
    ensures
        r@ == status_label(status@),
{
    if same(status, "ready") || same(status, "listo") {
        "listo".to_owned()
    } else if same(status, "indexing") || same(status, "escaneando") {
        "indexando".to_owned()
    } else if same(status, "cancelled") {
        "cancelado".to_owned()
    } else if same(status, "failed") {
        "fallido".to_owned()
    } else if same(status, "incomplete") {
        "incompleto".to_owned()
    } else {
        status.to_owned()
    }
}

/// The project is ready by its stored status.
pub open spec fn is_ready(status: Seq<char>) -> bool {
    status == "ready"@ || status == "listo"@
}

/// Whether a stored status is that of a ready project.
pub fn status_is_ready(status: &str) -> (r: bool)
    ensures
        r == is_ready(status@),
{
    same(status, "ready") || same(status, "listo")
}

/// The label of a project in the list of projects.
pub fn project_label(project: &CodeProject) -> (r: String)
    ensures
        r@ == compact(project.name@, 20) + " ["@ + status_label(project.status@) + "]"@,
{
    let mut r = compact_path(project.name.as_str(), 20);
    r.append(" [");
    r.append(project_status_label(project.status.as_str()).as_str());
    r.append("]");
    r
}

/// Whether the panel offers to index the project anew.
pub fn offers_reindexing(project: &CodeProject, indexing: bool) -> (r: bool)
    ensures
        r == (!is_ready(project.status@) && !indexing),
{
    !status_is_ready(project.status.as_str()) && !indexing
}

/// How deep a file is drawn: the folders in its path, six at most.
pub fn file_depth(relative_path: &str) -> (r: usize)
    ensures
        r as int == if occurrences(relative_path@, "/"@) < 6 {
            occurrences(relative_path@, "/"@) as int
        } else {
            6
        },
{
    proof {
        reveal_strlit("/");
    }
    let depth = count_matches(relative_path, "/");
    if depth < 6 {
        depth
    } else {
        6
    }
}

/// The label of a file: its name, shortened.
pub fn file_label(relative_path: &str) -> (r: String)
    ensures
        r@ == compact(after_last(relative_path@, '/'), 34),
{
    compact_path(tail_after_last(relative_path, '/').as_str(), 34)
}

} // verus!
