//! The records that the application keeps, and their mathematical views.

use vstd::prelude::*;

use crate::text::same;

verus! {

/// The text of an optional string.
pub open spec fn opt_text(o: Option<String>) -> Option<Seq<char>> {
    match o {
        Some(s) => Some(s@),
        None => None,
    }
}

/// A copy of an optional string.
pub fn copy_opt_text(o: &Option<String>) -> (r: Option<String>)
    ensures
        opt_text(r) == opt_text(*o),
{
    match o {
        Some(s) => Some(s.clone()),
        None => None,
    }
}

/// A relevance score: the bits of an IEEE 754 single-precision number, and the
/// number written with three and with four decimals.
#[derive(Debug, PartialEq, Eq)]
pub struct Score {
    pub bits: u32,
    pub three: String,
    pub four: String,
}

/// What a `Score` holds.
pub struct ScoreView {
    pub bits: u32,
    pub three: Seq<char>,
    pub four: Seq<char>,
}

impl View for Score {
    type V = ScoreView;

    open spec fn view(&self) -> ScoreView {
        ScoreView { bits: self.bits, three: self.three@, four: self.four@ }
    }
}

/// The bits of the smallest score that counts as relevant, 0.20.
pub const MIN_RELEVANCE_BITS: u32 = 0x3e4c_cccd;

/// The bits of the number one.
pub const ONE_BITS: u32 = 0x3f80_0000;

/// The place of a single-precision number in the IEEE 754 total order.
pub open spec fn total_order(bits: u32) -> int {
    if bits < 0x8000_0000 {
        bits as int
    } else {
        0x7fff_ffff - bits
    }
}

/// The bits do not stand for a number.
pub open spec fn is_nan(bits: u32) -> bool {
    0x7f80_0000 < bits < 0x8000_0000 || 0xff80_0000 < bits
}

/// The score is a number that is at least the smallest relevant one.
pub open spec fn is_relevant(bits: u32) -> bool {
    !is_nan(bits) && total_order(bits) >= total_order(MIN_RELEVANCE_BITS)
}

/// Scores are ordered as numbers are: among positive ones the greater bits are greater,
/// among negative ones the smaller bits are, and every negative one is below every
/// positive one.
pub proof fn law_scores_are_ordered(a: u32, b: u32)
    ensures
        a < 0x8000_0000 && b < 0x8000_0000 ==> (total_order(a) < total_order(b) <==> a < b),
        a >= 0x8000_0000 && b >= 0x8000_0000 ==> (total_order(a) < total_order(b) <==> a > b),
        a >= 0x8000_0000 && b < 0x8000_0000 ==> total_order(a) < total_order(b),
        is_relevant(a) <==> 0x3e4c_cccd <= a <= 0x7f80_0000,
{
}

impl ScoreView {
    /// The score of a literal match.
    pub open spec fn one() -> ScoreView {
        ScoreView { bits: ONE_BITS, three: "1.000"@, four: "1.0000"@ }
    }
}

impl Score {
    /// The score of a literal match.
    pub fn one() -> (r: Score)
        ensures
            r@ == ScoreView::one(),
    {
        Score { bits: ONE_BITS, three: "1.000".to_owned(), four: "1.0000".to_owned() }
    }

    /// The place of the score in the IEEE 754 total order.
    pub fn order(&self) -> (r: i64)
        ensures
            r == total_order(self.bits),
    {
        if self.bits < 0x8000_0000 {
            self.bits as i64
        } else {
            0x7fff_ffff - self.bits as i64
        }
    }

    /// Whether the score reaches the smallest relevant one.
    pub fn relevant(&self) -> (r: bool)
        ensures
            r == is_relevant(self.bits),
    {
        let nan = (0x7f80_0000 < self.bits && self.bits < 0x8000_0000) || 0xff80_0000 < self.bits;
        !nan && self.order() >= MIN_RELEVANCE_BITS as i64
    }
}

impl Clone for Score {
    fn clone(&self) -> (r: Score)
        ensures
            r@ == self@,
    {
        Score { bits: self.bits, three: self.three.clone(), four: self.four.clone() }
    }
}

/// The role that a chat plays.
#[derive(Debug, Clone, Copy, PartialEq, Eq, Structural)]
pub enum Profile {
    General,
    Programming,
    Business,
    Study,
    Documentation,
    Code,
}

impl Profile {
    /// The profiles that can be chosen.
    pub const ALL: [Profile; 3] = [Profile::General, Profile::Documentation, Profile::Code];

    pub open spec fn spec_label(self) -> Seq<char> {
        match self {
            Profile::General => "General"@,
            Profile::Programming => "Programacion"@,
            Profile::Business => "Negocios"@,
            Profile::Study => "Estudio"@,
            Profile::Documentation => "Documentos"@,
            Profile::Code => "Codigo"@,
        }
    }

    /// The name under which the profile is shown and stored.
    pub fn label(self) -> (r: &'static str)
        ensures
            r@ == self.spec_label(),
    {
        match self {
            Profile::General => "General",
            Profile::Programming => "Programacion",
            Profile::Business => "Negocios",
            Profile::Study => "Estudio",
            Profile::Documentation => "Documentos",
            Profile::Code => "Codigo",
        }
    }

    /// The name under which the profile is shown and stored.
    pub fn display(&self) -> (r: String)
        ensures
            r@ == self.spec_label(),
    {
        self.label().to_owned()
    }

    pub open spec fn spec_system_prompt(self) -> Seq<char> {
        match self {
            Profile::General => {
                "Eres Kuznor, un asistente de IA local desarrollado por Inference Lab. Kuznor es la aplicacion y la identidad del asistente; el modelo GGUF subyacente es un motor local elegido por el usuario y puede cambiar. Si preguntan tu nombre o que es Kuznor, responde como Kuznor y no inventes otros significados. Inference Lab desarrollo Kuznor, pero no afirmes que entreno el modelo subyacente. Si preguntan que modelo se usa, no inventes su nombre: menciona solo metadata real proporcionada por la aplicacion o explica que es el modelo local configurado por el usuario. Esto define identidad, no altera el contenido, opiniones o estilo normal del modelo. Responde en el idioma del usuario."@
            },
            Profile::Programming => {
                "Eres un asistente de programacion. Ayuda con debugging, errores, revision, refactor, buenas practicas y APIs. Explica el razonamiento y usa ejemplos pequenos. Nunca afirmes haber ejecutado codigo."@
            },
            Profile::Business => {
                "Eres un asistente de negocios practico y analitico. Ayuda a estructurar ideas, comparar opciones, resumir riesgos y proponer siguientes pasos claros. No inventes cifras ni fuentes."@
            },
            Profile::Study => {
                "Eres un tutor paciente y riguroso. Explica conceptos paso a paso, adapta la profundidad a la pregunta y utiliza ejemplos y preguntas de comprobacion cuando aporten valor."@
            },
            Profile::Documentation => {
                "Estas en modo Solo documentos. Responde exclusivamente con evidencia del contexto documental recuperado. Si no contiene evidencia suficiente, indicalo claramente y no aportes conocimiento externo."@
            },
            Profile::Code => {
                "Eres un asistente de analisis de codigo en modo solo lectura. Explica, revisa y propone cambios sin afirmar que ejecutaste, compilaste, probaste o modificaste archivos."@
            },
        }
    }

    /// The instruction that opens a conversation under this profile.
    pub fn system_prompt(self) -> (r: &'static str)
        ensures
            r@ == self.spec_system_prompt(),
    {
        match self {
            Profile::General => {
                "Eres Kuznor, un asistente de IA local desarrollado por Inference Lab. Kuznor es la aplicacion y la identidad del asistente; el modelo GGUF subyacente es un motor local elegido por el usuario y puede cambiar. Si preguntan tu nombre o que es Kuznor, responde como Kuznor y no inventes otros significados. Inference Lab desarrollo Kuznor, pero no afirmes que entreno el modelo subyacente. Si preguntan que modelo se usa, no inventes su nombre: menciona solo metadata real proporcionada por la aplicacion o explica que es el modelo local configurado por el usuario. Esto define identidad, no altera el contenido, opiniones o estilo normal del modelo. Responde en el idioma del usuario."
            },
            Profile::Programming => {
                "Eres un asistente de programacion. Ayuda con debugging, errores, revision, refactor, buenas practicas y APIs. Explica el razonamiento y usa ejemplos pequenos. Nunca afirmes haber ejecutado codigo."
            },
            Profile::Business => {
                "Eres un asistente de negocios practico y analitico. Ayuda a estructurar ideas, comparar opciones, resumir riesgos y proponer siguientes pasos claros. No inventes cifras ni fuentes."
            },
            Profile::Study => {
                "Eres un tutor paciente y riguroso. Explica conceptos paso a paso, adapta la profundidad a la pregunta y utiliza ejemplos y preguntas de comprobacion cuando aporten valor."
            },
            Profile::Documentation => {
                "Estas en modo Solo documentos. Responde exclusivamente con evidencia del contexto documental recuperado. Si no contiene evidencia suficiente, indicalo claramente y no aportes conocimiento externo."
            },
            Profile::Code => {
                "Eres un asistente de analisis de codigo en modo solo lectura. Explica, revisa y propone cambios sin afirmar que ejecutaste, compilaste, probaste o modificaste archivos."
            },
        }
    }

    /// The profile that a stored name stands for; unknown names mean `General`.
    pub open spec fn parsed(value: Seq<char>) -> Profile {
        if value == "Programacion"@ {
            Profile::Programming
        } else if value == "Negocios"@ {
            Profile::Business
        } else if value == "Estudio"@ {
            Profile::Study
        } else if value == "Documentacion"@ || value == "Documentos"@ {
            Profile::Documentation
        } else if value == "Codigo"@ {
            Profile::Code
        } else {
            Profile::General
        }
    }

    /// The profile that a stored name stands for; unknown names mean `General`.
    pub fn from_name(value: &str) -> (r: Profile)
        ensures
            r == Profile::parsed(value@),
    {
        if same(value, "Programacion") {
            Profile::Programming
        } else if same(value, "Negocios") {
            Profile::Business
        } else if same(value, "Estudio") {
            Profile::Study
        } else if same(value, "Documentacion") || same(value, "Documentos") {
            Profile::Documentation
        } else if same(value, "Codigo") {
            Profile::Code
        } else {
            Profile::General
        }
    }
}

impl std::str::FromStr for Profile {
    type Err = ();

    fn from_str(value: &str) -> (r: Result<Profile, ()>)
        ensures
            r == Ok::<Profile, ()>(Profile::parsed(value@)),
    {
        Ok(Profile::from_name(value))
    }
}

/// Reading back the label of a profile gives the profile.
pub proof fn law_label_round_trip(p: Profile)
    ensures
        Profile::parsed(p.spec_label()) == p,
{
    reveal_strlit("General");
    reveal_strlit("Programacion");
    reveal_strlit("Negocios");
    reveal_strlit("Estudio");
    reveal_strlit("Documentacion");
    reveal_strlit("Documentos");
    reveal_strlit("Codigo");
    assert("General"@[0] == 'G');
    assert("Programacion"@[0] == 'P');
    assert("Negocios"@[0] == 'N');
    assert("Estudio"@[0] == 'E');
    assert("Documentacion"@[0] == 'D');
    assert("Documentos"@[0] == 'D');
    assert("Codigo"@[0] == 'C');
}

/// A conversation.
#[derive(Debug, PartialEq, Eq)]
pub struct Chat {
    pub id: i64,
    pub title: String,
    pub profile: Profile,
    pub library_id: Option<i64>,
    pub created_at: String,
    pub updated_at: String,
}

/// A collection of documents.
#[derive(Debug, PartialEq, Eq)]
pub struct Library {
    pub id: i64,
    pub name: String,
    pub created_at: String,
}

/// A document of a library.
#[derive(Debug, PartialEq, Eq)]
pub struct Document {
    pub id: i64,
    pub library_id: i64,
    pub name: String,
    pub original_path: String,
    pub hash: String,
    pub file_type: String,
    pub status: String,
    pub created_at: String,
    pub error: Option<String>,
}

/// A piece of a document with its embedding, each component as the bits of a
/// single-precision number.
#[derive(Debug, PartialEq, Eq)]
pub struct Chunk {
    pub id: i64,
    pub document_id: i64,
    pub document_name: String,
    pub chunk_index: usize,
    pub content: String,
    pub page_number: Option<u32>,
    pub section: Option<String>,
    pub embedding: Vec<u32>,
}

/// What a `Chunk` holds.
pub struct ChunkView {
    pub id: i64,
    pub document_id: i64,
    pub document_name: Seq<char>,
    pub chunk_index: usize,
    pub content: Seq<char>,
    pub page_number: Option<u32>,
    pub section: Option<Seq<char>>,
    pub embedding: Seq<u32>,
}

impl View for Chunk {
    type V = ChunkView;

    open spec fn view(&self) -> ChunkView {
        ChunkView {
            id: self.id,
            document_id: self.document_id,
            document_name: self.document_name@,
            chunk_index: self.chunk_index,
            content: self.content@,
            page_number: self.page_number,
            section: opt_text(self.section),
            embedding: self.embedding@,
        }
    }
}

/// A copy of a list of bit patterns.
pub fn copy_bits(v: &Vec<u32>) -> (r: Vec<u32>)
    ensures
        r@ == v@,
{
    vstd::slice::slice_to_vec(v.as_slice())
}

impl Clone for Chunk {
    fn clone(&self) -> (r: Chunk)
        ensures
            r@ == self@,
    {
        Chunk {
            id: self.id,
            document_id: self.document_id,
            document_name: self.document_name.clone(),
            chunk_index: self.chunk_index,
            content: self.content.clone(),
            page_number: self.page_number,
            section: copy_opt_text(&self.section),
            embedding: copy_bits(&self.embedding),
        }
    }
}

/// The views of a list of chunks.
pub open spec fn chunk_views(v: Seq<Chunk>) -> Seq<ChunkView> {
    v.map_values(|c: Chunk| c@)
}

/// Where an answer took a passage from.
#[derive(Debug, PartialEq, Eq)]
pub struct Source {
    pub library_id: i64,
    pub project_id: i64,
    pub file_id: i64,
    pub document_id: i64,
    pub chunk_id: i64,
    pub score: Score,
    pub document_name: String,
    pub chunk_index: usize,
    pub page_number: Option<u32>,
    pub preview: String,
    pub relative_path: String,
    pub line_start: Option<usize>,
    pub line_end: Option<usize>,
}

/// What a `Source` holds.
pub struct SourceView {
    pub library_id: i64,
    pub project_id: i64,
    pub file_id: i64,
    pub document_id: i64,
    pub chunk_id: i64,
    pub score: ScoreView,
    pub document_name: Seq<char>,
    pub chunk_index: usize,
    pub page_number: Option<u32>,
    pub preview: Seq<char>,
    pub relative_path: Seq<char>,
    pub line_start: Option<usize>,
    pub line_end: Option<usize>,
}

impl View for Source {
    type V = SourceView;

    open spec fn view(&self) -> SourceView {
        SourceView {
            library_id: self.library_id,
            project_id: self.project_id,
            file_id: self.file_id,
            document_id: self.document_id,
            chunk_id: self.chunk_id,
            score: self.score@,
            document_name: self.document_name@,
            chunk_index: self.chunk_index,
            page_number: self.page_number,
            preview: self.preview@,
            relative_path: self.relative_path@,
            line_start: self.line_start,
            line_end: self.line_end,
        }
    }
}

impl Clone for Source {
    fn clone(&self) -> (r: Source)
        ensures
            r@ == self@,
    {
        Source {
            library_id: self.library_id,
            project_id: self.project_id,
            file_id: self.file_id,
            document_id: self.document_id,
            chunk_id: self.chunk_id,
            score: self.score.clone(),
            document_name: self.document_name.clone(),
            chunk_index: self.chunk_index,
            page_number: self.page_number,
            preview: self.preview.clone(),
            relative_path: self.relative_path.clone(),
            line_start: self.line_start,
            line_end: self.line_end,
        }
    }
}

/// The views of a list of sources.
pub open spec fn source_views(v: Seq<Source>) -> Seq<SourceView> {
    v.map_values(|s: Source| s@)
}

/// A copy of a list of sources.
pub fn copy_sources(v: &Vec<Source>) -> (r: Vec<Source>)
    ensures
        source_views(r@) == source_views(v@),
{
    let mut r: Vec<Source> = Vec::new();
    let mut i: usize = 0;
    while i < v.len()
        invariant
            i <= v.len(),
            source_views(r@) == source_views(v@).take(i as int),
        decreases v.len() - i,
    {
        let ghost before = source_views(r@);
        let s = v[i].clone();
        r.push(s);
        assert(source_views(r@) =~= before.push(s@));
        assert(source_views(r@) =~= source_views(v@).take(i + 1));
        i += 1;
    }
    assert(source_views(v@).take(i as int) =~= source_views(v@));
    r
}

/// A turn of a conversation.
#[derive(Debug, PartialEq, Eq)]
pub struct Message {
    pub id: i64,
    pub chat_id: i64,
    pub role: String,
    pub content: String,
    pub sources: Vec<Source>,
    pub created_at: String,
}

/// What a `Message` holds.
pub struct MessageView {
    pub id: i64,
    pub chat_id: i64,
    pub role: Seq<char>,
    pub content: Seq<char>,
    pub sources: Seq<SourceView>,
    pub created_at: Seq<char>,
}

impl View for Message {
    type V = MessageView;

    open spec fn view(&self) -> MessageView {
        MessageView {
            id: self.id,
            chat_id: self.chat_id,
            role: self.role@,
            content: self.content@,
            sources: source_views(self.sources@),
            created_at: self.created_at@,
        }
    }
}

impl Clone for Message {
    fn clone(&self) -> (r: Message)
        ensures
            r@ == self@,
    {
        Message {
            id: self.id,
            chat_id: self.chat_id,
            role: self.role.clone(),
            content: self.content.clone(),
            sources: copy_sources(&self.sources),
            created_at: self.created_at.clone(),
        }
    }
}

/// The views of a list of messages.
pub open spec fn message_views(v: Seq<Message>) -> Seq<MessageView> {
    v.map_values(|m: Message| m@)
}

} // verus!
