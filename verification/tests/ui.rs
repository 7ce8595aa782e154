use kuznor::models::{Chat, Profile, Score, Source};
use kuznor::ui::chat::{
    basis, composer_action, composer_height, pending_label, source_label, source_matches_library,
    speaker, visible_sources, ComposerAction, COMPOSER_MAX_HEIGHT, COMPOSER_MIN_HEIGHT,
};
use kuznor::ui::code::{
    compact_path, file_depth, file_label, offers_reindexing, project_label, project_status_label,
    QuickAction,
};
use kuznor::code::types::CodeProject;
use kuznor::ui::libraries::can_add_document;
use kuznor::ui::markdown::{
    code_spans, code_title, inline_spans, is_table_separator, linked_line, markdown_blocks,
    numbered_item, table_cells, Block, LinkedLine, Shade, Style,
};
use kuznor::ui::settings::{is_initial_setup, service_requirement, visible_path, Requirement};
use kuznor::ui::sidebar::visible_chats;

fn source(library_id: i64) -> Source {
    Source {
        library_id,
        project_id: 0,
        file_id: 0,
        document_id: 1,
        chunk_id: 1,
        score: Score { bits: 0, three: "0.900".to_string(), four: "0.9000".to_string() },
        document_name: "a.pdf".to_string(),
        chunk_index: 4,
        page_number: None,
        preview: String::new(),
        relative_path: String::new(),
        line_start: None,
        line_end: None,
    }
}

#[test]
fn quick_actions_are_structured_selected_file_requests() {
    for action in [
        QuickAction::Explain,
        QuickAction::FindErrors,
        QuickAction::ReviewLogic,
        QuickAction::SuggestImprovements,
        QuickAction::Refactor,
        QuickAction::Summarize,
    ] {
        assert!(action.prompt().contains("archivo seleccionado"));
    }
}

#[test]
fn long_project_and_file_labels_are_bounded() {
    let label = compact_path(
        "una_ruta_de_proyecto_extremadamente_larga/configuracion_principal.toml",
        24,
    );
    assert!(label.chars().count() <= 24);
    assert!(label.starts_with(".../"));
    assert!(label.ends_with("principal.toml"));
}

#[test]
fn project_labels_say_the_status() {
    let project = CodeProject {
        id: 1,
        name: "kuznor".to_string(),
        root_path: "/kuznor".to_string(),
        status: "indexing".to_string(),
        last_opened: String::new(),
    };
    assert_eq!(project_label(&project), "kuznor [indexando]");
    assert!(offers_reindexing(&project, false));
    assert!(!offers_reindexing(&project, true));
    assert_eq!(project_status_label("ready"), "listo");
    assert_eq!(project_status_label("failed"), "fallido");
    assert_eq!(project_status_label("raro"), "raro");
    assert_eq!(file_depth("a/b/c.rs"), 2);
    assert_eq!(file_depth("1/2/3/4/5/6/7/8.rs"), 6);
    assert_eq!(file_label("a/b/c.rs"), "c.rs");
    assert_eq!(compact_path("abcdef", 3), ".../");
    assert_eq!(compact_path("abc", 3), "abc");
}

#[test]
fn historical_sources_are_not_presented_as_current_in_another_library() {
    assert!(source_matches_library(10, Some(10)));
    assert!(!source_matches_library(10, Some(20)));
    assert!(source_matches_library(10, None));
}

#[test]
fn only_sources_of_the_scope_are_shown() {
    let sources = vec![source(1), source(2), source(1)];
    assert_eq!(visible_sources(&sources, Some(1)).len(), 2);
    assert_eq!(visible_sources(&sources, None), sources);
    assert!(visible_sources(&sources, Some(3)).is_empty());
    assert_eq!(basis(&sources), Some("Basada en documentos"));
    let code = Source { relative_path: "a.rs".to_string(), ..source(0) };
    assert_eq!(basis(&vec![source(0), code]), Some("Basada en codigo"));
    assert_eq!(basis(&vec![]), None);
}

#[test]
fn a_source_is_named_by_lines_page_or_piece() {
    assert_eq!(source_label(&source(1), false), "a.pdf - fragmento 5");
    let paged = Source { page_number: Some(3), ..source(1) };
    assert_eq!(source_label(&paged, true), "a.pdf - pagina 3 (score 0.900)");
    let lined = Source { line_start: Some(2), line_end: Some(9), ..paged };
    assert_eq!(source_label(&lined, false), "a.pdf - lineas 2-9");
    assert_eq!(speaker("assistant"), "ASISTENTE");
    assert_eq!(speaker("user"), "TU");
    assert_eq!(pending_label(&None, ""), "Pensando...");
    assert_eq!(pending_label(&None, "a"), "Generando...");
    assert_eq!(pending_label(&Some("Sintetizando...".to_string()), "a"), "Sintetizando...");
}

#[test]
fn composer_height_tracks_current_content_with_a_hard_cap() {
    let one_line = composer_height("hola");
    let five_lines = composer_height("1\n2\n3\n4\n5");
    let fifty_lines = composer_height(&vec!["linea"; 50].join("\n"));
    let cleared = composer_height("");

    assert_eq!(one_line, COMPOSER_MIN_HEIGHT);
    assert!(five_lines > COMPOSER_MIN_HEIGHT);
    assert!(five_lines < COMPOSER_MAX_HEIGHT);
    assert_eq!(five_lines, 110);
    assert_eq!(fifty_lines, COMPOSER_MAX_HEIGHT);
    assert_eq!(cleared, COMPOSER_MIN_HEIGHT);
}

#[test]
fn the_composer_sends_or_stops() {
    assert_eq!(composer_action(false, true, true, false, false), ComposerAction { send: true, stop: false });
    assert_eq!(composer_action(false, true, true, true, false), ComposerAction::default());
    assert_eq!(composer_action(true, true, true, false, true), ComposerAction { send: false, stop: true });
    assert_eq!(composer_action(false, false, true, false, true), ComposerAction { send: true, stop: false });
}

#[test]
fn arithmetic_asterisk_is_preserved_as_literal_text() {
    let spans = inline_spans("$100 * 0.25");
    let text: String = spans.iter().map(|span| span.text.as_str()).collect();
    assert_eq!(text, "$100 * 0.25");
    assert!(spans.iter().all(|span| span.style == Style::Normal));
}

#[test]
fn marks_give_styles() {
    let spans = inline_spans("a **b** `c` *d* *e");
    let found: Vec<(Style, &str)> = spans.iter().map(|s| (s.style, s.text.as_str())).collect();
    assert_eq!(
        found,
        [
            (Style::Normal, "a "),
            (Style::Strong, "b"),
            (Style::Normal, " "),
            (Style::Code, "c"),
            (Style::Normal, " "),
            (Style::Italic, "d"),
            (Style::Normal, " "),
            (Style::Normal, "*e"),
        ]
    );
    assert!(inline_spans("").is_empty());
}

#[test]
fn a_link_is_taken_apart() {
    assert_eq!(
        linked_line("ver [aqui](http://a) ya"),
        LinkedLine::Link {
            before: "ver ".to_string(),
            label: "aqui".to_string(),
            address: "http://a".to_string(),
            after: " ya".to_string(),
        }
    );
    assert_eq!(linked_line("ver [aqui] ya"), LinkedLine::Plain("ver [aqui] ya".to_string()));
}

#[test]
fn an_answer_is_taken_apart() {
    let text = "# Uno\n## Dos\n### Tres\n> cita\n- punto\n* otro\n1. primero\n\ntexto\n```rust\nfn a() {}\n```\n| A | B |\n|---|:-:|\n| 1 | 2 |\nfin";
    let blocks = markdown_blocks(text);
    let line = |s: &str| s.to_string();
    assert_eq!(
        blocks,
        [
            Block::Heading { level: 1, text: line("Uno") },
            Block::Heading { level: 2, text: line("Dos") },
            Block::Heading { level: 3, text: line("Tres") },
            Block::Quote(line("cita")),
            Block::Bullet(line("punto")),
            Block::Bullet(line("otro")),
            Block::Numbered { number: line("1"), text: line("primero") },
            Block::Space,
            Block::Line(line("texto")),
            Block::Code { language: line("rust"), code: line("fn a() {}\n"), index: 11 },
            Block::Table {
                headers: vec![line("A"), line("B")],
                rows: vec![vec![line("1"), line("2")]],
                index: 15,
            },
            Block::Line(line("fin")),
        ]
    );
    assert_eq!(
        markdown_blocks("```\nabierto"),
        [Block::Code { language: String::new(), code: line("abierto\n"), index: 2 }]
    );
}

#[test]
fn tables_and_lists_are_recognized() {
    assert_eq!(table_cells("| a | b |"), ["a", "b"]);
    assert!(is_table_separator("|---|---|"));
    assert!(is_table_separator(":--- | ---:"));
    assert!(!is_table_separator("texto"));
    assert!(!is_table_separator("   "));
    assert_eq!(numbered_item("12. doce"), Some(("12".to_string(), "doce".to_string())));
    assert_eq!(numbered_item("a. doce"), None);
}

#[test]
fn source_code_is_shaded() {
    let spans = code_spans("let a = \"b\";", "rust");
    let text: String = spans.iter().map(|s| s.text.as_str()).collect();
    assert_eq!(text, "let a = \"b\";");
    assert_eq!(spans[0].shade, Shade::Keyword);
    assert!(spans.iter().any(|s| s.shade == Shade::Quoted));
    assert_eq!(code_spans("  // nota", "rust")[0].shade, Shade::Comment);
    assert_eq!(code_spans("select x", "SQL")[0].shade, Shade::Keyword);
    assert_eq!(code_spans("def f", "python")[0].shade, Shade::Keyword);
    assert_eq!(code_spans("def f", "rust")[0].shade, Shade::Plain);
    assert_eq!(code_title("rust"), "RUST");
    assert_eq!(code_title(""), "CODIGO");
}

#[test]
fn the_side_bar_finds_chats_by_title() {
    let chat = |id: i64, title: &str| Chat {
        id,
        title: title.to_string(),
        profile: Profile::General,
        library_id: None,
        created_at: String::new(),
        updated_at: String::new(),
    };
    let chats = vec![chat(1, "Consulta SQL"), chat(2, "Viajes"), chat(3, "más sql")];
    assert_eq!(visible_chats(&chats, " sql "), [0, 2]);
    assert_eq!(visible_chats(&chats, "  "), [0, 1, 2]);
    assert!(visible_chats(&chats, "nada").is_empty());
}

#[test]
fn settings_say_what_a_service_has() {
    assert_eq!(
        service_requirement("IA principal", true, true, true),
        (Requirement::Managed, "IA principal: servidor administrado conectado".to_string())
    );
    assert_eq!(service_requirement("x", true, false, false).0, Requirement::Local);
    assert_eq!(service_requirement("x", false, true, true).0, Requirement::Configured);
    assert_eq!(
        service_requirement("x", false, false, false).1,
        "x: sin servidor accesible ni modelo local"
    );
    assert!(is_initial_setup(false, false, "llama"));
    assert!(is_initial_setup(false, true, "  "));
    assert!(!is_initial_setup(true, false, ""));
    assert_eq!(visible_path(" "), "Ningun modelo seleccionado");
    assert_eq!(visible_path("a.gguf"), "a.gguf");
    assert!(can_add_document(Some(1), false));
    assert!(!can_add_document(None, false));
}
