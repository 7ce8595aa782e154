use std::collections::HashSet;

use kuznor::ai::overview::{
    document_overview_analysis_prompt, library_overview_synthesis_prompt,
    render_structured_library_overview, validate_overview_analysis,
};
use kuznor::ai::prompts::{
    document_history_without_evidence, document_intent, document_meta_prompt,
    general_system_prompt, general_system_prompt_for, prompt_diagnostic,
    rag_library_overview_prompt, rag_system_prompt, rag_system_prompt_with_documents,
    DocumentIntent, OVERVIEW_ANALYSIS_MAX_TOKENS, OVERVIEW_SYNTHESIS_MAX_TOKENS,
};
use kuznor::ai::conversation::ApiMessage;
use kuznor::ai::sanitize::sanitize_document_output;
use kuznor::models::{Chunk, Message, Profile, Score, Source};
use kuznor::rag::search::{DocumentOverviewInput, ScoredChunk};

fn score(value: f32) -> Score {
    Score { bits: value.to_bits(), three: format!("{value:.3}"), four: format!("{value:.4}") }
}

fn message(id: i64, role: &str, content: &str, sources: Vec<Source>) -> Message {
    Message {
        id,
        chat_id: 1,
        role: role.to_string(),
        content: content.to_string(),
        sources,
        created_at: String::new(),
    }
}

#[test]
fn general_identity_is_kuznor_and_model_metadata_never_replaces_it() {
    let known = general_system_prompt("C:/models/gemma-3-4b.gguf");
    assert!(known.contains("Eres Kuznor"));
    assert!(known.contains("Inference Lab desarrollo Kuznor"));
    assert!(known.contains("no afirmes que entreno el modelo subyacente"));
    assert!(known.contains("gemma-3-4b.gguf"));
    assert!(known.contains("motor subyacente"));
    assert!(!known.contains("marca de ropa"));

    let unknown = general_system_prompt("");
    assert!(unknown.contains("no lo inventes"));
    assert!(unknown.contains("Kuznor"));
}

#[test]
fn documentary_history_removes_prior_rag_evidence_but_keeps_meta_as_history() {
    let prior_source = Source {
        library_id: 1,
        project_id: 0,
        file_id: 0,
        document_id: 10,
        chunk_id: 100,
        score: score(0.9),
        document_name: "sql.pdf".to_string(),
        chunk_index: 0,
        page_number: Some(1),
        preview: "SELECT WHERE primary keys".to_string(),
        relative_path: String::new(),
        line_start: None,
        line_end: None,
    };
    let history = vec![
        message(1, "user", "Explica primary keys y SQL", vec![]),
        message(
            2,
            "assistant",
            "SQL usa SELECT y WHERE para consultar primary keys",
            vec![prior_source],
        ),
        message(3, "user", "Hola", vec![]),
        message(4, "assistant", "Soy Kuznor en Documentos", vec![]),
    ];

    let sanitized = document_history_without_evidence(&history);
    let text = sanitized
        .iter()
        .map(|message| message.content.as_str())
        .collect::<Vec<_>>()
        .join("\n");
    assert!(!text.contains("primary keys"));
    assert!(!text.contains("SELECT"));
    assert!(text.contains("Respuesta documental anterior omitida"));
    assert!(text.contains("HISTORIAL CONVERSACIONAL"));
    assert!(text.contains("Soy Kuznor en Documentos"));
    assert!(sanitized.iter().all(|message| message.sources.is_empty()));
}

#[test]
fn document_meta_messages_skip_rag() {
    assert_eq!(document_intent("Hola"), DocumentIntent::Meta);
    assert_eq!(document_intent("¿Qué sabes hacer?"), DocumentIntent::Meta);
    assert_eq!(document_intent("¿Cómo funcionas?"), DocumentIntent::Meta);
    assert_eq!(document_intent("Gracias"), DocumentIntent::Meta);
    assert_eq!(
        document_intent("Hola, \u{00bf}qu\u{00e9} sabes hacer?"),
        DocumentIntent::Meta
    );
    assert_eq!(
        document_intent("\u{00bf}C\u{00f3}mo funciona este modo?"),
        DocumentIntent::Meta
    );
    assert_eq!(
        document_intent("\u{00bf}Qu\u{00e9} puedo preguntarte?"),
        DocumentIntent::Meta
    );
    assert_eq!(
        document_intent("\u{00bf}C\u{00f3}mo uso Documentos?"),
        DocumentIntent::Meta
    );
    assert_eq!(
        document_intent("Que puedo hacer aqui"),
        DocumentIntent::Meta
    );
    assert_eq!(
        document_intent("Como funciona Documentos"),
        DocumentIntent::Meta
    );
    assert_eq!(document_intent("Como uso este modo"), DocumentIntent::Meta);
    let prompt = document_meta_prompt();
    assert!(prompt.contains("modo Documentos de Kuznor"));
    assert!(prompt.contains("documentos locales"));
    assert!(!prompt.contains("Google"));
    assert!(prompt.contains("no otro producto"));
}

#[test]
fn document_questions_keep_document_rag() {
    assert_eq!(
        document_intent("¿Qué contiene el PDF de INEGI?"),
        DocumentIntent::DocumentQuery
    );
    assert_eq!(
        document_intent("Compara los dos documentos"),
        DocumentIntent::DocumentQuery
    );
    assert_eq!(
        document_intent("Analiza los archivos que tienes"),
        DocumentIntent::LibraryOverview
    );
    assert_eq!(
        document_intent("Compara los 3 archivos"),
        DocumentIntent::LibraryOverview
    );
    assert_eq!(
        document_intent("Resume en 4 puntos los temas principales de esta biblioteca"),
        DocumentIntent::LibraryOverview
    );
    assert_eq!(
        document_intent("Analiza los documentos de aqui"),
        DocumentIntent::LibraryOverview
    );
    assert_eq!(
        document_intent("¿Que documentos de esta biblioteca hablan de SQL?"),
        DocumentIntent::DocumentQuery
    );
}

#[test]
fn library_overview_contains_exactly_the_real_sqlite_filenames() {
    let documents: Vec<(i64, String)> = vec![
        (1, "ventas.pdf".to_string()),
        (2, "examen.pdf".to_string()),
        (3, "cotizacion.pdf".to_string()),
    ];
    let chunks = documents
        .iter()
        .enumerate()
        .map(|(index, (document_id, name))| ScoredChunk {
            chunk: Chunk {
                id: index as i64 + 1,
                document_id: *document_id,
                document_name: name.clone(),
                chunk_index: 0,
                content: format!("contenido de {name}"),
                page_number: Some(1),
                section: None,
                embedding: vec![],
            },
            score: score(1.0),
        })
        .collect::<Vec<_>>();
    let (prompt, _) = rag_library_overview_prompt(&chunks, &documents);
    for (_, name) in &documents {
        assert!(prompt.contains(name));
    }
    assert!(!prompt.contains("Notas_proyecto.pdf"));
    assert_eq!(prompt.matches("DOCUMENTO A:").count(), 1);
    assert_eq!(prompt.matches("DOCUMENTO B:").count(), 1);
    assert_eq!(prompt.matches("DOCUMENTO C:").count(), 1);
    assert!(!prompt.contains("DOCUMENTO D:"));
    assert!(prompt.contains("Hay exactamente 3 documentos reales"));
}

#[test]
fn overview_keeps_many_pages_under_exactly_three_document_groups() {
    let documents: Vec<(i64, String)> = vec![
        (1, "A.pdf".to_string()),
        (2, "B.pdf".to_string()),
        (3, "C.pdf".to_string()),
    ];
    let chunks = [(1_i64, 5_i64), (2, 2), (3, 10)]
        .into_iter()
        .flat_map(|(document_id, pages)| {
            (1..=pages).map(move |page| ScoredChunk {
                chunk: Chunk {
                    id: document_id * 100 + page,
                    document_id,
                    document_name: format!("{}.pdf", (b'A' + document_id as u8 - 1) as char),
                    chunk_index: page as usize - 1,
                    content: format!("contenido pagina {page}"),
                    page_number: Some(page as u32),
                    section: None,
                    embedding: vec![],
                },
                score: score(1.0),
            })
        })
        .collect::<Vec<_>>();

    let (prompt, sources) = rag_library_overview_prompt(&chunks, &documents);

    assert_eq!(prompt.matches("DOCUMENTO A:").count(), 1);
    assert_eq!(prompt.matches("DOCUMENTO B:").count(), 1);
    assert_eq!(prompt.matches("DOCUMENTO C:").count(), 1);
    assert!(!prompt.contains("DOCUMENTO D:"));
    assert_eq!(
        sources
            .iter()
            .map(|source| source.document_id)
            .collect::<HashSet<_>>(),
        [1, 2, 3].into_iter().collect()
    );
}

#[test]
fn overview_output_contains_only_final_synthesis() {
    let analyses = vec![
        (1, "A.pdf".to_string(), "Analisis A".to_string()),
        (2, "B.pdf".to_string(), "Analisis B".to_string()),
        (3, "C.pdf".to_string(), "Analisis C".to_string()),
    ];
    let output = render_structured_library_overview(
        &analyses,
        "| Archivo | Objetivo |\n|---|---|\n| A.pdf | A |\n| B.pdf | B |\n| C.pdf | C |",
        "Compara los documentos en una tabla",
    );
    assert_eq!(output.matches("A.pdf").count(), 1);
    assert_eq!(output.matches("B.pdf").count(), 1);
    assert_eq!(output.matches("C.pdf").count(), 1);
    assert!(!output.contains("Analisis A"));
    assert!(!output.contains("Sintesis global"));
}

#[test]
fn malformed_overview_synthesis_falls_back_to_exactly_one_row_per_document() {
    let analyses = vec![
        (
            1,
            "A.pdf".to_string(),
            "OBJETIVO: Objetivo A [chunk_id=1]\nTIPO: Informe [chunk_id=1]\nPUBLICO: SIN EVIDENCIA SUFICIENTE\nDATO 1: Dato A [chunk_id=1]\nDATO 2: SIN EVIDENCIA SUFICIENTE\nDATO 3: SIN EVIDENCIA SUFICIENTE\nINCERTIDUMBRE: SIN EVIDENCIA SUFICIENTE".to_string(),
        ),
        (
            2,
            "B.pdf".to_string(),
            "OBJETIVO: Objetivo B [chunk_id=2]\nTIPO: Manual [chunk_id=2]\nPUBLICO: SIN EVIDENCIA SUFICIENTE\nDATO 1: Dato B [chunk_id=2]\nDATO 2: SIN EVIDENCIA SUFICIENTE\nDATO 3: SIN EVIDENCIA SUFICIENTE\nINCERTIDUMBRE: SIN EVIDENCIA SUFICIENTE".to_string(),
        ),
    ];
    let output = render_structured_library_overview(
        &analyses,
        "A.pdf aparece dos veces. A.pdf vuelve a aparecer y B fue omitido.",
        "Compara los documentos",
    );
    assert_eq!(output.matches("A.pdf").count(), 1);
    assert_eq!(output.matches("B.pdf").count(), 1);
    assert_eq!(
        output.lines().filter(|line| line.starts_with('|')).count(),
        4
    );
    assert!(!output.contains("chunk_id"));
}

#[test]
fn global_library_summary_uses_all_validated_documents_without_forcing_a_table() {
    let analyses = vec![
        (1, "A.pdf".to_string(), "OBJETIVO: Ventas [chunk_id=1]".to_string()),
        (
            2,
            "B.pdf".to_string(),
            "OBJETIVO: Estadistica [chunk_id=2]".to_string(),
        ),
        (
            3,
            "C.pdf".to_string(),
            "OBJETIVO: Redes sociales [chunk_id=3]".to_string(),
        ),
    ];
    let output = render_structured_library_overview(
        &analyses,
        "No hay informacion sobre los temas principales.",
        "Resume en 4 puntos los temas principales de esta biblioteca",
    );
    assert!(!output.contains("| Archivo |"));
    assert!(output.contains("A.pdf"));
    assert!(output.contains("B.pdf"));
    assert!(output.contains("C.pdf"));
    assert!(!output.contains("No hay informacion"));
}

#[test]
fn compact_overview_facts_require_real_supporting_chunks() {
    let document = DocumentOverviewInput {
        document_id: 1,
        filename: "cotizacion.pdf".to_string(),
        representative_chunks: vec![ScoredChunk {
            chunk: Chunk {
                id: 44,
                document_id: 1,
                document_name: "cotizacion.pdf".to_string(),
                chunk_index: 0,
                content: "Cotizacion de servicio de redes. Precio mensual: $1,600 MXN. Vigencia: 7 dias naturales.".to_string(),
                page_number: Some(1),
                section: None,
                embedding: vec![],
            },
            score: score(1.0),
        }],
    };
    let raw = "OBJETIVO: Servicio de redes [C1]\nTIPO: Cotizacion [C1]\nPUBLICO: SIN EVIDENCIA SUFICIENTE\nDATO 1: $1,600 MXN al mes [C1]\nDATO 2: Vigencia de 7 dias [C1]\nDATO 3: El pago es semanal [C1]\nINCERTIDUMBRE: Pago semanal [C999]";
    let validated = validate_overview_analysis(&document, raw);
    assert!(validated.contains("OBJETIVO: Servicio de redes [chunk_id=44]"));
    assert!(validated.contains("DATO 1: $1,600 MXN"));
    assert!(validated.contains("DATO 2: Vigencia de 7 dias"));
    assert!(validated.contains("DATO 3: SIN EVIDENCIA SUFICIENTE"));
    assert!(validated.contains("INCERTIDUMBRE: SIN EVIDENCIA SUFICIENTE"));
}

#[test]
fn verifiable_data_rejects_headings_but_keeps_complete_supported_facts() {
    let document = DocumentOverviewInput {
        document_id: 31,
        filename: "evaluacion.pdf".to_string(),
        representative_chunks: vec![ScoredChunk {
            chunk: Chunk {
                id: 310,
                document_id: 31,
                document_name: "evaluacion.pdf".to_string(),
                chunk_index: 0,
                content: "Discusion en grupo: Caracteristicas y utilidad. El examen evalua interpretacion de datos y conceptos de estadistica.".to_string(),
                page_number: Some(2),
                section: None,
                embedding: vec![],
            },
            score: score(1.0),
        }],
    };
    let raw = "OBJETIVO: Evaluar conocimientos\nTIPO: Examen\nPUBLICO: Participantes\nDATO 1: Discusion en grupo: Caracteristicas y utilidad [C1]\nDATO 2: El examen evalua interpretacion de datos y estadistica [C1]\nDATO 3: SIN EVIDENCIA SUFICIENTE\nINCERTIDUMBRE: No se conoce el resultado de los participantes";
    let validated = validate_overview_analysis(&document, raw);

    assert!(validated.contains("DATO 1: SIN EVIDENCIA SUFICIENTE"));
    assert!(validated.contains(
        "DATO 2: El examen evalua interpretacion de datos y estadistica [chunk_id=310]"
    ));
    assert!(!validated.contains("DATO 1: Discusion en grupo"));
}

#[test]
fn one_invalid_overview_field_does_not_destroy_six_valid_fields() {
    let document = DocumentOverviewInput {
        document_id: 8,
        filename: "manual.pdf".to_string(),
        representative_chunks: vec![ScoredChunk {
            chunk: Chunk {
                id: 987_654_321,
                document_id: 8,
                document_name: "manual.pdf".to_string(),
                chunk_index: 0,
                content: "Manual tecnico para analistas. Explica SQL, tablas, consultas y validacion de datos. No contiene fechas.".to_string(),
                page_number: Some(3),
                section: None,
                embedding: vec![],
            },
            score: score(1.0),
        }],
    };
    let raw = "OBJETIVO: Explicar SQL y validacion de datos\nTIPO: Manual tecnico\nPUBLICO: Analistas\nDATO 1: Incluye tablas y consultas [C1]\nDATO 2: Publicado en 2024 [C999]\nDATO 3: No contiene fechas [C1]\nINCERTIDUMBRE: No se puede concluir una fecha de publicacion";
    let validated = validate_overview_analysis(&document, raw);
    assert_eq!(validated.matches("[chunk_id=987654321]").count(), 6);
    assert_eq!(validated.matches("SIN EVIDENCIA SUFICIENTE").count(), 1);
}

#[test]
fn completely_malformed_overview_does_not_turn_raw_chunk_into_a_fact() {
    let document = DocumentOverviewInput {
        document_id: 1,
        filename: "A.pdf".to_string(),
        representative_chunks: vec![ScoredChunk {
            chunk: Chunk {
                id: 77,
                document_id: 1,
                document_name: "A.pdf".to_string(),
                chunk_index: 0,
                content: "Encabezado real y tema principal del documento.".to_string(),
                page_number: Some(1),
                section: None,
                embedding: vec![],
            },
            score: score(1.0),
        }],
    };
    let validated = validate_overview_analysis(&document, "Respuesta truncada sin formato");
    assert_eq!(validated.matches("SIN EVIDENCIA SUFICIENTE").count(), 7);
    assert!(!validated.contains("Encabezado real y tema principal"));
    assert!(!validated.contains("[chunk_id=77]"));
}

#[test]
fn synthesis_fields_accept_supported_paraphrases_without_per_field_references() {
    let document = DocumentOverviewInput {
        document_id: 12,
        filename: "cotizacion.pdf".to_string(),
        representative_chunks: vec![
            ScoredChunk {
                chunk: Chunk {
                    id: 501,
                    document_id: 12,
                    document_name: "cotizacion.pdf".to_string(),
                    chunk_index: 0,
                    content: "INFERENCE LAB. Presencia digital para negocios locales. COTIZACION DE SERVICIO. Cliente: Barberia.".to_string(),
                    page_number: Some(1),
                    section: None,
                    embedding: vec![],
                },
                score: score(1.0),
            },
            ScoredChunk {
                chunk: Chunk {
                    id: 502,
                    document_id: 12,
                    document_name: "cotizacion.pdf".to_string(),
                    chunk_index: 1,
                    content: "Servicio: Gestion de redes sociales y edicion basica de reels.".to_string(),
                    page_number: Some(1),
                    section: None,
                    embedding: vec![],
                },
                score: score(0.9),
            },
        ],
    };
    let raw = "OBJETIVO: Ofrecer gestion de redes sociales y reels para mantener la presencia digital del negocio\nTIPO: Propuesta profesional\nPUBLICO: Barberias y negocios locales\nDATO 1: SIN EVIDENCIA SUFICIENTE\nDATO 2: SIN EVIDENCIA SUFICIENTE\nDATO 3: SIN EVIDENCIA SUFICIENTE\nINCERTIDUMBRE: No se puede concluir la duracion del servicio";
    let validated = validate_overview_analysis(&document, raw);

    assert!(validated.contains("OBJETIVO: Ofrecer gestion de redes sociales"));
    assert!(validated.contains("[chunk_id=501,502]"));
    assert!(validated.contains("TIPO: Propuesta profesional [chunk_id=501,502]"));
    assert!(validated.contains("PUBLICO: Barberias y negocios locales [chunk_id=501,502]"));
    assert!(validated.contains("INCERTIDUMBRE: No se puede concluir la duracion"));
}

#[test]
fn concrete_contradiction_invalidates_only_its_synthesis_field() {
    let document = DocumentOverviewInput {
        document_id: 4,
        filename: "servicio.pdf".to_string(),
        representative_chunks: vec![ScoredChunk {
            chunk: Chunk {
                id: 88,
                document_id: 4,
                document_name: "servicio.pdf".to_string(),
                chunk_index: 0,
                content: "Cotizacion mensual de gestion de redes por $1,600 MXN.".to_string(),
                page_number: Some(1),
                section: None,
                embedding: vec![],
            },
            score: score(1.0),
        }],
    };
    let raw = "OBJETIVO: Gestionar redes sociales [C1]\nTIPO: Cotizacion mensual [C1]\nPUBLICO: SIN EVIDENCIA SUFICIENTE\nDATO 1: $1,600 MXN [C1]\nDATO 2: SIN EVIDENCIA SUFICIENTE\nDATO 3: SIN EVIDENCIA SUFICIENTE\nINCERTIDUMBRE: El pago semanal no esta confirmado [C1]";
    let validated = validate_overview_analysis(&document, raw);

    assert!(validated.contains("OBJETIVO: Gestionar redes sociales [chunk_id=88]"));
    assert!(validated.contains("DATO 1: $1,600 MXN [chunk_id=88]"));
    assert!(validated.contains("INCERTIDUMBRE: SIN EVIDENCIA SUFICIENTE"));
}

#[test]
fn malformed_overview_fallback_extracts_only_short_concrete_sentences() {
    let document = DocumentOverviewInput {
        document_id: 9,
        filename: "oferta.pdf".to_string(),
        representative_chunks: vec![ScoredChunk {
            chunk: Chunk {
                id: 90,
                document_id: 9,
                document_name: "oferta.pdf".to_string(),
                chunk_index: 0,
                content: "ENCABEZADO COMERCIAL MUY GENERAL\nPrecio mensual: $1,600 MXN. Vigencia: 7 dias naturales. Texto descriptivo sin cifras.".to_string(),
                page_number: Some(1),
                section: None,
                embedding: vec![],
            },
            score: score(1.0),
        }],
    };
    let validated = validate_overview_analysis(&document, "salida truncada");

    assert!(validated.contains("DATO 1: Precio mensual: $1,600 MXN"));
    assert!(validated.contains("DATO 2: Vigencia: 7 dias naturales"));
    assert!(!validated.contains("ENCABEZADO COMERCIAL"));
    assert!(validated.contains("DATO 3: SIN EVIDENCIA SUFICIENTE"));
}

#[test]
fn overview_prompt_exposes_only_short_evidence_references() {
    let document = DocumentOverviewInput {
        document_id: 1,
        filename: "A.pdf".to_string(),
        representative_chunks: vec![ScoredChunk {
            chunk: Chunk {
                id: 9_876_543_210,
                document_id: 1,
                document_name: "A.pdf".to_string(),
                chunk_index: 0,
                content: "Contenido real".to_string(),
                page_number: Some(1),
                section: None,
                embedding: vec![],
            },
            score: score(1.0),
        }],
    };
    let prompt = document_overview_analysis_prompt(&document, "Resume");
    assert!(prompt.contains("[C1] pagina 1"));
    assert!(!prompt.contains("9876543210"));
}

#[test]
fn documentary_output_never_keeps_generated_urls() {
    let output = sanitize_document_output(
        "Fuente falsa: [examen](https://example.com/examen.pdf) y http://fake.local/doc",
    );
    assert!(!output.contains("example.com"));
    assert!(!output.contains("http://"));
    assert!(!output.contains("https://"));
}

#[test]
fn overview_intermediate_work_is_compact_and_not_user_facing() {
    assert!(OVERVIEW_ANALYSIS_MAX_TOKENS <= 256);
    assert!(OVERVIEW_SYNTHESIS_MAX_TOKENS <= 512);
    let synthesis = library_overview_synthesis_prompt(
        &vec![
            (1, "A.pdf".to_string(), "OBJETIVO: A [chunk_id=1]".to_string()),
            (2, "B.pdf".to_string(), "OBJETIVO: B [chunk_id=2]".to_string()),
            (3, "C.pdf".to_string(), "OBJETIVO: C [chunk_id=3]".to_string()),
        ],
        "Compara los 3 archivos en una tabla",
    );
    assert_eq!(synthesis.matches("filename=").count(), 3);
    assert!(synthesis.contains("una sola tabla"));
    assert!(synthesis.contains("No muestres las fichas internas"));
}

#[test]
fn documentary_prompt_forbids_fake_quotes_and_metadata_conflation() {
    let chunks = vec![ScoredChunk {
        chunk: Chunk {
            id: 1,
            document_id: 1,
            document_name: "ventas.pdf".to_string(),
            chunk_index: 0,
            content: "El vendedor orientado al clienteAnalicen y comparen".to_string(),
            page_number: Some(1),
            section: None,
            embedding: vec![],
        },
        score: score(0.8),
    }];
    let (prompt, sources) = rag_system_prompt(Profile::Documentation, &chunks);
    assert_eq!(sources.len(), 1);
    assert!(prompt.contains("nunca fabriques citas"));
    assert!(prompt.contains("No generes URLs"));
    assert!(prompt.contains("No transformes una condicion documentada"));
    assert!(prompt.contains("ni presentes una inferencia como hecho"));
    assert!(prompt.contains("no haya evidencia suficiente"));
    assert!(prompt.contains("sintetiza nombres conceptuales"));
    assert!(prompt.contains("Corrige separaciones defectuosas"));
    assert!(prompt.contains("clienteAnalicen"));
}

#[test]
fn prompt_contains_real_source() {
    let chunk = Chunk {
        id: 1,
        document_id: 1,
        document_name: "manual.md".to_string(),
        chunk_index: 2,
        content: "dato exacto".to_string(),
        page_number: None,
        section: None,
        embedding: vec![],
    };
    let (p, s) =
        rag_system_prompt(Profile::Documentation, &vec![ScoredChunk { chunk, score: score(1.0) }]);
    assert!(p.contains("dato exacto"));
    assert_eq!(s[0].document_name, "manual.md");
    assert_eq!(s[0].document_id, 1);
    assert_eq!(s[0].chunk_id, 1);
}

#[test]
fn prompt_allows_synthesis_across_retrieved_fragments() {
    let chunks = vec![
        ScoredChunk {
            chunk: Chunk {
                id: 1,
                document_id: 1,
                document_name: "examen.pdf".to_string(),
                chunk_index: 0,
                content: "El examen aborda calidad de datos.".to_string(),
                page_number: Some(1),
                section: None,
                embedding: vec![],
            },
            score: score(0.8),
        },
        ScoredChunk {
            chunk: Chunk {
                id: 2,
                document_id: 1,
                document_name: "examen.pdf".to_string(),
                chunk_index: 1,
                content: "Tambien incluye codificacion y bases de datos.".to_string(),
                page_number: Some(2),
                section: None,
                embedding: vec![],
            },
            score: score(0.7),
        },
    ];
    let (prompt, _) = rag_system_prompt(Profile::Documentation, &chunks);
    assert!(prompt.contains("calidad de datos"));
    assert!(prompt.contains("codificacion y bases de datos"));
    assert!(prompt.contains("resumir, combinar y sacar conclusiones"));
    assert!(prompt.contains("Solo di que no hay informacion"));
}

#[test]
fn empty_context_keeps_not_found_as_the_fallback() {
    let (prompt, sources) = rag_system_prompt(Profile::Documentation, &vec![]);
    assert!(sources.is_empty());
    assert!(prompt.contains("Solo di que no hay informacion"));
}

#[test]
fn comparison_groups_multiple_pages_under_one_document_header() {
    let chunks = vec![
        ScoredChunk {
            chunk: Chunk {
                id: 1,
                document_id: 7,
                document_name: "uno.pdf".to_string(),
                chunk_index: 0,
                content: "Criterio en pagina uno.".to_string(),
                page_number: Some(1),
                section: None,
                embedding: vec![],
            },
            score: score(0.9),
        },
        ScoredChunk {
            chunk: Chunk {
                id: 2,
                document_id: 7,
                document_name: "uno.pdf".to_string(),
                chunk_index: 1,
                content: "Criterio en pagina cinco.".to_string(),
                page_number: Some(5),
                section: None,
                embedding: vec![],
            },
            score: score(0.8),
        },
        ScoredChunk {
            chunk: Chunk {
                id: 3,
                document_id: 8,
                document_name: "dos.pdf".to_string(),
                chunk_index: 0,
                content: "Evidencia del segundo documento.".to_string(),
                page_number: Some(2),
                section: None,
                embedding: vec![],
            },
            score: score(0.7),
        },
    ];
    let (prompt, sources) = rag_system_prompt_with_documents(
        Profile::Documentation,
        &chunks,
        &vec![(7, "uno.pdf".to_string()), (8, "dos.pdf".to_string())],
    );
    assert_eq!(prompt.matches("DOCUMENTO A: uno.pdf").count(), 1);
    assert_eq!(prompt.matches("DOCUMENTO B: dos.pdf").count(), 1);
    assert_eq!(prompt.matches("DOCUMENTO A:").count(), 1);
    assert_eq!(prompt.matches("DOCUMENTO B:").count(), 1);
    assert!(!prompt.contains("Fuente 1"));
    assert!(!prompt.contains("Fuente 2"));
    assert!(prompt.contains("Fragmento 1 - pagina 1"));
    assert!(prompt.contains("Fragmento 2 - pagina 5"));
    assert!(
        prompt.contains("No trates cada fragmento como una fuente o documento independiente.")
    );
    assert!(prompt.contains("pagina 1"));
    assert!(prompt.contains("pagina 5"));
    assert_eq!(
        sources
            .iter()
            .map(|source| source.document_id)
            .collect::<HashSet<_>>(),
        [7, 8].into_iter().collect()
    );
    let (missing_prompt, _) = rag_system_prompt_with_documents(
        Profile::Documentation,
        &chunks[..2].iter().cloned().collect(),
        &vec![(7, "uno.pdf".to_string()), (9, "tres.pdf".to_string())],
    );
    assert!(missing_prompt.contains("DOCUMENTO B: tres.pdf"));
    assert!(missing_prompt.contains("Sin evidencia suficiente recuperada para este criterio."));
}

#[test]
fn a_model_without_a_name_is_not_invented() {
    let named = general_system_prompt_for(Some("modelo.gguf".to_string()));
    assert!(named.contains("modelo.gguf"));
    let unnamed = general_system_prompt_for(None);
    assert!(!unnamed.contains(".gguf"));
    assert_eq!(general_system_prompt("modelo.gguf"), named);
    assert_eq!(general_system_prompt("carpeta/modelo.gguf"), named);
    assert_eq!(general_system_prompt(""), unnamed);
}

#[test]
fn an_unanswered_question_is_not_repeated() {
    let history = vec![
        message(1, "user", "Hola", vec![]),
        message(2, "user", "Gracias", vec![]),
        message(3, "assistant", "De nada", vec![]),
        message(4, "user", "Otra", vec![]),
    ];
    let kept = document_history_without_evidence(&history);
    assert_eq!(kept.iter().map(|m| m.id).collect::<Vec<_>>(), [2, 3]);
}

#[test]
fn an_address_goes_and_its_text_stays() {
    assert_eq!(
        sanitize_document_output("Ver [examen](https://example.com/a) ahora"),
        "Ver [examen] ahora"
    );
    assert!(!sanitize_document_output("Ver http://a.b/c?d=e y mas").contains("http"));
    assert_eq!(sanitize_document_output("sin enlaces"), "sin enlaces");
}

#[test]
fn a_diagnostic_holds_what_was_sent() {
    let chunk = Chunk {
        id: 7,
        document_id: 1,
        document_name: "manual.md".to_string(),
        chunk_index: 2,
        content: "dato exacto".to_string(),
        page_number: Some(3),
        section: None,
        embedding: vec![],
    };
    let found = vec![ScoredChunk { chunk, score: score(0.5) }];
    let sent = vec![ApiMessage { role: "user".to_string(), content: "pregunta".to_string() }];
    let text = prompt_diagnostic("reglas", "pregunta", "Manuales", &found, &sent);
    assert!(text.starts_with("SYSTEM PROMPT\nreglas\n\nPREGUNTA DEL USUARIO\npregunta"));
    assert!(text.contains("\n\nBIBLIOTECA\nManuales"));
    assert!(text.contains("0.5000"));
    assert!(text.contains("dato exacto"));
    assert!(text.ends_with("\n[user]\npregunta\n"));
}
