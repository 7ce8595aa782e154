use std::collections::{HashMap, HashSet};
use std::sync::atomic::AtomicBool;
use std::time::{Duration, Instant};

use kuznor::documents::{ParsedDocument, ParsedSection};
use kuznor::models::{Chunk, Score, MIN_RELEVANCE_BITS};
use kuznor::rag::chunking::{chunk_document, chunk_document_limited};
use kuznor::rag::embeddings::{
    document_input, embed_chunks_with_retry, estimated_tokens, input_tokens_are_too_large,
    prepare_embedding_chunks, query_input, EmbeddingError, EmbeddingProvider,
    SAFE_EMBEDDING_TOKENS,
};
use kuznor::rag::search::{
    build_library_overview, global_literal_terms, lexical_matches, mentioned_documents,
    mentioned_page_count, name_matches, representative_indices, restrict_to_documents, retrieve,
    retrieve_comparison, substantially_similar, terms, top_k, ScoredChunk,
};

fn bits(values: &[f32]) -> Vec<u32> {
    values.iter().map(|v| v.to_bits()).collect()
}

fn score(value: f32) -> Score {
    Score { bits: value.to_bits(), three: format!("{value:.3}"), four: format!("{value:.4}") }
}

fn cosine(a: &[f32], b: &[f32]) -> f32 {
    let dot: f32 = a.iter().zip(b).map(|(x, y)| x * y).sum();
    let na: f32 = a.iter().map(|x| x * x).sum::<f32>().sqrt();
    let nb: f32 = b.iter().map(|x| x * x).sum::<f32>().sqrt();
    if na == 0.0 || nb == 0.0 {
        0.0
    } else {
        dot / (na * nb)
    }
}

fn scores(chunks: &[Chunk], query: &[f32], text: &str) -> Vec<Score> {
    let asked = terms(text);
    chunks
        .iter()
        .map(|chunk| {
            let own: Vec<f32> = chunk.embedding.iter().map(|b| f32::from_bits(*b)).collect();
            let boost = match name_matches(&chunk.document_name, &asked) {
                0 => 0.0,
                1 => 0.22,
                n => 0.22 + ((n - 1) as f32 * 0.06).min(0.18),
            };
            score(cosine(&own, query) + boost)
        })
        .collect()
}

fn ids(found: &[ScoredChunk]) -> Vec<i64> {
    found.iter().map(|item| item.chunk.id).collect()
}

#[test]
fn comparison_resolves_two_explicit_documents_and_retrieves_each() {
    let chunks = vec![
        Chunk {
            id: 1,
            document_id: 10,
            document_name: "Cotizacion_Inference_Lab_Redes_y_Reels.pdf".to_string(),
            chunk_index: 0,
            content: "Costo y alcance del servicio.".to_string(),
            page_number: Some(1),
            section: None,
            embedding: bits(&[1.0, 0.0]),
        },
        Chunk {
            id: 2,
            document_id: 10,
            document_name: "Cotizacion_Inference_Lab_Redes_y_Reels.pdf".to_string(),
            chunk_index: 1,
            content: "Plazos y entregables.".to_string(),
            page_number: Some(4),
            section: None,
            embedding: bits(&[1.0, 0.0]),
        },
        Chunk {
            id: 3,
            document_id: 20,
            document_name: "Examen_simulacion_INEGI.pdf".to_string(),
            chunk_index: 0,
            content: "Calidad de datos y codificacion.".to_string(),
            page_number: Some(2),
            section: None,
            embedding: bits(&[1.0, 0.0]),
        },
    ];
    let documents = mentioned_documents(
        &chunks,
        "Compara Cotizacion_Inference_Lab_Redes_y_Reels.pdf con Examen_simulacion_INEGI.pdf",
    );
    assert_eq!(
        documents.iter().map(|(id, _)| *id).collect::<Vec<_>>(),
        [10, 20]
    );
    let result =
        {
        let given = scores(&chunks, &[1.0, 0.0], "compara costo y temas");
        retrieve_comparison(&chunks, &given, 2, 4, &documents)
    };
    assert_eq!(
        result
            .iter()
            .map(|item| item.chunk.document_id)
            .collect::<HashSet<_>>(),
        [10, 20].into_iter().collect()
    );
}

#[test]
fn explicit_single_document_scope_excludes_every_other_document() {
    let chunks = vec![
        Chunk {
            id: 1,
            document_id: 10,
            document_name: "ventas.pdf".to_string(),
            chunk_index: 0,
            content: "ventas".to_string(),
            page_number: Some(1),
            section: None,
            embedding: bits(&[1.0, 0.0]),
        },
        Chunk {
            id: 2,
            document_id: 20,
            document_name: "examen.pdf".to_string(),
            chunk_index: 0,
            content: "examen".to_string(),
            page_number: Some(1),
            section: None,
            embedding: bits(&[1.0, 0.0]),
        },
    ];
    let scoped = restrict_to_documents(&chunks, &vec![(10, "ventas.pdf".to_string())]);
    assert_eq!(scoped.len(), 1);
    assert!(scoped.iter().all(|chunk| chunk.document_id == 10));
}

#[test]
fn library_overview_selects_context_for_every_real_document() {
    let chunks = (1..=3)
        .flat_map(|document_id| {
            (0..2).map(move |chunk_index| Chunk {
                id: document_id * 10 + chunk_index,
                document_id,
                document_name: format!("documento-{document_id}.pdf"),
                chunk_index: chunk_index as usize,
                content: format!("contenido {document_id}-{chunk_index}"),
                page_number: Some(chunk_index as u32 + 1),
                section: None,
                embedding: vec![],
            })
        })
        .collect::<Vec<_>>();
    let documents = vec![
        (1, "documento-1.pdf".to_string()),
        (2, "documento-2.pdf".to_string()),
        (3, "documento-3.pdf".to_string()),
    ];
    let result = build_library_overview(&chunks, &documents, 2);
    let ids = result
        .iter()
        .map(|item| item.document_id)
        .collect::<HashSet<_>>();
    assert_eq!(ids, [1, 2, 3].into_iter().collect());
    assert_eq!(result.len(), 3);
    assert_eq!(result[0].filename, "documento-1.pdf");
    assert!(
        result
            .iter()
            .all(|document| document.representative_chunks.len() == 2)
    );
}

#[test]
fn global_literal_search_covers_every_document_in_scope() {
    let chunks = (1..=3)
        .map(|document_id| Chunk {
            id: document_id,
            document_id,
            document_name: format!("doc-{document_id}.pdf"),
            chunk_index: 0,
            content: if document_id == 3 {
                "RFC ABC010101XX0".to_string()
            } else {
                "Sin identificador fiscal".to_string()
            },
            page_number: Some(1),
            section: None,
            embedding: vec![],
        })
        .collect();
    let terms = global_literal_terms("¿Alguno de los documentos contiene RFC?");
    assert_eq!(terms, ["RFC"]);
    let found = lexical_matches(chunks, &terms);
    assert_eq!(found.len(), 1);
    assert_eq!(found[0].chunk.document_id, 3);
}

#[test]
fn ordinary_semantic_question_is_not_global_literal_search() {
    assert!(global_literal_terms("¿Que temas de SQL aparecen?").is_empty());
}

#[test]
fn overview_deduplicates_repeated_representative_text() {
    let chunks = vec![
        Chunk {
            id: 1,
            document_id: 1,
            document_name: "A.pdf".to_string(),
            chunk_index: 0,
            content: "Mismo encabezado".to_string(),
            page_number: Some(1),
            section: None,
            embedding: vec![],
        },
        Chunk {
            id: 2,
            document_id: 1,
            document_name: "A.pdf".to_string(),
            chunk_index: 1,
            content: "Mismo encabezado".to_string(),
            page_number: Some(2),
            section: None,
            embedding: vec![],
        },
    ];
    let overview = build_library_overview(&chunks, &vec![(1, "A.pdf".to_string())], 2);
    assert_eq!(overview[0].representative_chunks.len(), 1);
}

#[test]
fn overview_covers_beginning_middle_and_end() {
    let chunks = (0..5)
        .map(|chunk_index| Chunk {
            id: chunk_index + 1,
            document_id: 1,
            document_name: "A.pdf".to_string(),
            chunk_index: chunk_index as usize,
            content: format!("Seccion unica numero {chunk_index}"),
            page_number: Some(chunk_index as u32 + 1),
            section: None,
            embedding: vec![],
        })
        .collect::<Vec<_>>();
    let overview = build_library_overview(&chunks, &vec![(1, "A.pdf".to_string())], 3);
    assert_eq!(
        overview[0]
            .representative_chunks
            .iter()
            .map(|item| item.chunk.chunk_index)
            .collect::<Vec<_>>(),
        [0, 2, 4]
    );
}

#[test]
fn top_k_is_sorted() {
    let mk = |id: i64, e: &[f32]| Chunk {
        id,
        document_id: 1,
        document_name: "d".to_string(),
        chunk_index: (id - 1) as usize,
        content: String::new(),
        page_number: None,
        section: None,
        embedding: bits(e),
    };
    let chunks = vec![mk(1, &[0., 1.]), mk(2, &[1., 0.])];
    let given = scores(&chunks, &[1., 0.], "consulta");
    let r = top_k(&chunks, &given, 2, 1);
    assert_eq!(r[0].chunk.id, 2);
}

#[test]
fn top_k_is_a_maximum_and_filters_irrelevant_chunks() {
    let mk = |id: i64, score: f32| Chunk {
        id,
        document_id: 1,
        document_name: format!("doc-{id}.txt"),
        chunk_index: id as usize,
        content: String::new(),
        page_number: None,
        section: None,
        embedding: bits(&[score, (1.0 - score * score).max(0.0).sqrt()]),
    };
    let chunks = vec![mk(1, 0.99), mk(2, 0.98), mk(3, 0.01)];
    let given = scores(&chunks, &[1.0, 0.0], "consulta");
    let result = top_k(&chunks, &given, 2, 5);
    assert_eq!(result.len(), 2);
    assert!(result.iter().all(|item| item.chunk.id != 3));
}

#[test]
fn document_name_can_rescue_a_relevant_named_document() {
    let chunk = Chunk {
        id: 1,
        document_id: 1,
        document_name: "Examen_simulacion_INEGI.pdf".to_string(),
        chunk_index: 0,
        content: "SIMULACION DE EXAMEN".to_string(),
        page_number: Some(2),
        section: None,
        embedding: bits(&[0.0, 1.0]),
    };
    let chunks = vec![chunk];
    let given = scores(&chunks, &[1.0, 0.0], "examen INEGI");
    let result = top_k(&chunks, &given, 2, 4);
    assert_eq!(result.len(), 1);
    assert!(f32::from_bits(result[0].score.bits) >= f32::from_bits(MIN_RELEVANCE_BITS));
}

#[test]
fn overview_selects_first_and_representative_pages() {
    let make = |id: i64, page: u32, content: &str| Chunk {
        id,
        document_id: 1,
        document_name: "Examen_simulacion_INEGI.pdf".to_string(),
        chunk_index: (id - 1) as usize,
        content: content.to_string(),
        page_number: Some(page),
        section: None,
        embedding: bits(&[1.0, 0.0]),
    };
    let chunks = vec![
        make(1, 1, "SIMULACION DE EXAMEN"),
        make(2, 4, "Calidad y codificacion de datos"),
        make(3, 9, "Bases de datos y SQL conceptual"),
    ];
    let question = "¿De que trata el examen?";
    let given = scores(&chunks, &[0.0, 1.0], question);
    let result = retrieve(&chunks, &given, 2, question, 4);
    assert_eq!(result.len(), 3);
    assert_eq!(result[0].chunk.chunk_index, 0);
    assert!(result.iter().any(|item| item.chunk.page_number == Some(9)));
}

#[test]
fn overview_without_evidence_returns_no_chunks() {
    let chunk = Chunk {
        id: 1,
        document_id: 1,
        document_name: "manual.txt".to_string(),
        chunk_index: 0,
        content: "contenido unrelated".to_string(),
        page_number: Some(1),
        section: None,
        embedding: bits(&[0.0, 1.0]),
    };
    let chunks = vec![chunk];
    let question = "¿De que trata el examen?";
    let given = scores(&chunks, &[1.0, 0.0], question);
    assert!(retrieve(&chunks, &given, 2, question, 4).is_empty());
}

fn document(text: String) -> ParsedDocument {
    ParsedDocument {
        title: "a".to_string(),
        sections: vec![ParsedSection { text, page_number: None, title: None }],
        metadata: HashMap::new(),
    }
}

#[test]
fn chunks_and_overlaps() {
    let doc = document(
        (0..20)
            .map(|i| format!("w{i}"))
            .collect::<Vec<_>>()
            .join(" "),
    );
    let c = chunk_document(&doc, 10, 3);
    assert_eq!(c.len(), 3);
    assert!(c[0].content.ends_with("w9"));
    assert!(c[1].content.starts_with("w7"));
}

#[test]
fn rejects_extremely_long_word() {
    let cancelled = AtomicBool::new(false);
    let error = chunk_document_limited(
        &document("x".repeat(100)),
        10,
        2,
        32,
        10,
        &cancelled,
        &(Instant::now() + Duration::from_secs(1)),
    )
    .unwrap_err();
    assert!(error.message().contains("palabra"));
}

fn chunk(content: &str) -> Chunk {
    Chunk {
        id: 7,
        document_id: 3,
        document_name: "manual.pdf".to_string(),
        chunk_index: 4,
        content: content.to_string(),
        page_number: Some(8),
        section: Some("Seccion".to_string()),
        embedding: vec![],
    }
}

#[test]
fn nomic_prefixes_are_distinct() {
    let document = document_input("dato");
    let query = query_input("dato");
    assert_eq!(document, "search_document: dato");
    assert_eq!(query, "search_query: dato");
    assert_ne!(document, query);
}

#[test]
fn long_chunks_are_split_before_embedding() {
    let chunks = prepare_embedding_chunks(&vec![chunk(&"palabra ".repeat(1_200))]);
    assert!(chunks.len() > 1);
    assert!(
        chunks
            .iter()
            .all(|item| estimated_tokens(&item.content) <= SAFE_EMBEDDING_TOKENS)
    );
    assert!(
        chunks
            .iter()
            .all(|item| item.document_id == 3 && item.page_number == Some(8))
    );
    assert_eq!(chunks[0].chunk_index, 4);
}

struct RejectingProvider;

impl EmbeddingProvider for RejectingProvider {
    fn embed_documents(&self, texts: &Vec<String>) -> Result<Vec<Vec<u32>>, String> {
        if texts.iter().any(|text| estimated_tokens(text) > 8) {
            return Err("input tokens is too large".to_string());
        }
        Ok(texts.iter().map(|_| bits(&[1.0, 0.0])).collect())
    }

    fn embed_query(&self, _query: &str) -> Result<Vec<u32>, String> {
        Ok(bits(&[1.0, 0.0]))
    }
}

#[test]
fn token_limit_error_is_retried_with_smaller_chunks() {
    let result =
        embed_chunks_with_retry(&RejectingProvider, &vec![chunk(&"palabra ".repeat(20))])
            .unwrap();
    assert!(result.len() > 1);
    assert!(result.iter().all(|item| item.embedding == bits(&[1.0, 0.0])));
    assert!(
        result
            .iter()
            .all(|item| item.document_id == 3 && item.page_number == Some(8))
    );
}

/// Gives each text a vector of its own: its length and its first character.
struct TellingProvider {
    most: usize,
}

impl EmbeddingProvider for TellingProvider {
    fn embed_documents(&self, texts: &Vec<String>) -> Result<Vec<Vec<u32>>, String> {
        if texts.len() > self.most {
            return Err("input tokens is too large".to_string());
        }
        Ok(texts
            .iter()
            .map(|text| vec![text.len() as u32, text.chars().next().unwrap() as u32])
            .collect())
    }

    fn embed_query(&self, _query: &str) -> Result<Vec<u32>, String> {
        Err("sin pregunta".to_string())
    }
}

#[test]
fn each_part_has_the_vector_of_its_own_text_and_the_place_of_its_chunk() {
    let texts = ["uno", "dos tres", "cuatro", "cinco seis siete", "ocho"];
    let chunks: Vec<Chunk> = texts
        .iter()
        .enumerate()
        .map(|(i, text)| Chunk { page_number: Some(i as u32 + 1), ..chunk(text) })
        .collect();
    for most in [1, 2, 5] {
        let result = embed_chunks_with_retry(&TellingProvider { most }, &chunks).unwrap();
        assert_eq!(result.len(), texts.len());
        for (i, part) in result.iter().enumerate() {
            assert_eq!(part.content, texts[i]);
            assert_eq!(part.page_number, Some(i as u32 + 1));
            let first = texts[i].chars().next().unwrap() as u32;
            assert_eq!(part.embedding, vec![texts[i].len() as u32, first]);
        }
    }
    let refused = embed_chunks_with_retry(&TellingProvider { most: 0 }, &vec![chunk("uno")]);
    assert_eq!(
        refused.unwrap_err(),
        EmbeddingError::Provider("input tokens is too large".to_string())
    );
    let blank = embed_chunks_with_retry(&TellingProvider { most: 0 }, &vec![chunk("  ")]).unwrap();
    assert!(blank.is_empty());
}

struct ShortProvider;

impl EmbeddingProvider for ShortProvider {
    fn embed_documents(&self, _texts: &Vec<String>) -> Result<Vec<Vec<u32>>, String> {
        Ok(vec![vec![1]])
    }

    fn embed_query(&self, _query: &str) -> Result<Vec<u32>, String> {
        Ok(vec![1])
    }
}

#[test]
fn a_wrong_number_of_vectors_is_an_error() {
    let chunks = vec![chunk("uno"), chunk("dos")];
    assert_eq!(
        embed_chunks_with_retry(&ShortProvider, &chunks).unwrap_err(),
        EmbeddingError::Count { expected: 2, received: 1 }
    );
}

struct BrokenProvider;

impl EmbeddingProvider for BrokenProvider {
    fn embed_documents(&self, _texts: &Vec<String>) -> Result<Vec<Vec<u32>>, String> {
        Err("sin conexion".to_string())
    }

    fn embed_query(&self, _query: &str) -> Result<Vec<u32>, String> {
        Err("sin conexion".to_string())
    }
}

#[test]
fn another_error_is_not_retried() {
    let error = embed_chunks_with_retry(&BrokenProvider, &vec![chunk("texto")]).unwrap_err();
    assert!(error.message().contains("sin conexion"));
    assert!(input_tokens_are_too_large("input tokens is too large"));
    assert!(!input_tokens_are_too_large("sin conexion"));
}

#[test]
fn no_letter_is_lost_when_a_chunk_is_split() {
    let text = "palabra ".repeat(1_200);
    let parts = prepare_embedding_chunks(&vec![chunk(&text)]);
    let letters: String = parts
        .iter()
        .flat_map(|part| part.content.chars())
        .filter(|c| !c.is_whitespace())
        .collect();
    assert_eq!(letters, "palabra".repeat(1_200));
}

#[test]
fn no_word_is_lost_when_a_document_is_cut() {
    let text = (0..57).map(|i| format!("w{i}")).collect::<Vec<_>>().join(" ");
    let chunks = chunk_document(&document(text), 10, 3);
    for i in 0..57 {
        let word = format!("w{i}");
        assert!(chunks.iter().any(|c| c.content.split(' ').any(|w| w == word)));
    }
    assert!(chunks.iter().enumerate().all(|(i, c)| c.chunk_index == i));
    assert!(chunk_document(&document("   ".to_string()), 10, 3).is_empty());
}

#[test]
fn cutting_stops_when_it_is_cancelled_or_late() {
    let cancelled = AtomicBool::new(true);
    let later = Instant::now() + Duration::from_secs(60);
    let error = chunk_document_limited(&document("a b c".to_string()), 2, 1, 64, 10, &cancelled, &later)
        .unwrap_err();
    assert!(error.message().contains("cancel"));
    let going = AtomicBool::new(false);
    let past = Instant::now() - Duration::from_millis(5);
    assert!(
        chunk_document_limited(&document("a b c".to_string()), 2, 1, 64, 10, &going, &past).is_err()
    );
    let wordless = document(" \n ".to_string());
    assert_eq!(chunk_document_limited(&wordless, 2, 1, 64, 0, &cancelled, &past), Ok(vec![]));
}

#[test]
fn too_many_chunks_are_refused() {
    let going = AtomicBool::new(false);
    let later = Instant::now() + Duration::from_secs(60);
    let text = (0..100).map(|i| format!("w{i}")).collect::<Vec<_>>().join(" ");
    let result = chunk_document_limited(&document(text), 2, 0, 64, 10, &going, &later);
    assert!(result.is_err());
}

#[test]
fn representatives_are_spread_over_the_document() {
    assert_eq!(representative_indices(5, 3), [0, 2, 4]);
    assert_eq!(representative_indices(2, 3), [0, 1]);
    assert_eq!(representative_indices(5, 1), [0]);
    assert!(representative_indices(0, 3).is_empty());
}

#[test]
fn scores_decide_the_order_and_ties_keep_theirs() {
    let chunks: Vec<Chunk> = (1..=4)
        .map(|id| Chunk { id, embedding: bits(&[1.0]), ..chunk("texto") })
        .collect();
    let given = vec![score(0.3), score(0.9), score(0.3), score(f32::NAN)];
    assert_eq!(ids(&top_k(&chunks, &given, 1, 4)), [2, 1, 3]);
    assert!(top_k(&chunks, &given, 2, 4).is_empty());
    assert!(top_k(&chunks, &given, 1, 0).is_empty());
}

#[test]
fn a_literal_match_needs_one_of_the_terms() {
    let chunks = vec![chunk("El RFC es ABC"), chunk("nada")];
    let found = lexical_matches(chunks, &vec!["rfc".to_string()]);
    assert_eq!(found.len(), 1);
    assert_eq!(found[0].score, score(1.0));
    assert!(lexical_matches(vec![chunk("RFC")], &vec![]).is_empty());
}

#[test]
fn pages_can_name_a_document() {
    assert_eq!(mentioned_page_count("el de 12 páginas"), Some(12));
    assert_eq!(mentioned_page_count("el de doce páginas"), None);
    let chunks = vec![
        Chunk { document_id: 1, page_number: Some(12), document_name: "uno".to_string(), ..chunk("a") },
        Chunk { document_id: 2, page_number: Some(3), document_name: "dos".to_string(), ..chunk("b") },
    ];
    let named = mentioned_documents(&chunks, "resume el de 12 páginas");
    assert_eq!(named, vec![(1, "uno".to_string())]);
}

#[test]
fn nearly_equal_texts_are_similar() {
    assert!(substantially_similar("mismo texto largo aqui", "mismo texto largo aqui"));
    assert!(!substantially_similar("uno dos tres", "cuatro cinco seis"));
}

#[test]
fn without_overlap_every_word_stands_once() {
    let text = (0..57).map(|i| format!("w{i}")).collect::<Vec<_>>().join("  \n");
    let chunks = chunk_document(&document(text), 10, 0);
    let words: Vec<String> = chunks
        .iter()
        .flat_map(|c| c.content.split(' '))
        .map(|w| w.to_string())
        .collect();
    assert_eq!(words, (0..57).map(|i| format!("w{i}")).collect::<Vec<_>>());
}
