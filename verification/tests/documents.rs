use std::sync::atomic::AtomicBool;
use std::time::{Duration, Instant};

use kuznor::code::indexer::{bytes_hash, FileStamp};
use kuznor::documents::{
    activity, append_bounded, document_kind, ensure_active, ensure_file_limit, is_sensitive_path,
    parse_pdf, parse_text, parse_validated_document, path_access_error, reject_sensitive,
    validate_document_path, AccessFailure, DocumentError, PathFacts, MAX_TEXT_FILE_BYTES,
};
use lopdf::content::{Content, Operation};
use lopdf::{Dictionary, Document, Object, Stream};

fn later() -> Instant {
    Instant::now() + Duration::from_secs(60)
}

fn parse(kind: &str, bytes: &[u8]) -> Result<kuznor::documents::ParsedDocument, DocumentError> {
    let name = Some(format!("archivo.{kind}"));
    parse_validated_document(kind, bytes.to_vec(), &name, &AtomicBool::new(false), &later())
}

#[test]
fn parses_txt_and_markdown_and_normalizes_bom() {
    for ext in ["txt", "md"] {
        let doc = parse(ext, "\u{feff}# Titulo\r\ncontenido conocido".as_bytes()).unwrap();
        assert!(doc.sections[0].text.contains("conocido"));
        assert!(!doc.sections[0].text.starts_with('\u{feff}'));
        assert_eq!(doc.title, format!("archivo.{ext}"));
    }
}

#[test]
fn text_rejects_empty_invalid_utf8_and_binary() {
    assert!(parse("txt", b" \r\n\t").unwrap_err().message().contains("vacio"));
    assert!(parse("txt", &[0xff, 0xfe]).unwrap_err().message().contains("UTF-8"));
    assert!(parse("md", b"texto\0binario").unwrap_err().message().contains("NUL"));
    assert_eq!(parse_text(b"a\0".to_vec(), &None), Err(DocumentError::Binary));
}

#[test]
fn equal_bytes_have_equal_hashes() {
    let a = "igual".repeat(20_000);
    let b = "igual".repeat(20_000);
    assert_eq!(bytes_hash(a.as_bytes()), bytes_hash(b.as_bytes()));
    assert_ne!(bytes_hash(a.as_bytes()), bytes_hash(b"otro"));
}

fn regular(size_bytes: u64, modified: i128) -> PathFacts {
    PathFacts::Regular {
        canonical_path: "/tmp/manual.txt".to_string(),
        stamp: FileStamp { size_bytes, modified: Some(modified) },
    }
}

#[test]
fn file_size_limits_and_cancellation_are_enforced_before_parsing() {
    let facts = regular(MAX_TEXT_FILE_BYTES + 1, 1);
    let error = validate_document_path("manual.txt", "manual.txt", &facts).unwrap_err();
    assert!(error.message().contains("10 MiB"));
    assert!(ensure_file_limit(MAX_TEXT_FILE_BYTES, "txt").is_ok());
    assert!(ensure_file_limit(MAX_TEXT_FILE_BYTES + 1, "pdf").is_ok());

    let cancelled = AtomicBool::new(true);
    assert_eq!(ensure_active(&cancelled, &later()), Err(DocumentError::Cancelled));
    let name = Some("manual.txt".to_string());
    let stopped =
        parse_validated_document("txt", b"contenido".to_vec(), &name, &cancelled, &later());
    assert_eq!(stopped, Err(DocumentError::Cancelled));
    let past = Instant::now() - Duration::from_millis(5);
    assert_eq!(ensure_active(&AtomicBool::new(false), &past), Err(DocumentError::Expired));
    assert_eq!(activity(false, false), Ok(()));
}

#[test]
fn rejects_sensitive_documents_before_reading() {
    for name in [
        ".env",
        ".env.local",
        "credentials.txt",
        "client_secret.md",
        "private_key.pem",
        "passwords.pdf",
    ] {
        assert!(is_sensitive_path(name), "{name} debe considerarse sensible");
        assert_eq!(reject_sensitive(name), Err(DocumentError::Sensitive));
        let facts = regular(3, 1);
        assert_eq!(validate_document_path(name, name, &facts), Err(DocumentError::Sensitive));
    }
    assert!(!is_sensitive_path("manual_publico.pdf"));
}

#[test]
fn validated_file_change_is_rejected() {
    let validated = validate_document_path("manual.txt", "manual.txt", &regular(17, 1)).unwrap();
    assert_eq!(validated.kind(), "txt");
    assert_eq!(validated.path(), "/tmp/manual.txt");
    assert_eq!(validated.revalidate(&regular(17, 1)), Ok(()));
    let error = validated.revalidate(&regular(36, 2)).unwrap_err();
    assert!(error.message().contains("cambio"));
}

#[test]
fn only_regular_files_of_known_kinds_are_accepted() {
    let accept = |name: &str, facts: &PathFacts| validate_document_path(name, name, facts);
    assert!(accept("foto.png", &regular(3, 1)).is_err());
    assert!(accept("manual.txt", &PathFacts::Link).is_err());
    assert!(accept("manual.txt", &PathFacts::NotRegular).is_err());
    assert_eq!(document_kind("Manual.PDF"), Ok("pdf".to_string()));
    assert!(document_kind("sin_extension").is_err());
    let gone = path_access_error("manual.txt", &AccessFailure::NotFound);
    assert_eq!(gone.message(), "El archivo desaparecio: manual.txt");
    let denied = path_access_error("manual.txt", &AccessFailure::PermissionDenied);
    assert_eq!(denied.message(), "Acceso denegado al archivo: manual.txt");
}

#[test]
fn reading_stops_at_the_limit() {
    let mut bytes = vec![1, 2];
    assert_eq!(append_bounded(&mut bytes, &[3, 4], 4), Ok(()));
    assert_eq!(bytes, [1, 2, 3, 4]);
    assert!(append_bounded(&mut bytes, &[5], 4).is_err());
    assert_eq!(bytes, [1, 2, 3, 4]);
}

fn dictionary(entries: Vec<(&str, Object)>) -> Dictionary {
    let mut dict = Dictionary::new();
    for (key, value) in entries {
        dict.set(key, value);
    }
    dict
}

fn name(text: &str) -> Object {
    Object::Name(text.as_bytes().to_vec())
}

fn pdf_with_text(text: &str) -> Vec<u8> {
    pdf_with_part(text, None)
}

/// A PDF document with one page; below an inner part of the page tree, which declares a
/// number of pages, it can stand a second time.
fn pdf_with_part(text: &str, declared: Option<i64>) -> Vec<u8> {
    let mut pdf = Document::with_version("1.5");
    let pages_id = pdf.new_object_id();
    let inner_id = pdf.new_object_id();
    let font_id = pdf.add_object(dictionary(vec![
        ("Type", name("Font")),
        ("Subtype", name("Type1")),
        ("BaseFont", name("Courier")),
    ]));
    let fonts = dictionary(vec![("F1", Object::Reference(font_id))]);
    let resources_id = pdf.add_object(dictionary(vec![("Font", Object::Dictionary(fonts))]));
    let content = Content {
        operations: vec![
            Operation::new("BT", vec![]),
            Operation::new("Tf", vec![name("F1"), Object::Integer(16)]),
            Operation::new("Td", vec![Object::Integer(40), Object::Integer(760)]),
            Operation::new("Tj", vec![Object::string_literal(text)]),
            Operation::new("ET", vec![]),
        ],
    }
    .encode()
    .unwrap();
    let content_id = pdf.add_object(Stream::new(Dictionary::new(), content));
    let page_id = pdf.add_object(dictionary(vec![
        ("Type", name("Page")),
        ("Parent", Object::Reference(pages_id)),
        ("Contents", Object::Reference(content_id)),
        ("Resources", Object::Reference(resources_id)),
        (
            "MediaBox",
            Object::Array(vec![
                Object::Integer(0),
                Object::Integer(0),
                Object::Integer(595),
                Object::Integer(842),
            ]),
        ),
    ]));
    let mut kids = vec![Object::Reference(page_id)];
    if let Some(declared) = declared {
        kids.push(Object::Reference(inner_id));
        pdf.objects.insert(
            inner_id,
            Object::Dictionary(dictionary(vec![
                ("Type", name("Pages")),
                ("Parent", Object::Reference(pages_id)),
                ("Kids", Object::Array(vec![Object::Reference(page_id)])),
                ("Count", Object::Integer(declared)),
            ])),
        );
    }
    pdf.objects.insert(
        pages_id,
        Object::Dictionary(dictionary(vec![
            ("Type", name("Pages")),
            ("Kids", Object::Array(kids)),
            ("Count", Object::Integer(1)),
        ])),
    );
    let catalog_id = pdf.add_object(dictionary(vec![
        ("Type", name("Catalog")),
        ("Pages", Object::Reference(pages_id)),
    ]));
    pdf.trailer.set("Root", Object::Reference(catalog_id));
    let mut bytes = Vec::new();
    pdf.save_to(&mut bytes).unwrap();
    bytes
}

#[test]
fn parses_text_pdf_and_keeps_page() {
    let parsed = parse("pdf", &pdf_with_text("La clave del manual es PDF-42")).unwrap();
    assert!(parsed.sections[0].text.contains("PDF-42"));
    assert_eq!(parsed.sections[0].page_number, Some(1));
}

#[test]
fn every_page_of_a_pdf_is_read() {
    let parsed = parse("pdf", &pdf_with_part("La clave del manual es PDF-42", Some(1))).unwrap();
    let pages: Vec<Option<u32>> = parsed.sections.iter().map(|s| s.page_number).collect();
    assert_eq!(pages, [Some(1), Some(2)]);
}

#[test]
fn the_pages_that_a_pdf_declares_do_not_matter() {
    let text = "La clave del manual es PDF-42";
    let plain = parse("pdf", &pdf_with_part(text, Some(1))).unwrap();
    for declared in [-1, 0, 500, 8_388_608, i64::MAX] {
        assert_eq!(parse("pdf", &pdf_with_part(text, Some(declared))).unwrap(), plain);
    }
}

#[test]
fn a_document_has_no_metadata() {
    assert!(parse("txt", b"hola mundo").unwrap().metadata.is_empty());
    let pdf = pdf_with_text("La clave del manual es PDF-42");
    assert!(parse("pdf", &pdf).unwrap().metadata.is_empty());
}

#[test]
fn a_stopped_document_is_not_read() {
    let raised = AtomicBool::new(true);
    let down = AtomicBool::new(false);
    let past = Instant::now().checked_sub(Duration::from_secs(1)).unwrap();
    let pdf = pdf_with_text("La clave del manual es PDF-42");
    for (kind, bytes) in [("txt", b"hola mundo".to_vec()), ("pdf", pdf), ("doc", Vec::new())] {
        assert_eq!(
            parse_validated_document(kind, bytes.clone(), &None, &raised, &later()),
            Err(DocumentError::Cancelled)
        );
        assert_eq!(
            parse_validated_document(kind, bytes, &None, &down, &past),
            Err(DocumentError::Expired)
        );
    }
    assert_eq!(
        parse_pdf(b"no es un pdf", &None, &raised, &past).unwrap_err(),
        DocumentError::PdfUnreadable
    );
}

#[test]
fn a_pdf_without_text_is_rejected() {
    assert!(parse("pdf", &pdf_with_text("poco")).is_err());
}

#[test]
fn corrupt_pdf_is_rejected() {
    assert!(parse("pdf", b"not a pdf").is_err());
}
