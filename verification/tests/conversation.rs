use kuznor::ai::client::{
    after_first_attempt, first_choice, first_delta, is_template_error, order_embeddings,
    read_stream_line, retry_failure, AfterAttempt, ClientError, StreamLine, StreamedAnswer,
};
use kuznor::ai::conversation::{
    normalize_chat_messages, prepare, profile_from_json, profile_from_props, trim_history,
    validate_sequence, ApiMessage, ChatProps, ConversationError, TemplateProfile,
};
use kuznor::models::Message;

fn message(role: &str, content: &str) -> ApiMessage {
    ApiMessage { role: role.to_string(), content: content.to_string() }
}

fn turn(id: i64, role: &str, content: &str) -> Message {
    Message {
        id,
        chat_id: 1,
        role: role.to_string(),
        content: content.to_string(),
        sources: vec![],
        created_at: String::new(),
    }
}

fn roles(messages: &[ApiMessage]) -> Vec<&str> {
    messages.iter().map(|m| m.role.as_str()).collect()
}

#[test]
fn supports_system_user_and_alternating_history() {
    let messages = normalize_chat_messages(
        &[message("system", "reglas"), message("user", "hola")],
        TemplateProfile::SystemSupported,
    )
    .unwrap();
    assert_eq!(roles(&messages), ["system", "user"]);

    let messages = normalize_chat_messages(
        &[
            message("system", "reglas"),
            message("user", "hola"),
            message("assistant", "respuesta"),
            message("user", "otra"),
        ],
        TemplateProfile::SystemSupported,
    )
    .unwrap();
    assert_eq!(messages.len(), 4);
}

#[test]
fn merges_consecutive_roles_and_removes_empty_messages() {
    let messages = normalize_chat_messages(
        &[
            message("system", ""),
            message("user", "uno"),
            message("user", "dos"),
            message("assistant", ""),
            message("assistant", "tres"),
        ],
        TemplateProfile::SystemSupported,
    )
    .unwrap();
    assert_eq!(messages.len(), 2);
    assert!(messages[0].content.contains("uno\n\ndos"));
    assert_eq!(messages[1].role, "assistant");
}

#[test]
fn drops_leading_assistant_from_trimmed_failed_history() {
    let history = vec![turn(1, "assistant", "respuesta vieja")];
    let result = trim_history("reglas".to_string(), &history, "pregunta", 4096, 512);
    assert_eq!(roles(&result), ["system", "user"]);
}

#[test]
fn fuses_system_for_templates_without_system_role() {
    let prepared = prepare(
        &[message("system", "reglas"), message("user", "pregunta")],
        TemplateProfile::NoSystem,
    )
    .unwrap();
    assert_eq!(prepared.messages.len(), 1);
    assert!(prepared.messages[0].content.contains("reglas"));
    assert_eq!(prepared.messages[0].role, "user");
}

#[test]
fn recognizes_props_capabilities_without_model_name() {
    let props = r#"{"chat_template": "custom", "chat_template_caps": {"supports_system_role": false}}"#;
    assert_eq!(profile_from_json(props), Some(TemplateProfile::NoSystem));
}

#[test]
fn representative_family_templates_keep_valid_roles() {
    for (family, template) in [
        ("qwen", "<|im_start|>{{ message['role'] }}"),
        ("gemma", "{% if message['role'] == 'system' %}"),
        ("llama", "<<SYS>> {{ content }}"),
        ("mistral", "[INST] {{ content }} [/INST]"),
        ("phi", "<|user|>{{ content }}<|end|>"),
    ] {
        let props = ChatProps {
            supports_system_role: None,
            chat_template: Some(template.to_string()),
        };
        let profile = profile_from_props(&props);
        let prepared = prepare(
            &[message("system", family), message("user", "pregunta")],
            profile,
        )
        .unwrap();
        assert!(validate_sequence(&prepared.messages, profile).is_ok());
    }
}

#[test]
fn context_is_one_user_message_not_a_second_user_turn() {
    let prepared = prepare(
        &[
            message("system", "documentos"),
            message("user", "Pregunta: de que trata?\n\nContexto: evidencia"),
        ],
        TemplateProfile::SystemSupported,
    )
    .unwrap();
    assert_eq!(prepared.messages.iter().filter(|m| m.role == "user").count(), 1);
}

#[test]
fn keeps_current_question_and_trims_oldest() {
    let history = (0..8).map(|id| turn(id, "user", &"x".repeat(300))).collect::<Vec<_>>();
    let out = trim_history("sys".to_string(), &history, "actual", 300, 100);
    assert!(out.iter().any(|message| message.content.contains("actual")));
    assert_eq!(out.last().unwrap().role, "user");
    assert!(out.len() < history.len() + 2);
}

#[test]
fn the_latest_turns_that_fit_are_kept() {
    let history = vec![
        turn(1, "user", &"a".repeat(2000)),
        turn(2, "assistant", "respuesta"),
        turn(3, "user", "segunda"),
        turn(4, "assistant", "otra"),
    ];
    let out = trim_history("s".to_string(), &history, "  actual ", 512, 256);
    assert_eq!(roles(&out), ["system", "user", "assistant", "user"]);
    assert_eq!(out[1].content, "segunda");
    assert_eq!(out[2].content, "otra");
    assert_eq!(out[3].content, "actual");
}

#[test]
fn a_conversation_without_text_cannot_be_sent() {
    assert_eq!(
        normalize_chat_messages(&[message("user", "  ")], TemplateProfile::SystemSupported),
        Err(ConversationError::NoUsableMessages)
    );
    assert_eq!(
        prepare(&[], TemplateProfile::NoSystem),
        Err(ConversationError::NoUsableMessages)
    );
    assert!(trim_history(String::new(), &[], "   ", 4096, 512).is_empty());
    assert_eq!(
        ConversationError::NoUsableMessages.message(),
        "La conversacion no contiene mensajes utilizables"
    );
}

#[test]
fn a_sequence_out_of_order_is_refused() {
    let double = [message("user", "a"), message("user", "b")];
    assert!(validate_sequence(&double, TemplateProfile::SystemSupported).is_err());
    let late = [message("user", "a"), message("system", "b")];
    assert!(validate_sequence(&late, TemplateProfile::SystemSupported).is_err());
    let system = [message("system", "a"), message("user", "b")];
    assert!(validate_sequence(&system, TemplateProfile::NoSystem).is_err());
    assert!(validate_sequence(&system, TemplateProfile::SystemSupported).is_ok());
}

#[test]
fn the_fallback_has_no_system_message() {
    let prepared = prepare(
        &[message("system", "reglas"), message("user", "pregunta")],
        TemplateProfile::SystemSupported,
    )
    .unwrap();
    assert_eq!(roles(&prepared.messages), ["system", "user"]);
    assert_eq!(roles(&prepared.fallback_without_system), ["user"]);
    assert!(prepared.fallback_without_system[0].content.contains("reglas"));
}

#[test]
fn properties_that_are_no_json_say_nothing() {
    assert_eq!(profile_from_json("no es json"), None);
    assert_eq!(
        profile_from_json(r#"{"chat_template_caps":{"supports_system_role":true}}"#),
        Some(TemplateProfile::TemplateDriven)
    );
    assert_eq!(
        profile_from_json(r#"{"chat_template":"{% if message['role'] == 'system' %}"}"#),
        Some(TemplateProfile::SystemSupported)
    );
}

#[test]
fn the_first_choice_and_delta_count() {
    let contents = vec!["hola".to_string(), "otra".to_string()];
    assert_eq!(first_choice(&contents), Ok("hola".to_string()));
    assert_eq!(first_choice(&vec![]), Err(ClientError::NoChoices));
    assert_eq!(first_delta(&vec![Some("hola".to_string())]), Some("hola".to_string()));
    assert_eq!(first_delta(&vec![]), None);
}

#[test]
fn a_stream_is_read_line_by_line() {
    assert_eq!(read_stream_line("data: {\"a\":1}"), StreamLine::Data("{\"a\":1}".to_string()));
    assert_eq!(read_stream_line("data: [DONE]"), StreamLine::Done);
    assert_eq!(read_stream_line(""), StreamLine::Ignored);
    assert_eq!(read_stream_line(": comment"), StreamLine::Ignored);
    let mut answer = StreamedAnswer::new();
    answer.accept("Ku");
    answer.accept("znor");
    assert_eq!(answer.finish(false), Ok("Kuznor".to_string()));
    assert_eq!(StreamedAnswer::new().finish(false), Err(ClientError::NoContent));
    assert_eq!(StreamedAnswer::new().finish(true), Ok(String::new()));
}

#[test]
fn a_refused_template_is_tried_without_system() {
    assert!(is_template_error("Conversation roles must alternate user/assistant"));
    assert!(!is_template_error("connection refused"));
    let refused = Some("chat template error".to_string());
    assert_eq!(after_first_attempt(&refused, false), AfterAttempt::RetryWithoutSystem);
    assert_ne!(after_first_attempt(&refused, true), AfterAttempt::RetryWithoutSystem);
    assert_ne!(after_first_attempt(&None, false), AfterAttempt::RetryWithoutSystem);
    assert_eq!(retry_failure("x"), "Reintento compatible fallido: x");
}

#[test]
fn embeddings_are_put_in_the_order_of_their_inputs() {
    let items = vec![(1, vec![2, 2]), (0, vec![1, 1])];
    assert_eq!(order_embeddings(&items, 2), Ok(vec![vec![1, 1], vec![2, 2]]));
    let missing = order_embeddings(&items, 3).unwrap_err();
    assert_eq!(missing, ClientError::EmbeddingCount { expected: 3, received: 2 });
    assert_eq!(missing.message(), "Se esperaban 3 embeddings y llegaron 2");
    assert_eq!(ClientError::NoChoices.message(), "La respuesta no contiene opciones");
    assert_eq!(ClientError::NoContent.message(), "El servidor no envio contenido en streaming");
}
