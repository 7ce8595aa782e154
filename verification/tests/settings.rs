use std::time::{Duration, Instant};

use kuznor::config::{
    effective_inference_threads, endpoint_url, validate_loopback_host, Settings, SettingsError,
    TemperatureValue,
};
use kuznor::performance::{format_memory, is_sample_due, should_sample};

#[test]
fn settings_round_trip() {
    let settings = Settings { top_k: 7, temperature: 0.7_f32.to_bits(), ..Settings::default() };
    let stored = settings.save("0.7").unwrap();
    assert!(stored.contains(&("temperature".to_string(), "0.7".to_string())));
    let read: f32 = "0.7".parse().unwrap();
    let loaded = Settings::load(&stored, TemperatureValue::Bits(read.to_bits())).unwrap();
    assert_eq!(loaded, settings);
}

#[test]
fn defaults_are_portable() {
    let settings = Settings::default();
    assert!(settings.chat_model_path.is_empty());
    assert!(settings.embedding_model_path.is_empty());
    assert_eq!(settings.llama_command, "llama");
    assert_eq!(settings.inference_threads, 0);
}

#[test]
fn nothing_stored_gives_the_defaults() {
    let loaded = Settings::load(&vec![], TemperatureValue::Absent).unwrap();
    assert_eq!(loaded, Settings::default());
}

#[test]
fn a_value_that_cannot_be_read_is_named() {
    let stored = vec![("top_k".to_string(), "siete".to_string())];
    assert_eq!(
        Settings::load(&stored, TemperatureValue::Absent),
        Err(SettingsError::Invalid("top_k".to_string()))
    );
    let error = Settings::load(&vec![], TemperatureValue::Invalid).unwrap_err();
    assert_eq!(error, SettingsError::Invalid("temperature".to_string()));
    assert!(error.message().contains("temperature"));
}

#[test]
fn automatic_threads_leave_capacity_for_the_system() {
    assert!(effective_inference_threads(0, None) >= 1);
    assert!(effective_inference_threads(0, Some(1)) >= 1);
    assert_eq!(effective_inference_threads(0, Some(8)), 6);
    assert_eq!(effective_inference_threads(5, Some(8)), 5);
    assert_eq!(effective_inference_threads(5, None), 5);
}

#[test]
fn accepts_only_explicit_loopback_hosts() {
    for host in ["localhost", "LOCALHOST", "127.0.0.1", "127.12.34.56", "::1", "[::1]"] {
        validate_loopback_host(host).unwrap();
    }
    for host in ["example.com", "192.168.1.20", "10.0.0.2", "0.0.0.0", "::"] {
        assert!(validate_loopback_host(host).is_err(), "{host} debe rechazarse");
    }
    for host in ["127.0.0.256", "127.0.0", "127.0.0.01", "", "localhost.example.com", "::1:1"] {
        assert!(validate_loopback_host(host).is_err(), "{host} debe rechazarse");
    }
}

#[test]
fn formats_ipv4_and_ipv6_local_urls() {
    assert_eq!(
        endpoint_url("127.0.0.1", 8080, "/health").unwrap(),
        "http://127.0.0.1:8080/health"
    );
    assert_eq!(endpoint_url("::1", 8081, "/health").unwrap(), "http://[::1]:8081/health");
    assert_eq!(
        endpoint_url("localhost", 8080, "/health").unwrap(),
        "http://127.0.0.1:8080/health"
    );
    assert!(endpoint_url("example.com", 80, "/health").is_err());
}

#[test]
fn refuses_to_persist_remote_hosts() {
    let settings =
        Settings { chat_host: "api.example.com".to_string(), ..Settings::default() };
    assert_eq!(settings.save("0.2"), Err(SettingsError::ChatHost));
    let settings =
        Settings { embedding_host: "api.example.com".to_string(), ..Settings::default() };
    assert_eq!(settings.validate_local_only(), Err(SettingsError::EmbeddingHost));
    assert!(settings.embedding_url().is_err());
}

#[test]
fn urls_name_the_endpoints() {
    let settings = Settings::default();
    assert!(settings.chat_url().unwrap().ends_with("/v1/chat/completions"));
    assert!(settings.embedding_url().unwrap().ends_with("/v1/embeddings"));
    assert!(settings.chat_props_url().unwrap().ends_with("/props"));
    assert!(settings.chat_url().unwrap().starts_with("http://127.0.0.1:"));
}

#[test]
fn memory_format_is_local_and_stable() {
    assert_eq!(format_memory(1024 * 1024), "1.0 MB");
}

#[test]
fn memory_is_rounded_to_the_even_neighbour() {
    assert_eq!(format_memory(0), "0.0 MB");
    assert_eq!(format_memory(1024 * 1024 * 3 / 2), "1.5 MB");
    for bytes in [52428, 52429, 1 << 40, u64::MAX, 13_107_199, 2_726_297, 3_932_160] {
        let expected = format!("{:.1} MB", bytes as f64 / (1024.0 * 1024.0));
        assert_eq!(format_memory(bytes), expected);
    }
}

#[test]
fn samples_are_a_second_apart() {
    assert!(is_sample_due(1_000_000_000));
    assert!(!is_sample_due(999_999_999));
}

#[test]
fn a_sample_is_due_a_second_after_the_last() {
    let now = Instant::now();
    assert!(!should_sample(&(now + Duration::from_secs(60))));
    assert!(should_sample(&now.checked_sub(Duration::from_secs(2)).unwrap()));
}
