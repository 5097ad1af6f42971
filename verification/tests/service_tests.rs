//! Validation, voice catalogs, usage tracking, account status, generation
//! planning, and temporary-file naming.

use tts_player::error::TTSError;
use tts_player::file_manager::FileManager;
use tts_player::ledger::UsageRecord;
use tts_player::service::{plan_generation, truncate_to_limit, GenerationPlan, TTSService};

#[test]
fn test_voice_validation() {
    let service = TTSService::new("test-key", "https://api.elevenlabs.io");

    assert!(service.is_valid_voice("rachel"));
    assert!(service.is_valid_voice("adam"));
    assert!(service.is_valid_voice("bella"));

    assert!(!service.is_valid_voice("invalid"));
    assert!(!service.is_valid_voice(""));
}

#[test]
fn default_profile_accepts_its_six_voices() {
    let service = TTSService::new("test-key", "https://api.openai.com");
    for v in ["alloy", "echo", "fable", "onyx", "nova", "shimmer"] {
        assert!(service.is_valid_voice(v));
    }
    assert!(!service.is_valid_voice("rachel"));
    assert!(service.is_valid_voice("  alloy \n"));
    assert!(!service.is_valid_voice("   "));
}

#[test]
fn empty_text_is_rejected_before_any_network_call() {
    let service = TTSService::new("test-key", "https://api.openai.com");
    assert!(service.validate_text("").is_err());
    assert!(service.validate_text("   ").is_err());
    assert!(service.validate_text("Hello world").is_ok());

    // rejection happens at the validator: starting a generation run makes no
    // request and fails with the same validation error
    match service.start_generation("", "alloy", "tts-1-hd") {
        Err(TTSError::ValidationError(msg)) => {
            assert_eq!(msg, "Text cannot be empty".to_string())
        }
        _ => panic!("empty input must be rejected by the validator"),
    }
}

#[test]
fn legacy_profile_rejects_overlong_text_outright() {
    let service = TTSService::new("test-key", "https://api.elevenlabs.io");
    assert!(service.validate_text("Hello world").is_ok());
    let long_text = "a".repeat(5001);
    match service.validate_text(&long_text) {
        Err(TTSError::ValidationError(msg)) => assert_eq!(msg, "Text is too long".to_string()),
        _ => panic!("the legacy profile rejects overlong text"),
    }
    let at_limit = "a".repeat(5000);
    assert!(service.validate_text(&at_limit).is_ok());
}

#[test]
fn unknown_voice_stops_a_generation_run() {
    let service = TTSService::new("test-key", "https://api.openai.com");
    match service.start_generation("Hello there.", "whisper", "tts-1-hd") {
        Err(TTSError::ValidationError(msg)) => {
            assert_eq!(msg, "Invalid voice ID: whisper".to_string())
        }
        _ => panic!("an unknown voice must be rejected"),
    }
}

#[test]
fn character_count_counts_characters_not_bytes() {
    let service = TTSService::new("test-key", "https://api.openai.com");
    assert_eq!(service.count_characters("Hello"), 5);
    assert_eq!(service.count_characters(""), 0);
    // one character, two bytes
    assert_eq!(service.count_characters("\u{e9}"), 1);
    assert_eq!(service.count_characters("h\u{e9}llo"), 5);
}

#[test]
fn tracked_character_count_is_in_characters() {
    let mut service = TTSService::with_database("test-key", "https://api.openai.com").unwrap();
    // five characters, nine bytes
    let text = "\u{e9}\u{e9}\u{e9}\u{e9}a";
    assert_eq!(text.len(), 9);
    service
        .track_usage(text, "alloy", "tts-1-hd", true, None)
        .unwrap();
    let history = service.get_usage_history(10, None).unwrap();
    assert_eq!(history[0].character_count, 5);
}

#[test]
fn tracked_text_is_truncated_with_a_marker() {
    let mut service = TTSService::with_database("test-key", "https://api.openai.com").unwrap();
    let long_text = "x".repeat(150);
    service
        .track_usage(&long_text, "alloy", "tts-1-hd", true, None)
        .unwrap();
    service
        .track_usage("short", "alloy", "tts-1-hd", false, Some("oops".to_string()))
        .unwrap();
    let history = service.get_usage_history(10, None).unwrap();
    assert_eq!(history.len(), 2);
    // newest first: the short failure, then the truncated success
    assert_eq!(history[0].text, b"short".to_vec());
    assert_eq!(history[0].character_count, 5);
    assert!(!history[0].success);
    assert_eq!(history[0].error_message, Some("oops".to_string()));
    let mut expected = vec![b'x'; 97];
    expected.extend_from_slice(b"...");
    assert_eq!(history[1].text, expected);
    assert_eq!(history[1].character_count, 150);
    assert!(history[1].success);
}

#[test]
fn tracking_without_a_ledger_is_a_no_op() {
    let mut service = TTSService::new("test-key", "https://api.openai.com");
    assert!(service
        .track_usage("hello", "alloy", "tts-1-hd", true, None)
        .is_ok());
    assert!(service.get_usage_history(10, None).is_err());
    assert!(service.get_usage_stats(7).is_err());
}

#[test]
fn account_info_reflects_pay_per_use() {
    let mut service = TTSService::with_database("test-key", "https://api.openai.com").unwrap();
    service
        .track_usage("hello world", "alloy", "tts-1-hd", true, None)
        .unwrap();
    let info = service.get_user_info().unwrap();
    assert_eq!(info.subscription_tier, "Pay-per-use".to_string());
    assert_eq!(info.character_limit, -1);
    assert_eq!(info.characters_remaining, -1);
    assert_eq!(info.character_used, 11);
}

#[test]
fn generation_plan_prefers_single_requests() {
    assert!(matches!(plan_generation(4000, 4000, true), GenerationPlan::Single));
    assert!(matches!(plan_generation(4001, 4000, true), GenerationPlan::Chunked));
    assert!(matches!(
        plan_generation(4001, 4000, false),
        GenerationPlan::TruncatedSingle
    ));
}

#[test]
fn truncation_keeps_the_leading_bytes() {
    assert_eq!(truncate_to_limit(b"hello world", 5), b"hello".to_vec());
    assert_eq!(truncate_to_limit(b"hi", 5), b"hi".to_vec());
}

#[test]
fn audio_file_paths_are_unique_and_well_shaped() {
    let manager = FileManager::new("/tmp/tts-player");
    let p1 = manager.create_temp_audio_file();
    let p2 = manager.create_temp_audio_file();
    assert!(p1.starts_with("/tmp/tts-player/"));
    assert!(p1.ends_with(".mp3"));
    assert_eq!(p1.len(), "/tmp/tts-player".len() + 41);
    assert_ne!(p1, p2);
}

#[test]
fn unicode_whitespace_counts_as_empty() {
    let service = TTSService::new("test-key", "https://api.openai.com");
    // no-break space, en quad, ideographic space: empty once trimmed
    assert!(service.validate_text("\u{a0}\u{2000}\u{3000}").is_err());
    assert!(service.validate_text("\u{a0}hello\u{a0}").is_ok());
    // trimming strips the same set around a voice id
    assert!(service.is_valid_voice("\u{a0}alloy\u{2002}"));
    assert!(!service.is_valid_voice("\u{a0}\u{a0}"));
}

#[test]
fn restored_history_counts_in_aggregation() {
    let mut service = TTSService::with_database("test-key", "https://api.openai.com").unwrap();
    service
        .restore_record(UsageRecord {
            id: None,
            timestamp: 1_700_000_000,
            text: b"restored".to_vec(),
            character_count: 8,
            voice_id: "alloy".to_string(),
            model_id: "tts-1-hd".to_string(),
            success: true,
            error_message: None,
        })
        .unwrap();
    service
        .track_usage("fresh", "nova", "tts-1-hd", true, None)
        .unwrap();
    let history = service.get_usage_history(10, None).unwrap();
    assert_eq!(history.len(), 2);
    assert_eq!(history[1].text, b"restored".to_vec());
    // a record from before the epoch is rejected, not stored
    let bad = service.restore_record(UsageRecord {
        id: None,
        timestamp: -5,
        text: Vec::new(),
        character_count: 0,
        voice_id: String::new(),
        model_id: String::new(),
        success: true,
        error_message: None,
    });
    assert!(bad.is_err());
    assert_eq!(service.get_usage_history(10, None).unwrap().len(), 2);
}
