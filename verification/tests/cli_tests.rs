//! Command-line parsing behaviour.

use tts_player::cli::parse_cli_args;

#[test]
fn cli_test_text_parameter_parsing() {
    let args = vec!["app".to_string(), "--text".to_string(), "Hello world".to_string()];
    let parsed = parse_cli_args(args).unwrap();
    assert_eq!(parsed.text, Some("Hello world".to_string()));
}

#[test]
fn cli_test_voice_parameter_parsing() {
    let args = vec![
        "app".to_string(),
        "--text".to_string(),
        "Hello".to_string(),
        "--voice".to_string(),
        "rachel".to_string(),
    ];
    let parsed = parse_cli_args(args).unwrap();
    assert_eq!(parsed.text, Some("Hello".to_string()));
    assert_eq!(parsed.voice, Some("rachel".to_string()));
}

#[test]
fn cli_test_short_flags() {
    let args = vec!["app".to_string(), "-t".to_string(), "Hello".to_string()];
    let parsed = parse_cli_args(args).unwrap();
    assert_eq!(parsed.text, Some("Hello".to_string()));
}

#[test]
fn cli_test_empty_args() {
    let args = vec!["app".to_string()];
    let parsed = parse_cli_args(args).unwrap();
    assert_eq!(parsed.text, None);
    assert_eq!(parsed.voice, None);
}

#[test]
fn cli_test_special_characters() {
    let special_text = "Hello! ä½ å¥½! Ã‰mojis ðŸŽµ";
    let args = vec!["app".to_string(), "--text".to_string(), special_text.to_string()];
    let parsed = parse_cli_args(args).unwrap();
    assert_eq!(parsed.text, Some(special_text.to_string()));
}

#[test]
fn test_missing_text_value() {
    let args = vec!["app".to_string(), "--text".to_string()];
    let result = parse_cli_args(args);
    assert!(result.is_err());
}

#[test]
fn test_help_flag() {
    let args = vec!["app".to_string(), "--help".to_string()];
    let result = parse_cli_args(args);
    assert!(result.is_err());
    assert!(result.unwrap_err().contains("USAGE"));
}

#[test]
fn cli_tests_test_text_parameter_parsing() {
    let args = vec!["app".to_string(), "--text".to_string(), "Hello world".to_string()];
    let parsed = parse_cli_args(args).unwrap();
    assert_eq!(parsed.text, Some("Hello world".to_string()));
}

#[test]
fn cli_tests_test_voice_parameter_parsing() {
    let args = vec![
        "app".to_string(),
        "--text".to_string(),
        "Hello".to_string(),
        "--voice".to_string(),
        "rachel".to_string(),
    ];
    let parsed = parse_cli_args(args).unwrap();
    assert_eq!(parsed.text, Some("Hello".to_string()));
    assert_eq!(parsed.voice, Some("rachel".to_string()));
}

#[test]
fn cli_tests_test_short_flags() {
    let args = vec!["app".to_string(), "-t".to_string(), "Hello".to_string()];
    let parsed = parse_cli_args(args).unwrap();
    assert_eq!(parsed.text, Some("Hello".to_string()));
}

#[test]
fn cli_tests_test_empty_args() {
    let args = vec!["app".to_string()];
    let parsed = parse_cli_args(args).unwrap();
    assert_eq!(parsed.text, None);
    assert_eq!(parsed.voice, None);
}

#[test]
fn cli_tests_test_special_characters() {
    let special_text = "Hello! 你好! Émojis 🎵";
    let args = vec!["app".to_string(), "--text".to_string(), special_text.to_string()];
    let parsed = parse_cli_args(args).unwrap();
    assert_eq!(parsed.text, Some(special_text.to_string()));
}

#[test]
fn unknown_argument_is_rejected_with_its_name() {
    let args = vec!["app".to_string(), "--loud".to_string()];
    let result = parse_cli_args(args);
    assert_eq!(result.unwrap_err(), "Unknown argument: --loud".to_string());
}

#[test]
fn missing_voice_value_is_rejected() {
    let args = vec!["app".to_string(), "-v".to_string()];
    let result = parse_cli_args(args);
    assert_eq!(result.unwrap_err(), "Missing value for --voice argument".to_string());
}

#[test]
fn later_flag_occurrence_wins() {
    let args = vec![
        "app".to_string(),
        "-t".to_string(),
        "first".to_string(),
        "--text".to_string(),
        "second".to_string(),
    ];
    let parsed = parse_cli_args(args).unwrap();
    assert_eq!(parsed.text, Some("second".to_string()));
}
