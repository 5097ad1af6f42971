//! The chunker, the retry policy, the assembler, and a full generation run.

use tts_player::assembler::{assemble_audio, build_concat_manifest, concat_segments};
use tts_player::chunker::split_text_semantically;
use tts_player::client::{retry_step, RetryStep, BASE_DELAY_MS, MAX_ATTEMPTS};
use tts_player::error::TTSError;
use tts_player::service::TTSService;

fn concat_chunks(chunks: &[Vec<u8>]) -> Vec<u8> {
    let mut all = Vec::new();
    for c in chunks {
        all.extend_from_slice(c);
    }
    all
}

#[test]
fn chunks_reassemble_to_the_input() {
    let text = b"First sentence. Second sentence! Third one? Fourth sentence.\nFifth and last.";
    let chunks = split_text_semantically(text, 30);
    assert!(!chunks.is_empty());
    for c in &chunks {
        assert!(!c.is_empty());
        assert!(c.len() <= 30);
    }
    assert_eq!(concat_chunks(&chunks), text.to_vec());
}

#[test]
fn short_input_yields_exactly_one_chunk() {
    let text = b"Just a short line.";
    let chunks = split_text_semantically(text, 100);
    assert_eq!(chunks.len(), 1);
    assert_eq!(chunks[0], text.to_vec());
}

#[test]
fn boundary_sized_input_has_no_trailing_empty_chunk() {
    let text = b"Exactly eight.";
    let chunks = split_text_semantically(text, text.len());
    assert_eq!(chunks.len(), 1);
    assert_eq!(chunks[0], text.to_vec());
}

#[test]
fn chunking_is_idempotent() {
    let text = b"One. Two. Three. A noticeably longer sentence to push the limit! End?";
    let first = split_text_semantically(text, 25);
    let second = split_text_semantically(text, 25);
    assert_eq!(first, second);
}

#[test]
fn oversized_sentence_falls_back_to_word_packing() {
    // A single 35-byte "sentence" with no sentence boundary, limit 10:
    // words are packed greedily, each keeping its trailing separator, so
    // every chunk stays within the limit and reassembly is exact.
    let text = b"alpha beta gamma delta epsilon zeta";
    let chunks = split_text_semantically(text, 10);
    for c in &chunks {
        assert!(!c.is_empty());
        assert!(c.len() <= 10);
    }
    assert_eq!(
        chunks,
        vec![
            b"alpha ".to_vec(),
            b"beta ".to_vec(),
            b"gamma ".to_vec(),
            b"delta ".to_vec(),
            b"epsilon ".to_vec(),
            b"zeta".to_vec(),
        ]
    );
    assert_eq!(concat_chunks(&chunks), text.to_vec());
}

#[test]
fn word_packing_keeps_every_separator() {
    // A run of whitespace inside an oversized sentence travels with the
    // word before it: nothing is collapsed, reassembly stays exact.
    let text = b"a  b";
    let chunks = split_text_semantically(text, 1);
    assert_eq!(chunks, vec![b"a  ".to_vec(), b"b".to_vec()]);
    assert_eq!(concat_chunks(&chunks), text.to_vec());
}

#[test]
fn single_word_over_the_limit_stays_whole() {
    // One word longer than the limit cannot be split at a boundary; it is
    // emitted as an oversized chunk rather than dropped.
    let chunks = split_text_semantically(b"aaaaa", 3);
    assert_eq!(chunks, vec![b"aaaaa".to_vec()]);
}

#[test]
fn trailing_whitespace_survives_chunking() {
    // Trailing separators after the last word are kept too.
    let text = b"one two three ";
    let chunks = split_text_semantically(text, 6);
    assert_eq!(
        chunks,
        vec![b"one ".to_vec(), b"two ".to_vec(), b"three ".to_vec()]
    );
    assert_eq!(concat_chunks(&chunks), text.to_vec());
}

#[test]
fn retry_returns_success_after_two_network_errors_in_three_attempts() {
    let outcomes: Vec<Result<Vec<u8>, TTSError>> = vec![
        Err(TTSError::NetworkError("timeout".to_string())),
        Err(TTSError::NetworkError("reset".to_string())),
        Ok(vec![1, 2, 3]),
    ];
    let mut attempt: u32 = 0;
    let mut attempts_made: u32 = 0;
    let mut result: Option<Result<Vec<u8>, TTSError>> = None;
    for outcome in outcomes {
        assert!(attempt < MAX_ATTEMPTS);
        attempts_made += 1;
        match retry_step(attempt, outcome) {
            RetryStep::Done(r) => {
                result = Some(r);
                break;
            }
            RetryStep::Backoff { delay_ms, next_attempt } => {
                assert_eq!(delay_ms, BASE_DELAY_MS * (1 << attempt));
                attempt = next_attempt;
            }
        }
    }
    assert_eq!(attempts_made, 3);
    assert_eq!(result.unwrap().unwrap(), vec![1, 2, 3]);
}

#[test]
fn retry_stops_at_once_on_authentication_failure() {
    let mut attempts_made: u32 = 0;
    attempts_made += 1;
    match retry_step(0, Err(TTSError::Authentication("bad key".to_string()))) {
        RetryStep::Done(Err(TTSError::Authentication(msg))) => {
            assert_eq!(msg, "bad key".to_string());
        }
        _ => panic!("authentication must not be retried"),
    }
    assert_eq!(attempts_made, 1);
}

#[test]
fn retry_stops_at_once_on_rate_limit_and_keeps_retry_after() {
    // the caller decides whether to honor the delay, so the policy must
    // hand it through untouched
    match retry_step(0, Err(TTSError::RateLimit(Some(60)))) {
        RetryStep::Done(Err(TTSError::RateLimit(secs))) => assert_eq!(secs, Some(60)),
        _ => panic!("rate limits must not be retried"),
    }
    match retry_step(0, Err(TTSError::RateLimit(None))) {
        RetryStep::Done(Err(TTSError::RateLimit(None))) => {}
        _ => panic!("rate limits must not be retried"),
    }
}

#[test]
fn retry_returns_last_error_verbatim_when_exhausted() {
    match retry_step(MAX_ATTEMPTS - 1, Err(TTSError::NetworkError("still down".to_string()))) {
        RetryStep::Done(Err(TTSError::NetworkError(msg))) => {
            assert_eq!(msg, "still down".to_string());
        }
        _ => panic!("the last error must be surfaced verbatim"),
    }
}

#[test]
fn single_segment_is_returned_unchanged() {
    let audio = vec![vec![9u8, 8, 7, 6]];
    let out = assemble_audio(audio).unwrap();
    assert_eq!(out, vec![9u8, 8, 7, 6]);
}

#[test]
fn several_segments_concatenate_byte_for_byte() {
    let audio = vec![vec![1u8, 2], vec![3u8], vec![4u8, 5, 6]];
    let out = assemble_audio(audio).unwrap();
    assert_eq!(out, vec![1u8, 2, 3, 4, 5, 6]);
}

#[test]
fn concatenation_adds_no_overhead() {
    let segments = vec![vec![0u8; 100], vec![1u8; 57], vec![2u8; 3]];
    let out = concat_segments(&segments);
    assert_eq!(out.len(), 160);
}

#[test]
fn manifest_lists_files_in_order() {
    let paths = vec![b"/tmp/a.mp3".to_vec(), b"/tmp/b.mp3".to_vec()];
    let manifest = build_concat_manifest(&paths);
    assert_eq!(manifest, b"file '/tmp/a.mp3'\nfile '/tmp/b.mp3'\n".to_vec());
}

/// 9,500 characters of sentence-delimited text under a 3,800-character limit
/// yield three chunks; each is synthesized (here: a stand-in segment as long
/// as the chunk) and recorded; the assembled audio is exactly as long as the
/// sum of the per-chunk segments.
#[test]
fn long_text_flows_through_three_chunks_and_the_ledger() {
    // 95 sentences of 100 bytes each: 9,500 bytes in all.
    let sentence = "a".repeat(98) + ". ";
    assert_eq!(sentence.len(), 100);
    let text = sentence.repeat(95);
    assert_eq!(text.len(), 9500);

    let mut service = TTSService::with_database("test-key", "https://api.openai.com").unwrap();
    let mut run = service
        .start_generation(&text, "alloy", "tts-1-hd")
        .unwrap();
    assert_eq!(run.chunk_count(), 3);

    let mut total_chunk_bytes = 0usize;
    let mut expected_audio_len = 0usize;
    while let Some(chunk) = run.next_chunk() {
        assert!(chunk.len() <= 3800);
        total_chunk_bytes += chunk.len();
        // stand-in synthesis: one audio byte per text byte
        let audio = vec![0xABu8; chunk.len()];
        expected_audio_len += audio.len();
        service.on_chunk_outcome(&mut run, Ok(audio)).unwrap();
    }
    assert_eq!(total_chunk_bytes, 9500);

    let history = service.get_usage_history(10, None).unwrap();
    assert_eq!(history.len(), 3);
    for rec in &history {
        assert!(rec.success);
        assert_eq!(rec.voice_id, "alloy".to_string());
        assert_eq!(rec.model_id, "tts-1-hd".to_string());
    }

    let out = service.finish_generation(run).unwrap();
    assert_eq!(out.len(), expected_audio_len);
    assert_eq!(out.len(), 9500);
}

#[test]
fn failed_chunk_is_recorded_and_surfaced_with_earlier_progress_kept() {
    let mut service = TTSService::with_database("test-key", "https://api.openai.com").unwrap();
    let sentence = "b".repeat(98) + ". ";
    let text = sentence.repeat(95);
    let mut run = service
        .start_generation(&text, "nova", "tts-1")
        .unwrap();
    assert_eq!(run.chunk_count(), 3);

    let first = run.next_chunk().unwrap();
    service
        .on_chunk_outcome(&mut run, Ok(vec![1u8; first.len()]))
        .unwrap();
    let err = service
        .on_chunk_outcome(&mut run, Err(TTSError::NetworkError("gone".to_string())))
        .unwrap_err();
    match err {
        TTSError::NetworkError(msg) => assert_eq!(msg, "gone".to_string()),
        _ => panic!("the chunk's error must be surfaced verbatim"),
    }

    // both attempts were recorded, newest first; the first chunk's audio is kept
    let history = service.get_usage_history(10, None).unwrap();
    assert_eq!(history.len(), 2);
    assert!(!history[0].success);
    assert_eq!(
        history[0].error_message,
        Some("Network error: gone".to_string())
    );
    assert!(history[1].success);
    assert!(!run.is_done());
}
