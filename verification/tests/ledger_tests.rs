//! The usage ledger: recording, aggregation, listing, caching, retention.

use tts_player::ledger::{Ledger, UsageRecord, UserInfo};

const DAY: i64 = 86400;

fn record(ts: i64, voice: &str, chars: i32, success: bool) -> UsageRecord {
    UsageRecord {
        id: None,
        timestamp: ts,
        text: b"hello".to_vec(),
        character_count: chars,
        voice_id: voice.to_string(),
        model_id: "tts-1-hd".to_string(),
        success,
        error_message: if success { None } else { Some("boom".to_string()) },
    }
}

#[test]
fn most_used_voice_wins_by_count() {
    let mut ledger = Ledger::new();
    let now = 100 * DAY;
    ledger.record_usage(record(now - 50, "A", 10, true));
    ledger.record_usage(record(now - 40, "B", 10, true));
    ledger.record_usage(record(now - 30, "A", 10, true));
    ledger.record_usage(record(now - 20, "B", 10, true));
    ledger.record_usage(record(now - 10, "A", 10, true));
    let stats = ledger.get_usage_stats(7, now, "alloy");
    assert_eq!(stats.most_used_voice, "A".to_string());
    assert_eq!(stats.total_requests, 5);
    assert_eq!(stats.successful_requests + stats.failed_requests, stats.total_requests);
}

#[test]
fn success_and_failure_counts_partition_the_total() {
    let mut ledger = Ledger::new();
    let now = 200 * DAY;
    for i in 0..5i64 {
        let voice = if i % 2 == 0 { "rachel" } else { "adam" };
        ledger.record_usage(record(now - 100 + i, voice, 10 + i as i32, i != 2));
    }
    let stats = ledger.get_usage_stats(7, now, "alloy");
    assert_eq!(stats.total_requests, 5);
    assert_eq!(stats.successful_requests, 4);
    assert_eq!(stats.failed_requests, 1);
    assert_eq!(stats.most_used_voice, "rachel".to_string());
    assert_eq!(stats.total_characters, 10 + 11 + 12 + 13 + 14);
}

#[test]
fn empty_window_reports_the_default_voice_and_zeroes() {
    let ledger = Ledger::new();
    let stats = ledger.get_usage_stats(30, 300 * DAY, "alloy");
    assert_eq!(stats.total_requests, 0);
    assert_eq!(stats.total_characters, 0);
    assert_eq!(stats.successful_requests, 0);
    assert_eq!(stats.failed_requests, 0);
    // the caller's primary voice is the empty-window default
    assert_eq!(stats.most_used_voice, "alloy".to_string());
    assert!(stats.daily_usage.is_empty());
}

#[test]
fn records_outside_the_window_are_not_counted() {
    let mut ledger = Ledger::new();
    let now = 400 * DAY;
    ledger.record_usage(record(now - 10 * DAY, "old", 100, true));
    ledger.record_usage(record(now - 1, "new", 7, true));
    let stats = ledger.get_usage_stats(7, now, "alloy");
    assert_eq!(stats.total_requests, 1);
    assert_eq!(stats.total_characters, 7);
    assert_eq!(stats.most_used_voice, "new".to_string());
}

#[test]
fn daily_rollup_groups_by_day_newest_first() {
    let mut ledger = Ledger::new();
    let now = 500 * DAY + 1000;
    // two records the day before yesterday, one yesterday
    ledger.record_usage(record(now - 2 * DAY, "a", 10, true));
    ledger.record_usage(record(now - 2 * DAY + 5, "a", 20, true));
    ledger.record_usage(record(now - DAY, "a", 40, true));
    let stats = ledger.get_usage_stats(7, now, "alloy");
    assert_eq!(stats.daily_usage.len(), 2);
    assert_eq!(stats.daily_usage[0].date, 499);
    assert_eq!(stats.daily_usage[0].character_count, 40);
    assert_eq!(stats.daily_usage[0].request_count, 1);
    assert_eq!(stats.daily_usage[1].date, 498);
    assert_eq!(stats.daily_usage[1].character_count, 30);
    assert_eq!(stats.daily_usage[1].request_count, 2);
}

#[test]
fn listing_is_newest_first_and_limited() {
    let mut ledger = Ledger::new();
    let now = 600 * DAY;
    let id1 = ledger.record_usage(record(now - 30, "a", 1, true));
    let id2 = ledger.record_usage(record(now - 20, "b", 2, true));
    let id3 = ledger.record_usage(record(now - 10, "c", 3, true));
    assert!(id1 > 0 && id2 > id1 && id3 > id2);
    let all = ledger.get_usage_records(10, None, now);
    assert_eq!(all.len(), 3);
    assert_eq!(all[0].voice_id, "c".to_string());
    assert_eq!(all[1].voice_id, "b".to_string());
    assert_eq!(all[2].voice_id, "a".to_string());
    let limited = ledger.get_usage_records(2, None, now);
    assert_eq!(limited.len(), 2);
    assert_eq!(limited[0].voice_id, "c".to_string());
    let windowed = ledger.get_usage_records(10, Some(0), now);
    assert!(windowed.is_empty());
}

#[test]
fn out_of_order_inserts_are_listed_by_timestamp() {
    let mut ledger = Ledger::new();
    let now = 700 * DAY;
    ledger.record_usage(record(now - 10, "late", 1, true));
    ledger.record_usage(record(now - 30, "early", 1, true));
    let all = ledger.get_usage_records(10, None, now);
    assert_eq!(all[0].voice_id, "late".to_string());
    assert_eq!(all[1].voice_id, "early".to_string());
}

#[test]
fn cleanup_removes_only_records_older_than_the_window() {
    let mut ledger = Ledger::new();
    let now = 800 * DAY;
    ledger.record_usage(record(now - 20 * DAY, "a", 1, true));
    ledger.record_usage(record(now - 15 * DAY, "b", 1, true));
    ledger.record_usage(record(now - 1 * DAY, "c", 1, true));
    let removed = ledger.cleanup_old_records(10, now);
    assert_eq!(removed, 2);
    let left = ledger.get_usage_records(10, None, now);
    assert_eq!(left.len(), 1);
    assert_eq!(left[0].voice_id, "c".to_string());
}

#[test]
fn account_cache_is_a_single_overwritten_row() {
    let mut ledger = Ledger::new();
    assert!(ledger.get_cached_user_info().is_none());
    ledger.cache_user_info(UserInfo {
        subscription_tier: "Pay-per-use".to_string(),
        character_limit: -1,
        character_used: 10,
        characters_remaining: -1,
        reset_date: 1,
        last_updated: 1,
    });
    ledger.cache_user_info(UserInfo {
        subscription_tier: "Pay-per-use".to_string(),
        character_limit: -1,
        character_used: 99,
        characters_remaining: -1,
        reset_date: 2,
        last_updated: 2,
    });
    let cached = ledger.get_cached_user_info().unwrap();
    assert_eq!(cached.character_used, 99);
    assert_eq!(cached.last_updated, 2);
}

#[test]
fn identities_grow_and_survive_cleanup() {
    let mut ledger = Ledger::new();
    let now = 900 * DAY;
    let id1 = ledger.record_usage(record(now - 20 * DAY, "a", 1, true));
    ledger.cleanup_old_records(10, now);
    let id2 = ledger.record_usage(record(now - 1, "b", 1, true));
    assert!(id2 > id1);
}
