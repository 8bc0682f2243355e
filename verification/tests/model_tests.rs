use ytq::model::{Config, Mode, Video, VideoMeta};
use ytq::store::{load_config, save_config};
use ytq::text::{chars_to_string, to_chars};

#[test]
fn mode_default_is_queue() {
    assert_eq!(Mode::default(), Mode::Queue);
}

#[test]
fn config_default_values() {
    let cfg = Config::default();
    assert_eq!(cfg.mode, Mode::Queue);
    assert!(cfg.offline);
    assert!(cfg.youtube_api_key.is_none());
}

#[test]
fn config_serde_roundtrip() {
    let cfg = Config {
        mode: Mode::Stack,
        offline: false,
        youtube_api_key: Some("test-key-123".to_string()),
    };

    let doc = save_config(&cfg);
    let parsed = load_config(&Some(doc));

    assert_eq!(parsed.mode, Mode::Stack);
    assert!(!parsed.offline);
    assert_eq!(parsed.youtube_api_key.as_deref(), Some("test-key-123"));
}

#[test]
fn config_deserialize_with_defaults() {
    // A missing document keeps every backward-compatible default.
    let cfg = load_config(&None);

    assert_eq!(cfg.mode, Mode::Queue);
    assert!(cfg.offline);
    assert!(cfg.youtube_api_key.is_none());
}

#[test]
fn config_deserialize_legacy_mode_only() {
    // A document holding only the mode field still parses; the other
    // fields keep their defaults.
    let cfg = load_config(&Some("s".to_string()));

    assert_eq!(cfg.mode, Mode::Stack);
    assert!(cfg.offline);
    assert!(cfg.youtube_api_key.is_none());
}

#[test]
fn config_corrupt_document_falls_back_to_default() {
    let cfg = load_config(&Some("not a config".to_string()));
    assert_eq!(cfg.mode, Mode::Queue);
    assert!(cfg.offline);
    assert!(cfg.youtube_api_key.is_none());
}

#[test]
fn resolve_api_key_env_takes_precedence() {
    let config_val = Some("config-key".to_string());
    let env_val = Some("env-key".to_string());

    let result = Config::resolve_api_key(env_val, &config_val);
    assert_eq!(result.as_deref(), Some("env-key"));
}

#[test]
fn resolve_api_key_empty_env_falls_back_to_config() {
    let config_val = Some("config-key".to_string());
    let env_val = Some(String::new());

    let result = Config::resolve_api_key(env_val, &config_val);
    assert_eq!(result.as_deref(), Some("config-key"));
}

#[test]
fn resolve_api_key_no_env_falls_back_to_config() {
    let config_val = Some("config-key".to_string());

    let result = Config::resolve_api_key(None, &config_val);
    assert_eq!(result.as_deref(), Some("config-key"));
}

#[test]
fn resolve_api_key_none_when_both_missing() {
    let result = Config::resolve_api_key(None, &None);
    assert!(result.is_none());
}

#[test]
fn video_serde_roundtrip() {
    let video = Video {
        id: "dQw4w9WgXcQ".to_string(),
        url: "https://youtube.com/watch?v=dQw4w9WgXcQ".to_string(),
        added_at: chrono::Utc::now().timestamp(),
    };

    let line = chars_to_string(&ytq::codec::encode_video(&video));
    let parsed = ytq::codec::decode_video(&to_chars(&line)).unwrap();

    assert_eq!(parsed.id, video.id);
    assert_eq!(parsed.url, video.url);
    assert_eq!(parsed.added_at, video.added_at);
}

#[test]
fn video_meta_serde_roundtrip() {
    let meta = VideoMeta {
        id: "dQw4w9WgXcQ".to_string(),
        title: "Never Gonna Give You Up".to_string(),
        channel: "Rick Astley".to_string(),
        channel_id: "UCuAXFkgsw1L7xaCfnd5JJOw".to_string(),
        duration: "PT3M33S".to_string(),
        duration_seconds: 213,
        published_at: chrono::Utc::now().timestamp(),
        category_id: "10".to_string(),
        tags: vec!["rick astley".to_string(), "music".to_string()],
        fetched_at: chrono::Utc::now().timestamp(),
        unavailable: false,
    };

    let line = chars_to_string(&ytq::codec::encode_meta(&meta));
    let parsed = ytq::codec::decode_meta(&to_chars(&line)).unwrap();

    assert_eq!(parsed.id, meta.id);
    assert_eq!(parsed.title, meta.title);
    assert_eq!(parsed.channel, meta.channel);
    assert_eq!(parsed.channel_id, meta.channel_id);
    assert_eq!(parsed.duration, "PT3M33S");
    assert_eq!(parsed.duration_seconds, 213);
    assert_eq!(parsed.category_id, "10");
    assert_eq!(parsed.tags.len(), 2);
    assert!(!parsed.unavailable);
}

#[test]
fn video_meta_unavailable_tombstone() {
    let now = chrono::Utc::now().timestamp();
    let meta = VideoMeta::tombstone("deleted12345", now);

    let line = chars_to_string(&ytq::codec::encode_meta(&meta));
    let parsed = ytq::codec::decode_meta(&to_chars(&line)).unwrap();
    assert!(parsed.unavailable);
    assert_eq!(parsed.id, "deleted12345");
    assert_eq!(parsed.title, "");
}

#[test]
fn video_meta_old_format_fails_to_parse() {
    // A record line missing fields fails to decode.
    let old_line = "abc\tT\tC\t10";
    let result = ytq::codec::decode_meta(&to_chars(old_line));
    assert!(result.is_none());
}

#[test]
fn event_codec_roundtrip() {
    let e = ytq::model::Event {
        timestamp: 1736160000,
        action: ytq::model::Action::Watched,
        video_id: "abc12345678".to_string(),
        time_in_queue_sec: Some(3600),
    };
    let line = ytq::journal::journal_line(&e);
    let parsed = ytq::codec::decode_event(&to_chars(&line)).unwrap();
    assert_eq!(parsed.timestamp, 1736160000);
    assert_eq!(parsed.action, ytq::model::Action::Watched);
    assert_eq!(parsed.video_id, "abc12345678");
    assert_eq!(parsed.time_in_queue_sec, Some(3600));
}

#[test]
fn codec_escapes_separators_in_strings() {
    // Fields holding tabs, newlines, commas and backslashes survive the
    // round trip untouched.
    let meta = VideoMeta {
        id: "dQw4w9WgXcQ".to_string(),
        title: "a\tb\nc,d\\e".to_string(),
        channel: "ch".to_string(),
        channel_id: "ci".to_string(),
        duration: "PT1S".to_string(),
        duration_seconds: 1,
        published_at: 0,
        category_id: "1".to_string(),
        tags: vec!["t,1".to_string(), String::new(), "t\t3".to_string()],
        fetched_at: 0,
        unavailable: false,
    };
    let line = chars_to_string(&ytq::codec::encode_meta(&meta));
    let parsed = ytq::codec::decode_meta(&to_chars(&line)).unwrap();
    assert_eq!(parsed.title, "a\tb\nc,d\\e");
    assert_eq!(parsed.tags, vec!["t,1".to_string(), String::new(), "t\t3".to_string()]);
}

#[test]
fn config_bad_offline_value_is_an_error() {
    let r = ytq::config::apply_config_update(Config::default(), "offline", "maybe");
    assert!(r.is_err());
}

#[test]
fn codec_handles_extreme_timestamps() {
    for ts in [i64::MIN, -1, 0, i64::MAX] {
        let video = Video {
            id: "dQw4w9WgXcQ".to_string(),
            url: "u".to_string(),
            added_at: ts,
        };
        let line = chars_to_string(&ytq::codec::encode_video(&video));
        let parsed = ytq::codec::decode_video(&to_chars(&line)).unwrap();
        assert_eq!(parsed.added_at, ts);
    }
}

#[test]
fn empty_queue_document_round_trips() {
    let doc = ytq::store::encode_queue_doc(&Vec::new());
    assert_eq!(doc, "");
    assert!(ytq::store::load_queue(&Some(doc)).is_empty());
}
