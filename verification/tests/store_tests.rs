use ytq::fetch::{apply_fetch_results, collect_ids_for_scope, dedup_ids, fetch_scope};
use ytq::journal::{journal_line, read_all, segment_file_name};
use ytq::metacache::{load_metadata, save_metadata, MetaCache};
use ytq::config::apply_config_update;
use ytq::model::{Action, Config, Event, Mode, Video, VideoMeta};
use ytq::queue::{peek_slice, queue_add, take_next};
use ytq::store::{
    load_queue, queue_add_step, queue_read_step, queue_take_at_step, queue_take_next_step,
    queue_take_target_step, QueueError,
};

// -- Missing-file tolerance --

#[test]
fn missing_queue_document_is_an_empty_queue() {
    let q = load_queue(&None);
    assert!(q.is_empty());
}

#[test]
fn corrupt_queue_document_is_an_empty_queue() {
    let q = load_queue(&Some("complete garbage\nwith lines".to_string()));
    assert!(q.is_empty());
}

#[test]
fn missing_metadata_document_is_an_empty_cache() {
    let c = load_metadata(&None);
    assert_eq!(c.len(), 0);
}

#[test]
fn corrupt_metadata_document_is_an_empty_cache() {
    let c = load_metadata(&Some("???".to_string()));
    assert_eq!(c.len(), 0);
}

#[test]
fn missing_journal_directory_reads_no_events() {
    let events = read_all(&Vec::new());
    assert!(events.is_empty());
}

// -- FIFO / LIFO selection --

#[test]
fn fifo_selection_drains_in_insertion_order() {
    let mut q: Vec<Video> = Vec::new();
    for (id, t) in [("aaaaaaaaaaa", 1), ("bbbbbbbbbbb", 2), ("ccccccccccc", 3)] {
        assert!(queue_add(&mut q, id, "u", t));
    }
    let mut order = Vec::new();
    while let Some(v) = take_next(&mut q, Mode::Queue) {
        order.push(v.id);
    }
    assert_eq!(order, vec!["aaaaaaaaaaa", "bbbbbbbbbbb", "ccccccccccc"]);
}

#[test]
fn lifo_selection_drains_in_reverse_order() {
    let mut q: Vec<Video> = Vec::new();
    for (id, t) in [("aaaaaaaaaaa", 1), ("bbbbbbbbbbb", 2), ("ccccccccccc", 3)] {
        assert!(queue_add(&mut q, id, "u", t));
    }
    let mut order = Vec::new();
    while let Some(v) = take_next(&mut q, Mode::Stack) {
        order.push(v.id);
    }
    assert_eq!(order, vec!["ccccccccccc", "bbbbbbbbbbb", "aaaaaaaaaaa"]);
}

#[test]
fn duplicate_insertion_is_refused() {
    let mut q: Vec<Video> = Vec::new();
    assert!(queue_add(&mut q, "aaaaaaaaaaa", "u", 1));
    assert!(!queue_add(&mut q, "aaaaaaaaaaa", "u", 2));
    assert_eq!(q.len(), 1);
}

#[test]
fn peek_shows_next_without_removing() {
    let mut q: Vec<Video> = Vec::new();
    queue_add(&mut q, "aaaaaaaaaaa", "u", 1);
    queue_add(&mut q, "bbbbbbbbbbb", "u", 2);
    let fifo = peek_slice(&q, Mode::Queue, 1);
    assert_eq!(fifo.len(), 1);
    assert_eq!(fifo[0].id, "aaaaaaaaaaa");
    let lifo = peek_slice(&q, Mode::Stack, 1);
    assert_eq!(lifo[0].id, "bbbbbbbbbbb");
    assert_eq!(q.len(), 2);
}

// -- Document-level store steps --

#[test]
fn add_step_round_trips_through_the_document() {
    let (doc1, added1) = queue_add_step(&None, "aaaaaaaaaaa", "url-a", 100);
    assert!(added1);
    let (doc2, added2) = queue_add_step(&Some(doc1.clone()), "bbbbbbbbbbb", "url-b", 200);
    assert!(added2);
    let (_, again) = queue_add_step(&Some(doc2.clone()), "aaaaaaaaaaa", "url-a", 300);
    assert!(!again);

    let q = queue_read_step(&Some(doc2));
    assert_eq!(q.len(), 2);
    assert_eq!(q[0].id, "aaaaaaaaaaa");
    assert_eq!(q[0].url, "url-a");
    assert_eq!(q[0].added_at, 100);
    assert_eq!(q[1].id, "bbbbbbbbbbb");
}

#[test]
fn take_target_step_not_found_is_a_domain_error() {
    let (doc, _) = queue_add_step(&None, "aaaaaaaaaaa", "url-a", 100);
    let r = queue_take_target_step(&Some(doc), "zzzzzzzzzzz");
    assert_eq!(r.unwrap_err(), QueueError::NotFound);
}

#[test]
fn take_target_step_on_empty_queue_returns_nothing() {
    let r = queue_take_target_step(&None, "zzzzzzzzzzz").unwrap();
    assert!(r.1.is_none());
}

#[test]
fn take_at_step_selects_by_index_modulo_length() {
    let (doc1, _) = queue_add_step(&None, "aaaaaaaaaaa", "u", 1);
    let (doc2, _) = queue_add_step(&Some(doc1), "bbbbbbbbbbb", "u", 2);
    let (doc3, taken) = queue_take_at_step(&Some(doc2), 3);
    assert_eq!(taken.unwrap().id, "bbbbbbbbbbb");
    let q = queue_read_step(&Some(doc3));
    assert_eq!(q.len(), 1);
    assert_eq!(q[0].id, "aaaaaaaaaaa");
}

// -- The concrete insert-then-consume scenario --

#[test]
fn insert_then_consume_yields_queued_and_watched_events() {
    let t0: i64 = 1736160000;
    let t1: i64 = t0 + 4200;

    // Insert at t0, under the lock.
    let (doc, added) = queue_add_step(&None, "abc12345678", "url", t0);
    assert!(added);
    let queued = Event::queued("abc12345678", t0);
    let line0 = journal_line(&queued);

    // Consume via FIFO selection at t1.
    let (doc_after, taken) = queue_take_next_step(&Some(doc), Mode::Queue);
    let video = taken.unwrap();
    assert_eq!(video.id, "abc12345678");
    let watched = Event::watched(&video, t1);
    assert_eq!(watched.time_in_queue_sec, Some(t1 - t0));
    let line1 = journal_line(&watched);

    // The queue is empty afterward.
    let q = queue_read_step(&Some(doc_after));
    assert!(q.is_empty());

    // The journal holds one Queued event at t0 and one Watched at t1.
    let seg = format!("{line0}\n{line1}\n");
    let events = read_all(&vec![seg]);
    assert_eq!(events.len(), 2);
    assert_eq!(events[0].action, Action::Queued);
    assert_eq!(events[0].timestamp, t0);
    assert_eq!(events[1].action, Action::Watched);
    assert_eq!(events[1].timestamp, t1);
    assert_eq!(events[1].time_in_queue_sec, Some(t1 - t0));
}

// -- Journal corruption tolerance and ordering --

#[test]
fn corrupting_one_line_loses_exactly_that_event() {
    let mut lines = Vec::new();
    for k in 0..5i64 {
        let e = Event::queued("abc12345678", 1000 + k);
        lines.push(journal_line(&e));
    }
    // Corrupt the middle line.
    lines[2] = "<<corrupted>>".to_string();
    let doc = lines.join("\n");
    let events = read_all(&vec![doc]);
    assert_eq!(events.len(), 4);
    let stamps: Vec<i64> = events.iter().map(|e| e.timestamp).collect();
    assert_eq!(stamps, vec![1000, 1001, 1003, 1004]);
}

#[test]
fn read_all_sorts_across_segments_by_timestamp() {
    let newer = journal_line(&Event::queued("abc12345678", 5000));
    let older = journal_line(&Event::skipped("abc12345678", 1000));
    let middle = journal_line(&Event::queued("xyz98765432", 3000));
    // Newer segment first: physical order carries no meaning.
    let events = read_all(&vec![format!("{newer}\n"), format!("{older}\n{middle}\n")]);
    let stamps: Vec<i64> = events.iter().map(|e| e.timestamp).collect();
    assert_eq!(stamps, vec![1000, 3000, 5000]);
}

#[test]
fn segment_names_partition_by_calendar_month() {
    // 2026-01-06 12:00:00 UTC.
    assert_eq!(segment_file_name(1767700800), "2026-01.log");
    // 1970-01-01.
    assert_eq!(segment_file_name(0), "1970-01.log");
    // 1999-12-31 23:59:59 UTC.
    assert_eq!(segment_file_name(946684799), "1999-12.log");
}

// -- Metadata cache: upsert and tombstone suppression --

fn meta(id: &str, title: &str) -> VideoMeta {
    VideoMeta {
        id: id.to_string(),
        title: title.to_string(),
        channel: "ch".to_string(),
        channel_id: "ci".to_string(),
        duration: "PT1S".to_string(),
        duration_seconds: 1,
        published_at: 0,
        category_id: "1".to_string(),
        tags: vec![],
        fetched_at: 0,
        unavailable: false,
    }
}

#[test]
fn upsert_overwrites_and_keeps_others() {
    let mut c = MetaCache::new();
    c.insert(meta("aaaaaaaaaaa", "first"));
    c.insert(meta("bbbbbbbbbbb", "other"));
    c.insert(meta("aaaaaaaaaaa", "second"));
    assert_eq!(c.len(), 2);
    assert_eq!(c.get("aaaaaaaaaaa").unwrap().title, "second");
    assert_eq!(c.get("bbbbbbbbbbb").unwrap().title, "other");
}

#[test]
fn metadata_document_round_trips() {
    let mut c = MetaCache::new();
    c.insert(meta("aaaaaaaaaaa", "first"));
    c.insert(VideoMeta::tombstone("bbbbbbbbbbb", 77));
    let doc = save_metadata(&c);
    let back = load_metadata(&Some(doc));
    assert_eq!(back.len(), 2);
    assert_eq!(back.get("aaaaaaaaaaa").unwrap().title, "first");
    assert!(back.get("bbbbbbbbbbb").unwrap().unavailable);
}

#[test]
fn tombstone_suppression() {
    let mut c = MetaCache::new();
    c.insert(VideoMeta::tombstone("xxxxxxxxxxx", 10));
    let ids = vec!["xxxxxxxxxxx".to_string(), "yyyyyyyyyyy".to_string()];

    // Default mode skips the tombstoned id.
    let scope = fetch_scope(&ids, &c, false);
    assert_eq!(scope, vec!["yyyyyyyyyyy".to_string()]);

    // A forced re-fetch includes it.
    let forced = fetch_scope(&ids, &c, true);
    assert_eq!(forced, vec!["xxxxxxxxxxx".to_string(), "yyyyyyyyyyy".to_string()]);
}

#[test]
fn fetch_results_merge_and_tombstone_missing_ids() {
    let mut c = MetaCache::new();
    c.insert(meta("aaaaaaaaaaa", "old title"));
    let requested = vec![
        "aaaaaaaaaaa".to_string(),
        "bbbbbbbbbbb".to_string(),
        "ccccccccccc".to_string(),
    ];
    // The fetch resolved two of the three.
    let fetched = vec![meta("aaaaaaaaaaa", "new title"), meta("bbbbbbbbbbb", "fresh")];
    apply_fetch_results(&mut c, &requested, &fetched, 99);

    assert_eq!(c.get("aaaaaaaaaaa").unwrap().title, "new title");
    assert_eq!(c.get("bbbbbbbbbbb").unwrap().title, "fresh");
    let tomb = c.get("ccccccccccc").unwrap();
    assert!(tomb.unavailable);
    assert_eq!(tomb.fetched_at, 99);
}

#[test]
fn dedup_keeps_first_occurrences() {
    let ids = vec![
        "aaaaaaaaaaa".to_string(),
        "bbbbbbbbbbb".to_string(),
        "aaaaaaaaaaa".to_string(),
    ];
    let d = dedup_ids(&ids);
    assert_eq!(d, vec!["aaaaaaaaaaa".to_string(), "bbbbbbbbbbb".to_string()]);
}

#[test]
fn scope_collection_follows_flags() {
    let queue_ids = vec!["aaaaaaaaaaa".to_string()];
    let history = vec![Event::queued("bbbbbbbbbbb", 1)];

    // Default: queue only.
    let ids = collect_ids_for_scope(&queue_ids, &history, false, false, false);
    assert_eq!(ids, vec!["aaaaaaaaaaa".to_string()]);

    // History only.
    let ids = collect_ids_for_scope(&queue_ids, &history, false, true, false);
    assert_eq!(ids, vec!["bbbbbbbbbbb".to_string()]);

    // All.
    let ids = collect_ids_for_scope(&queue_ids, &history, false, false, true);
    assert_eq!(ids, vec!["aaaaaaaaaaa".to_string(), "bbbbbbbbbbb".to_string()]);
}

#[test]
fn config_update_applies_keys() {
    let cfg = Config::default();
    let cfg = apply_config_update(cfg, "mode", "STACK").unwrap();
    assert_eq!(cfg.mode, Mode::Stack);
    let cfg = apply_config_update(cfg, "offline", "false").unwrap();
    assert!(!cfg.offline);
    let cfg = apply_config_update(cfg, "youtube_api_key", "api-key-123").unwrap();
    assert_eq!(cfg.youtube_api_key.as_deref(), Some("api-key-123"));
    assert!(apply_config_update(Config::default(), "mode", "sideways").is_err());
    assert!(apply_config_update(Config::default(), "colour", "red").is_err());
}
