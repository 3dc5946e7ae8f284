use liveion_core::uploader::{presign_answer, PresignFailure, PresignResponse};
use std::path::Path;

use liveion_core::uploader::{
    backoff_delay_ms, backoff_ts, failed_attempt, is_success_status, request_headers, retry_at,
    tmp_path_for, PingPlan, UploadConfig, UploadEntry, UploadManager, UploadOutcome,
};

fn config(url: &str, token: &str) -> UploadConfig {
    UploadConfig {
        local_dir: String::from("/var/rec"),
        queue_path: String::from("/var/rec/queue.jsonl"),
        liveman_url: String::from(url),
        liveman_token: String::from(token),
        concurrency: 0,
        interval_ms: 100,
        presign_ttl_seconds: 10,
    }
}

fn entry(id: &str, next: i64) -> UploadEntry {
    UploadEntry {
        id: String::from(id),
        object_key: format!("key-{id}"),
        local_path: format!("/var/rec/{id}.mp4"),
        retry_count: 0,
        next_retry_at: next,
    }
}

fn ids(m: &UploadManager) -> Vec<String> {
    m.queue_snapshot().into_iter().map(|e| e.id).collect()
}

#[test]
fn load_keeps_last_entry_per_id() {
    let mut second = entry("a", 50);
    second.retry_count = 2;
    let m = UploadManager::load(config("", ""), vec![entry("a", 0), entry("b", 0), second]);
    assert_eq!(ids(&m), vec!["a", "b"]);
    let snapshot = m.queue_snapshot();
    assert_eq!(snapshot[0].retry_count, 2);
    assert_eq!(snapshot[0].next_retry_at, 50);
    let again = UploadManager::load(config("", ""), m.queue_snapshot());
    assert_eq!(ids(&again), ids(&m));
}

#[test]
fn settings_have_floors() {
    let m = UploadManager::load(config("", ""), Vec::new());
    assert_eq!(m.local_dir(), "/var/rec");
    assert_eq!(m.concurrency_limit(), 1);
    assert_eq!(m.poll_interval_ms(), 500);
    let mut cfg = config("", "");
    cfg.concurrency = 4;
    cfg.interval_ms = 2000;
    let m = UploadManager::load(cfg, Vec::new());
    assert_eq!(m.concurrency_limit(), 4);
    assert_eq!(m.poll_interval_ms(), 2000);
}

#[test]
fn enqueue_at_makes_fresh_entry() {
    let mut m = UploadManager::load(config("", ""), Vec::new());
    m.enqueue_at(String::from("cam/seg1.mp4"), String::from("/var/rec/seg1.mp4"), 1700000000123);
    let q = m.queue_snapshot();
    assert_eq!(q.len(), 1);
    assert_eq!(q[0].id, "cam/seg1.mp4:1700000000123");
    assert_eq!(q[0].object_key, "cam/seg1.mp4");
    assert_eq!(q[0].local_path, "/var/rec/seg1.mp4");
    assert_eq!(q[0].retry_count, 0);
    assert_eq!(q[0].next_retry_at, 0);
}

#[test]
fn enqueue_uses_the_clock() {
    let mut m = UploadManager::load(config("", ""), Vec::new());
    m.enqueue(String::from("k"), String::from("/p"));
    let q = m.queue_snapshot();
    assert_eq!(q.len(), 1);
    let millis: i64 = q[0].id.strip_prefix("k:").unwrap().parse().unwrap();
    assert!(millis > 1_600_000_000_000);
    assert_eq!(m.due_entries().len(), 1);
}

#[test]
fn due_entries_pick_the_due_ones_in_order() {
    let m = UploadManager::load(
        config("", ""),
        vec![entry("a", 100), entry("b", 0), entry("c", 300), entry("d", 200)],
    );
    let due: Vec<String> = m.due_entries_at(200).into_iter().map(|e| e.id).collect();
    assert_eq!(due, vec!["a", "b", "d"]);
    assert!(m.due_entries_at(-1).is_empty());
}

#[test]
fn update_and_remove_entries() {
    let mut m = UploadManager::load(config("", ""), vec![entry("a", 0), entry("b", 0)]);
    let mut changed = entry("a", 99);
    changed.retry_count = 1;
    m.update_entry(changed);
    m.update_entry(entry("c", 0));
    assert_eq!(ids(&m), vec!["a", "b", "c"]);
    assert_eq!(m.queue_snapshot()[0].next_retry_at, 99);
    m.remove_entry("b");
    m.remove_entry("zzz");
    assert_eq!(ids(&m), vec!["a", "c"]);
}

#[test]
fn backoff_doubles_and_caps() {
    assert_eq!(backoff_delay_ms(0), 5000);
    assert_eq!(backoff_delay_ms(1), 10000);
    assert_eq!(backoff_delay_ms(2), 20000);
    assert_eq!(backoff_delay_ms(6), 320000);
    assert_eq!(backoff_delay_ms(7), 600000);
    assert_eq!(backoff_delay_ms(10), 600000);
    assert_eq!(backoff_delay_ms(u32::MAX), 600000);
    for r in 0..20u32 {
        assert!(backoff_delay_ms(r) <= backoff_delay_ms(r + 1));
    }
    assert_eq!(retry_at(3, 1000), 41000);
    assert!(backoff_ts(1) > 1_600_000_000_000);
}

#[test]
fn failed_attempt_reschedules() {
    let e = entry("a", 0);
    let r = failed_attempt(e, 1_000_000);
    assert_eq!(r.id, "a");
    assert_eq!(r.retry_count, 1);
    assert_eq!(r.next_retry_at, 1_010_000);
}

#[test]
fn finish_upload_success_removes() {
    let mut m = UploadManager::load(config("", ""), vec![entry("a", 0), entry("b", 0)]);
    let out = m.finish_upload(entry("a", 0), 200);
    assert!(matches!(out, UploadOutcome::Uploaded));
    assert_eq!(ids(&m), vec!["b"]);
}

#[test]
fn finish_upload_failure_retries_later() {
    let mut m = UploadManager::load(config("", ""), vec![entry("a", 0)]);
    let out = m.finish_upload(entry("a", 0), 503);
    match out {
        UploadOutcome::Retry(e) => {
            assert_eq!(e.retry_count, 1);
            assert!(e.next_retry_at > 1_600_000_000_000 + 10000);
        }
        UploadOutcome::Uploaded => panic!("a 503 is no success"),
    }
    let q = m.queue_snapshot();
    assert_eq!(q.len(), 1);
    assert_eq!(q[0].retry_count, 1);
    assert!(m.due_entries_at(0).is_empty());
}

#[test]
fn status_success_range() {
    assert!(is_success_status(200));
    assert!(is_success_status(204));
    assert!(is_success_status(299));
    assert!(!is_success_status(199));
    assert!(!is_success_status(300));
    assert!(!is_success_status(503));
    assert!(!is_success_status(42));
}

#[test]
fn ping_is_skipped_without_address() {
    let m = UploadManager::load(config("   ", "t"), Vec::new());
    assert!(matches!(m.ping_plan_at(10_000), PingPlan::Unavailable));
    assert!(matches!(m.ping_plan(), PingPlan::Unavailable));
}

#[test]
fn ping_goes_to_storage_route_with_token() {
    let m = UploadManager::load(config("http://liveman:8888//", "secret"), Vec::new());
    match m.ping_plan_at(10_000) {
        PingPlan::Send { call, started_at } => {
            assert_eq!(call.url, "http://liveman:8888/api/storage/ping");
            assert_eq!(call.authorization.as_deref(), Some("Bearer secret"));
            assert_eq!(started_at, 10_000);
        }
        PingPlan::Unavailable => panic!("should ping"),
    }
    let m = UploadManager::load(config("http://liveman", ""), Vec::new());
    match m.ping_plan() {
        PingPlan::Send { call, .. } => assert_eq!(call.authorization, None),
        PingPlan::Unavailable => panic!("should ping"),
    }
}

#[test]
fn failed_ping_holds_for_five_seconds() {
    let mut m = UploadManager::load(config("http://liveman", ""), Vec::new());
    assert!(!m.record_ping(10_000, Some(503)));
    assert!(matches!(m.ping_plan_at(10_000), PingPlan::Unavailable));
    assert!(matches!(m.ping_plan_at(14_999), PingPlan::Unavailable));
    assert!(matches!(m.ping_plan_at(15_000), PingPlan::Send { .. }));
    assert!(!m.record_ping(20_000, None));
    assert!(matches!(m.ping_plan_at(21_000), PingPlan::Unavailable));
    assert!(m.record_ping(22_000, Some(200)));
    assert!(matches!(m.ping_plan_at(22_001), PingPlan::Send { .. }));
}

#[test]
fn presign_request_for_upload() {
    let m = UploadManager::load(config("http://liveman/", "tok"), Vec::new());
    let (call, req) = m.presign_put("cam/seg1.mp4");
    assert_eq!(call.url, "http://liveman/api/storage/presign");
    assert_eq!(call.authorization.as_deref(), Some("Bearer tok"));
    assert_eq!(req.method, "PUT");
    assert_eq!(req.path, "cam/seg1.mp4");
    assert_eq!(req.ttl_seconds, 30);
    let mut cfg = config("http://liveman", "");
    cfg.presign_ttl_seconds = 600;
    let m = UploadManager::load(cfg, Vec::new());
    assert_eq!(m.presign_put("x").1.ttl_seconds, 600);
}

#[test]
fn request_headers_drop_invalid_ones() {
    let headers = vec![
        (String::from("Content-Type"), String::from("video/mp4")),
        (String::from("bad header"), String::from("x")),
        (String::from("x-amz-date"), String::from("bad\nvalue")),
        (String::from("X-Amz-Meta"), String::from("caf\u{e9}\tok")),
        (String::new(), String::from("v")),
    ];
    let kept = request_headers(&headers);
    assert_eq!(
        kept,
        vec![
            (String::from("Content-Type"), String::from("video/mp4")),
            (String::from("X-Amz-Meta"), String::from("caf\u{e9}\tok")),
        ]
    );
}

#[test]
fn tmp_path_appends_tmp_to_file_name() {
    assert_eq!(tmp_path_for("/var/rec/queue.jsonl"), "/var/rec/queue.jsonl.tmp");
    assert_eq!(tmp_path_for("queue"), "queue.tmp");
    assert_eq!(tmp_path_for(".queue"), ".queue.tmp");
    assert_eq!(tmp_path_for("dir/queue.json/"), "dir/queue.json.tmp");
    assert_eq!(tmp_path_for("dir/q/."), "dir/q.tmp");
    assert_eq!(tmp_path_for("name."), "name..tmp");
    assert_eq!(tmp_path_for("/"), "/");
    assert_eq!(tmp_path_for(""), "");
    assert_eq!(tmp_path_for("a/.."), "a/..");
    assert_eq!(tmp_path_for("."), ".");
}

#[test]
fn tmp_path_agrees_with_std_path() {
    for p in ["/var/rec/queue.jsonl", "queue", ".queue", "dir/queue.json/", "dir/q/.", "name.", "/", "a/..", "x/y.tar.gz", "..."] {
        let path = Path::new(p);
        let mut tmp = path.to_path_buf();
        if let Some(ext) = path.extension() {
            let mut ext = ext.to_os_string();
            ext.push(".tmp");
            tmp.set_extension(ext);
        } else {
            tmp.set_extension("tmp");
        }
        assert_eq!(tmp_path_for(p), tmp.to_str().unwrap(), "path {p}");
    }
}

#[test]
fn presign_answer_cases() {
    let answer = || PresignResponse {
        url: String::from("https://bucket/obj?sig=1"),
        headers: vec![(String::from("x-amz-acl"), String::from("private"))],
    };
    match presign_answer(200, Some(answer())) {
        Ok(r) => {
            assert_eq!(r.url, "https://bucket/obj?sig=1");
            assert_eq!(r.headers.len(), 1);
        }
        Err(_) => panic!("a 200 with a body is an answer"),
    }
    assert!(matches!(presign_answer(503, Some(answer())), Err(PresignFailure::Refused(503))));
    assert!(matches!(presign_answer(404, None), Err(PresignFailure::Refused(404))));
    assert!(matches!(presign_answer(201, None), Err(PresignFailure::Unreadable)));
}

#[test]
fn snapshot_lists_each_entry_once() {
    let m = UploadManager::load(
        config("", ""),
        vec![entry("a", 0), entry("b", 5), entry("a", 7), entry("b", 9), entry("c", 0)],
    );
    let snapshot = m.queue_snapshot();
    assert_eq!(snapshot.len(), 3);
    let due: Vec<String> = m.due_entries_at(7).into_iter().map(|e| e.id).collect();
    assert_eq!(due, vec!["a", "c"]);
}
