use liveion_core::routes::{
    cascade_direction, ping_reply, presign_failure_reply, presign_plan, presigned_headers,
    CascadeDirection, PresignOp,
};

#[test]
fn cascade_needs_exactly_one_address() {
    match cascade_direction(None, None) {
        Err(m) => assert_eq!(m, "src and dst cannot be empty at the same time"),
        Ok(_) => panic!("refused"),
    }
    match cascade_direction(Some(String::from("a")), Some(String::from("b"))) {
        Err(m) => assert_eq!(m, "src and dst cannot be non-empty at the same time"),
        Ok(_) => panic!("refused"),
    }
    match cascade_direction(Some(String::from("http://src/whep")), None) {
        Ok(CascadeDirection::Pull(s)) => assert_eq!(s, "http://src/whep"),
        _ => panic!("pull"),
    }
    match cascade_direction(None, Some(String::from("http://dst/whip"))) {
        Ok(CascadeDirection::Push(t)) => assert_eq!(t, "http://dst/whip"),
        _ => panic!("push"),
    }
}

#[test]
fn storage_ping_replies() {
    let r = ping_reply(true);
    assert_eq!((r.status, r.body.as_str()), (200, "ok"));
    let r = ping_reply(false);
    assert_eq!((r.status, r.body.as_str()), (503, "storage not configured"));
}

#[test]
fn presign_plan_cases() {
    match presign_plan(false, "GET", 60) {
        Err(r) => assert_eq!((r.status, r.body.as_str()), (503, "storage not configured")),
        Ok(_) => panic!("no storage"),
    }
    match presign_plan(true, "GET", 10) {
        Ok((PresignOp::Read, ttl)) => assert_eq!(ttl, 30),
        _ => panic!("read"),
    }
    match presign_plan(true, "PUT", 120) {
        Ok((PresignOp::Write, ttl)) => assert_eq!(ttl, 120),
        _ => panic!("write"),
    }
    match presign_plan(true, "DELETE", 120) {
        Err(r) => assert_eq!((r.status, r.body.as_str()), (400, "unsupported method")),
        Ok(_) => panic!("unsupported"),
    }
    assert!(presign_plan(true, "put", 120).is_err());
}

#[test]
fn presign_failure_text() {
    let r = presign_failure_reply("permission denied");
    assert_eq!(r.status, 500);
    assert_eq!(r.body, "presign failed: permission denied");
}

#[test]
fn presigned_header_values_as_text() {
    let headers = vec![
        (String::from("host"), b"bucket.s3".to_vec()),
        (String::from("x-amz-meta"), vec![b'a', 0xe9]),
        (String::from("host"), b"other".to_vec()),
        (String::from("x-tab"), b"a\tb".to_vec()),
    ];
    let t = presigned_headers(&headers);
    assert_eq!(t.len(), 3);
    assert_eq!(t.get("host").map(|s| s.as_str()), Some("other"));
    assert_eq!(t.get("x-amz-meta").map(|s| s.as_str()), Some(""));
    assert_eq!(t.get("x-tab").map(|s| s.as_str()), Some("a\tb"));
}
