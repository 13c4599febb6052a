use rtail::follow::{
    is_process_running, ChangeKind, Emission, EventResponse, FollowFile, IdentityToken,
    ProcessProbe, ReopenWait,
};

fn token(inode: u64) -> IdentityToken {
    IdentityToken { device: 1, inode }
}

#[test]
fn session_starts_at_the_end() {
    let s = FollowFile::new(42, token(7), false, true, Some(99));
    assert_eq!(s.position, 42);
    assert_eq!(s.starting_len, 42);
    assert_eq!(s.line_terminator, b'\n');
    assert_eq!(s.terminate_after_pid, Some(99));
    assert!(!s.partial);
}

#[test]
fn separator_only_after_unterminated_content() {
    let s = FollowFile::new(3, token(1), false, false, None);
    assert!(s.needs_separator(b'x'));
    assert!(!s.needs_separator(b'\n'));
    let z = FollowFile::new(3, token(1), true, false, None);
    assert!(!z.needs_separator(0));
    assert!(z.needs_separator(b'\n'));
    let empty = FollowFile::new(0, token(1), false, false, None);
    assert!(!empty.needs_separator(b'x'));
}

#[test]
fn appends_are_emitted_contiguously() {
    let content = b"old\nnew one\nnew two\n";
    let mut s = FollowFile::new(4, token(1), false, false, None);
    let mut out = Vec::new();
    for len in [12u64, 12, 20] {
        let e = s.process_file_change(len);
        assert!(!e.truncated);
        out.extend_from_slice(&content[e.start as usize..e.end as usize]);
        s.note_emitted(&content[e.start as usize..e.end as usize]);
    }
    assert_eq!(out, b"new one\nnew two\n".to_vec());
    assert_eq!(s.position, 20);
    assert!(!s.partial);
}

#[test]
fn partial_record_is_tracked() {
    let mut s = FollowFile::new(0, token(1), false, false, None);
    s.note_emitted(b"abc");
    assert!(s.partial);
    s.note_emitted(b"");
    assert!(s.partial);
    s.note_emitted(b"d\n");
    assert!(!s.partial);
}

#[test]
fn truncation_gives_one_notice_and_one_full_emission() {
    let mut s = FollowFile::new(100, token(1), false, false, None);
    s.note_emitted(b"tail");
    let e = s.process_file_change(30);
    assert_eq!(e, Emission { truncated: true, start: 0, end: 30 });
    assert!(!s.partial);
    assert_eq!(s.position, 30);
    assert_eq!(s.starting_len, 30);
    let again = s.process_file_change(30);
    assert_eq!(again, Emission { truncated: false, start: 30, end: 30 });
    let grown = s.process_file_change(35);
    assert_eq!(grown, Emission { truncated: false, start: 30, end: 35 });
}

#[test]
fn truncation_to_empty_is_noticed() {
    let mut s = FollowFile::new(10, token(1), false, false, None);
    assert_eq!(s.process_file_change(0), Emission { truncated: true, start: 0, end: 0 });
}

#[test]
fn rotation_restarts_from_offset_zero() {
    let mut s = FollowFile::new(500, token(1), false, true, None);
    assert!(!s.reopen_if_rotated(token(1)));
    assert_eq!(s.position, 500);
    assert!(s.reopen_if_rotated(token(2)));
    assert_eq!(s.position, 0);
    assert_eq!(s.identity, token(2));
    let e = s.process_file_change(12);
    assert_eq!(e, Emission { truncated: false, start: 0, end: 12 });
    assert!(s.reopen_if_rotated(IdentityToken { device: 2, inode: 2 }));
}

#[test]
fn rotation_to_empty_file_is_no_truncation() {
    let mut s = FollowFile::new(500, token(1), false, true, None);
    s.note_emitted(b"partial");
    assert!(s.reopen_if_rotated(token(2)));
    assert_eq!(s.position, 0);
    assert_eq!(s.starting_len, 0);
    let e = s.process_file_change(0);
    assert_eq!(e, Emission { truncated: false, start: 0, end: 0 });
    assert!(s.partial);
    let grown = s.process_file_change(5);
    assert_eq!(grown, Emission { truncated: false, start: 0, end: 5 });
}

#[test]
fn events_are_routed() {
    let by_name = FollowFile::new(0, token(1), false, true, None);
    let by_handle = FollowFile::new(0, token(1), false, false, None);
    assert_eq!(by_name.respond_to(ChangeKind::Data, true), EventResponse::ProcessChange);
    assert_eq!(by_name.respond_to(ChangeKind::Name, true), EventResponse::CheckRotation);
    assert_eq!(by_name.respond_to(ChangeKind::Other, true), EventResponse::Ignore);
    assert_eq!(by_name.respond_to(ChangeKind::Data, false), EventResponse::Ignore);
    assert_eq!(by_handle.respond_to(ChangeKind::Name, true), EventResponse::Ignore);
    assert_eq!(by_handle.respond_to(ChangeKind::Data, true), EventResponse::ProcessChange);
}

#[test]
fn missing_file_notice_once() {
    let mut w = ReopenWait::new();
    assert!(w.on_missing());
    assert!(!w.on_missing());
    assert!(!w.on_missing());
}

#[test]
fn liveness_probe_outcomes() {
    assert!(!is_process_running(ProcessProbe::Absent));
    assert!(is_process_running(ProcessProbe::Present));
    assert!(is_process_running(ProcessProbe::Denied));
}
