use zoku::replay::{Replay, REPLAY_LINES};

const ENTER_ALT: &[u8] = b"\x1b[?1049h";
const LEAVE_ALT: &[u8] = b"\x1b[?1049l";

fn snapshot(r: &Replay) -> Vec<u8> {
    r.replay().concat()
}

fn cat(parts: &[&[u8]]) -> Vec<u8> {
    parts.concat()
}

#[test]
fn empty_buffer_has_empty_snapshot() {
    let r = Replay::default();
    assert!(r.replay().is_empty());
    assert_eq!(r.usage(), (0, 0));
    assert!(!r.is_alternate());
}

#[test]
fn lines_are_split_after_line_feeds() {
    let r = Replay::new().feed(b"one\ntwo\nthr");
    assert_eq!(r.replay(), vec![b"one\n".to_vec(), b"two\n".to_vec(), b"thr".to_vec()]);
    let r = r.feed(b"ee\n");
    assert_eq!(r.replay(), vec![b"one\n".to_vec(), b"two\n".to_vec(), b"three\n".to_vec()]);
    assert_eq!(r.usage(), (3, 0));
}

#[test]
fn late_join_after_alternate() {
    let r = Replay::new().feed(&cat(&[b"A\n", ENTER_ALT, b"inside"]));
    assert!(r.is_alternate());
    assert_eq!(snapshot(&r), cat(&[b"A\n", ENTER_ALT, b"inside"]));
    assert_eq!(r.usage(), (1, 6));
}

#[test]
fn late_join_after_leave_alternate() {
    let r = Replay::new()
        .feed(&cat(&[b"A\n", ENTER_ALT, b"inside"]))
        .feed(&cat(&[LEAVE_ALT, b"B\n"]));
    assert!(!r.is_alternate());
    assert_eq!(snapshot(&r), b"A\nB\n".to_vec());
    assert_eq!(r.replay(), vec![b"A\n".to_vec(), b"B\n".to_vec()]);
}

#[test]
fn replay_line_bound_keeps_newest_lines() {
    let mut out = Vec::new();
    for i in 0..REPLAY_LINES + 1000 {
        out.extend_from_slice(format!("line {}\n", i).as_bytes());
    }
    let r = Replay::new().feed(&out);
    let lines = r.replay();
    assert_eq!(lines.len(), REPLAY_LINES);
    assert_eq!(lines[0], b"line 1000\n".to_vec());
    assert_eq!(lines[REPLAY_LINES - 1], format!("line {}\n", REPLAY_LINES + 999).into_bytes());
    assert_eq!(r.usage(), (REPLAY_LINES, 0));
}

#[test]
fn line_count_never_exceeds_bound_while_feeding() {
    let mut r = Replay::new();
    for _ in 0..(REPLAY_LINES + 10) {
        r = r.feed(b"x\n");
        assert!(r.usage().0 <= REPLAY_LINES);
    }
    assert_eq!(r.usage().0, REPLAY_LINES);
}

#[test]
fn enter_then_leave_restores_lines() {
    let r = Replay::new().feed(b"first\nsecond");
    let before = r.replay();
    let r = r.feed(&cat(&[ENTER_ALT, LEAVE_ALT]));
    assert!(!r.is_alternate());
    assert_eq!(r.replay(), before);
    let r = Replay::new().feed(b"closed\n");
    let before = r.replay();
    let r = r.feed(&cat(&[ENTER_ALT, LEAVE_ALT]));
    assert_eq!(r.replay(), before);
}

#[test]
fn mode_follows_last_switch_sequence() {
    let r = Replay::new().feed(&cat(&[ENTER_ALT, b"x", ENTER_ALT, b"y"]));
    assert!(r.is_alternate());
    assert_eq!(snapshot(&r), cat(&[ENTER_ALT, b"xy"]));
    let r = r.feed(LEAVE_ALT);
    assert!(!r.is_alternate());
    let r = Replay::new().feed(&cat(&[b"a", LEAVE_ALT]));
    assert!(!r.is_alternate());
    assert_eq!(snapshot(&r), cat(&[b"a", LEAVE_ALT]));
}

#[test]
fn marker_split_across_reads_is_recognised() {
    let whole = cat(&[b"top\n", ENTER_ALT, b"screen"]);
    let mut r = Replay::new();
    for b in &whole {
        r = r.feed(&[*b]);
    }
    assert!(r.is_alternate());
    assert_eq!(snapshot(&r), snapshot(&Replay::new().feed(&whole)));
}

#[test]
fn alternate_bytes_are_dropped_on_leave() {
    let r = Replay::new().feed(&cat(&[ENTER_ALT, b"full screen app"]));
    assert_eq!(r.usage(), (0, 15));
    let r = r.feed(LEAVE_ALT);
    assert_eq!(r.usage(), (0, 0));
    assert!(r.replay().is_empty());
}
