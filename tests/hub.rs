use zoku::codec::Message;
use zoku::hub::{Action, Event, Hub};

const ENTER_ALT: &[u8] = b"\x1b[?1049h";

fn sent_to(acts: &[Action], id: u64) -> Vec<u8> {
    let mut out = Vec::new();
    for a in acts {
        if let Action::Send(c, b) = a {
            if *c == id {
                out.extend_from_slice(b);
            }
        }
    }
    out
}

fn attach(hub: &mut Hub) -> (u64, Vec<Action>) {
    let acts = hub.handle(Event::Connected);
    match acts[0] {
        Action::Attach(id) => (id, acts),
        _ => panic!("no attach"),
    }
}

#[test]
fn echo_round_trip() {
    let mut hub = Hub::new();
    let (a, acts) = attach(&mut hub);
    assert_eq!(acts, vec![Action::Attach(a)]);
    let acts = hub.handle(Event::Input(Message::Data(b"hello\n".to_vec())));
    assert_eq!(acts, vec![Action::WritePty(b"hello\n".to_vec())]);
    let acts = hub.handle(Event::Output(b"hello\n".to_vec()));
    assert_eq!(acts, vec![Action::Send(a, b"hello\n".to_vec())]);
    assert!(hub.handle(Event::Detached(a)).is_empty());
    let (b, acts) = attach(&mut hub);
    assert_ne!(a, b);
    assert_eq!(acts, vec![Action::Attach(b), Action::Send(b, b"hello\n".to_vec())]);
    let acts = hub.handle(Event::Output(b"more".to_vec()));
    assert_eq!(acts, vec![Action::Send(b, b"more".to_vec())]);
}

#[test]
fn late_join_gets_alternate_snapshot() {
    let mut hub = Hub::new();
    let mut out = b"A\n".to_vec();
    out.extend_from_slice(ENTER_ALT);
    out.extend_from_slice(b"inside");
    assert!(hub.handle(Event::Output(out.clone())).is_empty());
    let (c, acts) = attach(&mut hub);
    assert_eq!(sent_to(&acts, c), out);
}

#[test]
fn resize_propagation() {
    let mut hub = Hub::new();
    let _ = attach(&mut hub);
    let acts = hub.handle(Event::Input(Message::Resize(30, 100)));
    assert_eq!(acts, vec![Action::ResizePty(30, 100)]);
}

#[test]
fn slow_client_receives_every_chunk_in_order() {
    let mut hub = Hub::new();
    let (e, _) = attach(&mut hub);
    let (f, _) = attach(&mut hub);
    let mut all = Vec::new();
    let mut expected = Vec::new();
    for i in 0..1500u32 {
        let chunk = format!("chunk {}\n", i).into_bytes();
        expected.extend_from_slice(&chunk);
        let acts = hub.handle(Event::Output(chunk.clone()));
        assert_eq!(acts, vec![Action::Send(e, chunk.clone()), Action::Send(f, chunk)]);
        all.extend(acts);
    }
    assert_eq!(sent_to(&all, e), expected);
    assert_eq!(sent_to(&all, f), expected);
}

#[test]
fn snapshot_then_live_for_late_client() {
    let mut hub = Hub::new();
    let (a, _) = attach(&mut hub);
    let mut log = hub.handle(Event::Output(b"one\ntw".to_vec()));
    let (b, acts) = attach(&mut hub);
    log.extend(acts);
    log.extend(hub.handle(Event::Output(b"o\nthree".to_vec())));
    assert_eq!(sent_to(&log, a), b"one\ntwo\nthree".to_vec());
    assert_eq!(sent_to(&log, b), b"one\ntwo\nthree".to_vec());
    assert_eq!(
        log[log.len() - 2..].to_vec(),
        vec![Action::Send(a, b"o\nthree".to_vec()), Action::Send(b, b"o\nthree".to_vec())]
    );
}

#[test]
fn detached_client_is_dropped_from_broadcast() {
    let mut hub = Hub::new();
    let (a, _) = attach(&mut hub);
    let (b, _) = attach(&mut hub);
    let (c, _) = attach(&mut hub);
    assert!(hub.handle(Event::Detached(b)).is_empty());
    let acts = hub.handle(Event::Output(b"x".to_vec()));
    assert_eq!(acts, vec![Action::Send(a, b"x".to_vec()), Action::Send(c, b"x".to_vec())]);
}

#[test]
fn exit_shuts_down_and_stays_quiet() {
    let mut hub = Hub::new();
    let _ = attach(&mut hub);
    assert!(!hub.is_closed());
    assert_eq!(hub.handle(Event::Exited), vec![Action::Shutdown]);
    assert!(hub.is_closed());
    assert!(hub.handle(Event::Output(b"late".to_vec())).is_empty());
    assert!(hub.handle(Event::Input(Message::Data(b"k".to_vec()))).is_empty());
    assert!(hub.handle(Event::Exited).is_empty());
    assert_eq!(hub.handle(Event::Connected), vec![Action::Refuse]);
}

#[test]
fn one_terminal_write_per_event() {
    let mut hub = Hub::new();
    let _ = attach(&mut hub);
    let _ = attach(&mut hub);
    let events = vec![
        Event::Input(Message::Data(b"abc".to_vec())),
        Event::Input(Message::Resize(10, 20)),
        Event::Output(b"abc".to_vec()),
        Event::Connected,
    ];
    for ev in events {
        let acts = hub.handle(ev);
        let writes = acts
            .iter()
            .filter(|a| matches!(a, Action::WritePty(_) | Action::ResizePty(_, _)))
            .count();
        assert!(writes <= 1);
    }
}
