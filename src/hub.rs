//! The hub's decisions: which bytes go to which client, what is written to
//! the terminal, and when the session ends.
//!
//! The hub owns the replay buffer and the set of attached clients. The
//! program around it performs each returned action in order and reports what
//! happened as the next event.
use crate::codec::{Message, MessageView};
use crate::replay::{REPLAY_LINES, empty_replay, feed_model, snapshot_chunks, well_formed, Replay, ReplayView};
use vstd::prelude::*;

verus! {

/// Something the hub has to react to.
#[derive(Debug, Clone, PartialEq, Eq)]
pub enum Event {
    /// A client connected and its outbox is ready.
    Connected,
    /// Bytes read from the terminal.
    Output(Vec<u8>),
    /// A message decoded from some client's input.
    Input(Message),
    /// Sending to this client's outbox failed: it has gone.
    Detached(u64),
    /// The program exited or the terminal reached its end.
    Exited,
}

/// Something the hub asks the program around it to do.
#[derive(Debug, Clone, PartialEq, Eq)]
pub enum Action {
    /// File the outbox of the client that just connected under this id.
    Attach(u64),
    /// Close the connection that just arrived: no client can be taken.
    Refuse,
    /// Send bytes to the outbox of this client.
    Send(u64, Vec<u8>),
    /// Write bytes to the terminal.
    WritePty(Vec<u8>),
    /// Set the terminal's window size: rows, then cols.
    ResizePty(u16, u16),
    /// Close every outbox, stop accepting clients, remove the socket and return.
    Shutdown,
}

/// Mathematical model of an [`Event`].
pub enum EventView {
    Connected,
    Output(Seq<u8>),
    Input(MessageView),
    Detached(u64),
    Exited,
}

/// Mathematical model of an [`Action`].
pub enum ActionView {
    Attach(u64),
    Refuse,
    Send(u64, Seq<u8>),
    WritePty(Seq<u8>),
    ResizePty(u16, u16),
    Shutdown,
}

impl View for Event {
    type V = EventView;

    open spec fn view(&self) -> EventView {
        match self {
            Event::Connected => EventView::Connected,
            Event::Output(b) => EventView::Output(b@),
            Event::Input(m) => EventView::Input(m@),
            Event::Detached(id) => EventView::Detached(*id),
            Event::Exited => EventView::Exited,
        }
    }
}

impl View for Action {
    type V = ActionView;

    open spec fn view(&self) -> ActionView {
        match self {
            Action::Attach(id) => ActionView::Attach(*id),
            Action::Refuse => ActionView::Refuse,
            Action::Send(id, b) => ActionView::Send(*id, b@),
            Action::WritePty(b) => ActionView::WritePty(b@),
            Action::ResizePty(r, c) => ActionView::ResizePty(*r, *c),
            Action::Shutdown => ActionView::Shutdown,
        }
    }
}

/// The models of a sequence of actions.
pub open spec fn actions_view(acts: Seq<Action>) -> Seq<ActionView> {
    acts.map_values(|a: Action| a@)
}

/// Model of the hub. `output` (every byte read from the terminal) and
/// `joined` (how much of it had been read when each client attached) are
/// history kept for reasoning only.
pub struct HubView {
    pub replay: ReplayView,
    pub clients: Seq<u64>,
    pub next_id: u64,
    pub closed: bool,
    pub output: Seq<u8>,
    pub joined: Map<u64, nat>,
}

/// The hub before any event.
pub open spec fn initial_hub() -> HubView {
    HubView {
        replay: empty_replay(),
        clients: Seq::empty(),
        next_id: 0,
        closed: false,
        output: Seq::empty(),
        joined: Map::empty(),
    }
}

/// `s` without the id `id`.
pub open spec fn without(s: Seq<u64>, id: u64) -> Seq<u64>
    decreases s.len(),
{
    if s.len() == 0 {
        s
    } else if s.last() == id {
        without(s.drop_last(), id)
    } else {
        without(s.drop_last(), id).push(s.last())
    }
}

/// The same bytes to each of `clients`, in order.
pub open spec fn broadcast(clients: Seq<u64>, b: Seq<u8>) -> Seq<ActionView> {
    clients.map_values(|c: u64| ActionView::Send(c, b))
}

/// Each chunk to one client, in order.
pub open spec fn send_all(id: u64, chunks: Seq<Seq<u8>>) -> Seq<ActionView> {
    chunks.map_values(|c: Seq<u8>| ActionView::Send(id, c))
}

/// The hub after one event, and the actions it asks for.
pub open spec fn hub_step(h: HubView, e: EventView) -> (HubView, Seq<ActionView>) {
    if h.closed {
        (h, if e is Connected { seq![ActionView::Refuse] } else { Seq::empty() })
    } else {
        match e {
            EventView::Connected => {
                if h.next_id == u64::MAX {
                    (h, seq![ActionView::Refuse])
                } else {
                    let id = h.next_id;
                    (
                        HubView {
                            replay: h.replay,
                            clients: h.clients.push(id),
                            next_id: (id + 1) as u64,
                            closed: false,
                            output: h.output,
                            joined: h.joined.insert(id, h.output.len()),
                        },
                        seq![ActionView::Attach(id)] + send_all(id, snapshot_chunks(h.replay)),
                    )
                }
            },
            EventView::Output(b) => (
                HubView {
                    replay: feed_model(h.replay, b),
                    clients: h.clients,
                    next_id: h.next_id,
                    closed: false,
                    output: h.output + b,
                    joined: h.joined,
                },
                broadcast(h.clients, b),
            ),
            EventView::Input(MessageView::Data(b)) => (h, seq![ActionView::WritePty(b)]),
            EventView::Input(MessageView::Resize(r, c)) => (h, seq![ActionView::ResizePty(r, c)]),
            EventView::Detached(id) => (
                HubView {
                    replay: h.replay,
                    clients: without(h.clients, id),
                    next_id: h.next_id,
                    closed: false,
                    output: h.output,
                    joined: h.joined,
                },
                Seq::empty(),
            ),
            EventView::Exited => (
                HubView {
                    replay: h.replay,
                    clients: Seq::empty(),
                    next_id: h.next_id,
                    closed: true,
                    output: h.output,
                    joined: h.joined,
                },
                seq![ActionView::Shutdown],
            ),
        }
    }
}

/// The hub's invariant: the replay buffer is the history of all output, the
/// clients are distinct ids handed out earlier, in the order they attached,
/// each with the point of the output at which it joined, and a closed hub has
/// no clients.
pub open spec fn hub_ok(h: HubView) -> bool {
    &&& well_formed(h.replay)
    &&& h.replay == feed_model(empty_replay(), h.output)
    &&& forall|i: int, j: int|
        0 <= i < j < h.clients.len() ==> #[trigger] h.clients[i] < #[trigger] h.clients[j]
    &&& forall|i: int|
        0 <= i < h.clients.len() ==> {
            &&& #[trigger] h.clients[i] < h.next_id
            &&& h.joined.contains_key(h.clients[i])
            &&& h.joined[h.clients[i]] <= h.output.len()
        }
    &&& h.closed ==> h.clients.len() == 0
}

/// The hub that serves one program for its whole life.
pub struct Hub {
    replay: Replay,
    clients: Vec<u64>,
    next_id: u64,
    closed: bool,
    output: Ghost<Seq<u8>>,
    joined: Ghost<Map<u64, nat>>,
}

impl View for Hub {
    type V = HubView;

    closed spec fn view(&self) -> HubView {
        HubView {
            replay: self.replay@,
            clients: self.clients@,
            next_id: self.next_id,
            closed: self.closed,
            output: self.output@,
            joined: self.joined@,
        }
    }
}

proof fn lemma_without_ok(s: Seq<u64>, id: u64)
    requires
        forall|i: int, j: int| 0 <= i < j < s.len() ==> #[trigger] s[i] < #[trigger] s[j],
    ensures
        forall|i: int, j: int|
            0 <= i < j < without(s, id).len() ==> #[trigger] without(s, id)[i] < #[trigger] without(
                s,
                id,
            )[j],
        forall|x: u64| #[trigger] without(s, id).contains(x) <==> (s.contains(x) && x != id),
    decreases s.len(),
{
    if s.len() > 0 {
        let p = s.drop_last();
        lemma_without_ok(p, id);
        let w = without(p, id);
        assert forall|x: u64| #[trigger] without(s, id).contains(x) <==> (s.contains(x) && x
            != id) by {
            if s.contains(x) && x != id {
                let k = choose|k: int| 0 <= k < s.len() && s[k] == x;
                if k < s.len() - 1 {
                    assert(p[k] == x);
                    assert(w.contains(x));
                    if s.last() != id {
                        let k3 = choose|k: int| 0 <= k < w.len() && w[k] == x;
                        assert(w.push(s.last())[k3] == x);
                    }
                } else {
                    assert(without(s, id).last() == x);
                }
            }
            if without(s, id).contains(x) {
                if s.last() != id && without(s, id).last() == x {
                    assert(s[s.len() - 1] == x);
                } else if s.last() != id {
                    let k = choose|k: int| 0 <= k < without(s, id).len() && without(s, id)[k] == x;
                    assert(w[k] == x);
                    assert(w.contains(x));
                }
                let k2 = choose|k: int| 0 <= k < p.len() && p[k] == x;
                if w.contains(x) {
                    assert(s[k2] == x);
                }
            }
        }
        if s.last() != id {
            let n = w.push(s.last());
            assert forall|i: int, j: int| 0 <= i < j < n.len() implies #[trigger] n[i]
                < #[trigger] n[j] by {
                if j == n.len() - 1 {
                    assert(w.contains(n[i]));
                    let k = choose|k: int| 0 <= k < p.len() && p[k] == n[i];
                    assert(s[k] == n[i]);
                }
            }
        }
    }
}

/// The hub after a sequence of events from the start, and every action it asked for.
pub open spec fn run(evs: Seq<EventView>) -> (HubView, Seq<ActionView>)
    decreases evs.len(),
{
    if evs.len() == 0 {
        (initial_hub(), Seq::empty())
    } else {
        let prev = run(evs.drop_last());
        let next = hub_step(prev.0, evs.last());
        (next.0, prev.1 + next.1)
    }
}

/// The bytes that `acts` send to client `id`, in order.
pub open spec fn sent_to(acts: Seq<ActionView>, id: u64) -> Seq<u8>
    decreases acts.len(),
{
    if acts.len() == 0 {
        Seq::empty()
    } else {
        sent_to(acts.drop_last(), id) + match acts.last() {
            ActionView::Send(c, b) => if c == id {
                b
            } else {
                Seq::empty()
            },
            _ => Seq::empty(),
        }
    }
}

/// The bytes of the replay snapshot taken when the first `j` bytes of `output` had been read.
pub open spec fn snapshot_at(output: Seq<u8>, j: nat) -> Seq<u8> {
    snapshot_chunks(feed_model(empty_replay(), output.take(j as int))).flatten()
}

/// How many of `acts` write to the terminal.
pub open spec fn terminal_writes(acts: Seq<ActionView>) -> nat
    decreases acts.len(),
{
    if acts.len() == 0 {
        0
    } else {
        terminal_writes(acts.drop_last()) + match acts.last() {
            ActionView::WritePty(_) => 1nat,
            ActionView::ResizePty(_, _) => 1nat,
            _ => 0nat,
        }
    }
}

/// Every client has been sent its join-time snapshot and all output since;
/// ids not handed out yet have been sent nothing.
pub open spec fn delivered_ok(h: HubView, acts: Seq<ActionView>) -> bool {
    &&& forall|id: u64| id >= h.next_id ==> #[trigger] sent_to(acts, id) == Seq::<u8>::empty()
    &&& forall|id: u64|
        #[trigger] h.clients.contains(id) ==> sent_to(acts, id) == snapshot_at(
            h.output,
            h.joined[id],
        ) + h.output.skip(h.joined[id] as int)
}

proof fn lemma_sent_to_concat(a: Seq<ActionView>, b: Seq<ActionView>, id: u64)
    ensures
        sent_to(a + b, id) == sent_to(a, id) + sent_to(b, id),
    decreases b.len(),
{
    if b.len() == 0 {
        assert(a + b =~= a);
        assert(sent_to(a, id) + Seq::<u8>::empty() =~= sent_to(a, id));
    } else {
        assert((a + b).drop_last() =~= a + b.drop_last());
        assert((a + b).last() == b.last());
        lemma_sent_to_concat(a, b.drop_last(), id);
        let t = match b.last() {
            ActionView::Send(c, x) => if c == id {
                x
            } else {
                Seq::empty()
            },
            _ => Seq::empty(),
        };
        assert(sent_to(a, id) + sent_to(b.drop_last(), id) + t =~= sent_to(a, id) + (sent_to(
            b.drop_last(),
            id,
        ) + t));
    }
}

proof fn lemma_sent_to_single(a: ActionView, id: u64)
    ensures
        sent_to(seq![a], id) == match a {
            ActionView::Send(c, b) => if c == id {
                b
            } else {
                Seq::empty()
            },
            _ => Seq::empty(),
        },
{
    assert(seq![a].drop_last() =~= Seq::<ActionView>::empty());
    assert(seq![a].last() == a);
    assert(sent_to(Seq::<ActionView>::empty(), id) == Seq::<u8>::empty());
    let t = match a {
        ActionView::Send(c, b) => if c == id {
            b
        } else {
            Seq::<u8>::empty()
        },
        _ => Seq::<u8>::empty(),
    };
    assert(Seq::<u8>::empty() + t =~= t);
}

proof fn lemma_sent_broadcast(clients: Seq<u64>, b: Seq<u8>, id: u64)
    requires
        forall|i: int, j: int|
            0 <= i < j < clients.len() ==> #[trigger] clients[i] < #[trigger] clients[j],
    ensures
        sent_to(broadcast(clients, b), id) == if clients.contains(id) {
            b
        } else {
            Seq::empty()
        },
    decreases clients.len(),
{
    if clients.len() == 0 {
    } else {
        let p = clients.drop_last();
        assert(broadcast(clients, b).drop_last() =~= broadcast(p, b));
        lemma_sent_broadcast(p, b, id);
        if clients.last() == id {
            assert(!p.contains(id)) by {
                if p.contains(id) {
                    let k = choose|k: int| 0 <= k < p.len() && p[k] == id;
                    assert(clients[k] < clients[clients.len() - 1]);
                }
            }
            assert(Seq::<u8>::empty() + b =~= b);
            assert(clients.contains(id)) by {
                assert(clients[clients.len() - 1] == id);
            }
        } else {
            assert(clients.contains(id) == p.contains(id)) by {
                if clients.contains(id) {
                    let k = choose|k: int| 0 <= k < clients.len() && clients[k] == id;
                    assert(p[k] == id);
                }
                if p.contains(id) {
                    let k = choose|k: int| 0 <= k < p.len() && p[k] == id;
                    assert(clients[k] == id);
                }
            }
            assert(sent_to(p.map_values(|c: u64| ActionView::Send(c, b)), id) + Seq::<u8>::empty()
                =~= sent_to(p.map_values(|c: u64| ActionView::Send(c, b)), id));
        }
    }
}

proof fn lemma_sent_send_all(id: u64, chunks: Seq<Seq<u8>>, x: u64)
    ensures
        sent_to(send_all(id, chunks), x) == if x == id {
            chunks.flatten()
        } else {
            Seq::empty()
        },
    decreases chunks.len(),
{
    if chunks.len() > 0 {
        let p = chunks.drop_last();
        assert(send_all(id, chunks).drop_last() =~= send_all(id, p));
        lemma_sent_send_all(id, p, x);
        assert(p.push(chunks.last()) =~= chunks);
        p.lemma_flatten_push(chunks.last());
        assert(Seq::<u8>::empty() + Seq::<u8>::empty() =~= Seq::<u8>::empty());
    }
}

proof fn lemma_run_ok(evs: Seq<EventView>)
    ensures
        hub_ok(run(evs).0),
        delivered_ok(run(evs).0, run(evs).1),
    decreases evs.len(),
{
    if evs.len() == 0 {
        assert(hub_ok(initial_hub()));
    } else {
        let (h, acts) = run(evs.drop_last());
        lemma_run_ok(evs.drop_last());
        let e = evs.last();
        let (n, more) = hub_step(h, e);
        lemma_hub_step_ok(h, e);
        assert forall|x: u64| #[trigger] sent_to(acts + more, x) == sent_to(acts, x) + sent_to(more, x) by {
            lemma_sent_to_concat(acts, more, x);
        }
        let quiet = (h.closed || e is Input || e is Detached || e is Exited || (e is Connected
            && h.next_id == u64::MAX));
        if quiet {
            assert forall|x: u64| #[trigger] sent_to(more, x) == Seq::<u8>::empty() by {
                if more.len() == 1 {
                    lemma_sent_to_single(more[0], x);
                    assert(more =~= seq![more[0]]);
                }
            }
            assert forall|x: u64| #[trigger] sent_to(acts + more, x) == sent_to(acts, x) by {
                assert(sent_to(acts, x) + Seq::<u8>::empty() =~= sent_to(acts, x));
            }
            if e is Detached && !h.closed {
                lemma_without_ok(h.clients, e->Detached_0);
            }
        } else if e is Connected {
            let id = h.next_id;
            let chunks = snapshot_chunks(h.replay);
            assert forall|x: u64| #[trigger] sent_to(more, x) == if x == id {
                chunks.flatten()
            } else {
                Seq::empty()
            } by {
                lemma_sent_to_concat(seq![ActionView::Attach(id)], send_all(id, chunks), x);
                lemma_sent_to_single(ActionView::Attach(id), x);
                lemma_sent_send_all(id, chunks, x);
                assert(Seq::<u8>::empty() + sent_to(send_all(id, chunks), x) =~= sent_to(
                    send_all(id, chunks),
                    x,
                ));
            }
            assert(h.output.take(h.output.len() as int) =~= h.output);
            assert(h.output.skip(h.output.len() as int) =~= Seq::<u8>::empty());
            assert forall|x: u64| #[trigger] n.clients.contains(x) implies sent_to(acts + more, x)
                == snapshot_at(n.output, n.joined[x]) + n.output.skip(n.joined[x] as int) by {
                if x == id {
                    assert(Seq::<u8>::empty() + chunks.flatten() =~= chunks.flatten());
                    assert(chunks.flatten() + Seq::<u8>::empty() =~= chunks.flatten());
                } else {
                    let k = choose|k: int| 0 <= k < n.clients.len() && n.clients[k] == x;
                    assert(h.clients[k] == x);
                    assert(h.clients.contains(x));
                    assert(sent_to(acts, x) + Seq::<u8>::empty() =~= sent_to(acts, x));
                }
            }
            assert forall|x: u64| x >= n.next_id implies #[trigger] sent_to(acts + more, x)
                == Seq::<u8>::empty() by {
                assert(Seq::<u8>::empty() + Seq::<u8>::empty() =~= Seq::<u8>::empty());
            }
        } else {
            let b = e->Output_0;
            assert forall|x: u64| #[trigger] sent_to(more, x) == if h.clients.contains(x) {
                b
            } else {
                Seq::empty()
            } by {
                lemma_sent_broadcast(h.clients, b, x);
            }
            assert forall|x: u64| #[trigger] n.clients.contains(x) implies sent_to(acts + more, x)
                == snapshot_at(n.output, n.joined[x]) + n.output.skip(n.joined[x] as int) by {
                let j = h.joined[x];
                let k = choose|k: int| 0 <= k < h.clients.len() && h.clients[k] == x;
                assert(j <= h.output.len());
                assert(n.output.take(j as int) =~= h.output.take(j as int));
                assert(n.output.skip(j as int) =~= h.output.skip(j as int) + b);
                assert(snapshot_at(h.output, j) + h.output.skip(j as int) + b =~= snapshot_at(
                    h.output,
                    j,
                ) + (h.output.skip(j as int) + b));
            }
            assert forall|x: u64| x >= n.next_id implies #[trigger] sent_to(acts + more, x)
                == Seq::<u8>::empty() by {
                if h.clients.contains(x) {
                    let k = choose|k: int| 0 <= k < h.clients.len() && h.clients[k] == x;
                }
                assert(Seq::<u8>::empty() + Seq::<u8>::empty() =~= Seq::<u8>::empty());
            }
        }
    }
}

/// A client that is attached after any sequence of events has been sent
/// exactly the replay snapshot taken when it attached, followed by every byte
/// read from the terminal since, in the order read.
pub proof fn lemma_snapshot_then_live(evs: Seq<EventView>, id: u64)
    requires
        run(evs).0.clients.contains(id),
    ensures
        ({
            let (h, acts) = run(evs);
            sent_to(acts, id) == snapshot_at(h.output, h.joined[id]) + h.output.skip(
                h.joined[id] as int,
            )
        }),
{
    lemma_run_ok(evs);
}

/// At every point of a session, the replay buffer keeps at most
/// `REPLAY_LINES` lines of the primary screen.
pub proof fn lemma_replay_bounded(evs: Seq<EventView>)
    ensures
        run(evs).0.replay.lines.len() <= REPLAY_LINES,
{
    lemma_run_ok(evs);
}

/// Output read while a client is attached is sent to that client exactly
/// once, as read, and the client stays attached.
pub proof fn lemma_broadcast_fidelity(h: HubView, b: Seq<u8>, id: u64)
    requires
        hub_ok(h),
        h.clients.contains(id),
    ensures
        hub_step(h, EventView::Output(b)).0.clients.contains(id),
        sent_to(hub_step(h, EventView::Output(b)).1, id) == b,
{
    lemma_sent_broadcast(h.clients, b, id);
}

/// Every event asks for at most one write to the terminal, so writes to it
/// never overlap when actions are performed one after another.
pub proof fn lemma_one_terminal_write(h: HubView, e: EventView)
    ensures
        terminal_writes(hub_step(h, e).1) <= 1,
{
    let acts = hub_step(h, e).1;
    if !h.closed && (e is Connected && h.next_id != u64::MAX || e is Output) {
        assert forall|i: int| 0 <= i < acts.len() implies (#[trigger] acts[i] is Send
            || acts[i] is Attach) by {
            if e is Connected && i > 0 {
                let id = h.next_id;
                assert(acts[i] == send_all(id, snapshot_chunks(h.replay))[i - 1]);
            }
        }
        lemma_no_terminal_writes(acts);
    } else if acts.len() == 1 {
        assert(acts.drop_last() =~= Seq::<ActionView>::empty());
        assert(terminal_writes(Seq::<ActionView>::empty()) == 0);
    } else {
        assert(acts.len() == 0);
    }
}

proof fn lemma_no_terminal_writes(acts: Seq<ActionView>)
    requires
        forall|i: int| 0 <= i < acts.len() ==> (#[trigger] acts[i] is Send || acts[i] is Attach),
    ensures
        terminal_writes(acts) == 0,
    decreases acts.len(),
{
    if acts.len() > 0 {
        lemma_no_terminal_writes(acts.drop_last());
    }
}

/// When the program exits, the hub closes every outbox and asks to shut
/// down; after that, no event sends, writes or attaches anything.
pub proof fn lemma_exit_closes_all(h: HubView, e: EventView)
    requires
        hub_ok(h),
    ensures
        hub_step(h, EventView::Exited).0.closed,
        hub_step(h, EventView::Exited).0.clients.len() == 0,
        !h.closed ==> hub_step(h, EventView::Exited).1 == seq![ActionView::Shutdown],
        h.closed ==> hub_step(h, e).0 == h,
        h.closed ==> forall|i: int|
            0 <= i < hub_step(h, e).1.len() ==> #[trigger] hub_step(h, e).1[i] == ActionView::Refuse,
{
}

proof fn lemma_hub_step_ok(h: HubView, e: EventView)
    requires
        hub_ok(h),
    ensures
        hub_ok(hub_step(h, e).0),
{
    let n = hub_step(h, e).0;
    if !h.closed {
        match e {
            EventView::Connected => {
                if h.next_id != u64::MAX {
                    let id = h.next_id;
                    assert forall|i: int, j: int| 0 <= i < j < n.clients.len() implies #[trigger] n.clients[i]
                        < #[trigger] n.clients[j] by {
                        if j == n.clients.len() - 1 {
                            assert(h.clients[i] < h.next_id);
                        } else {
                            assert(n.clients[i] == h.clients[i] && n.clients[j] == h.clients[j]);
                        }
                    }
                    assert forall|i: int| 0 <= i < n.clients.len() implies {
                        &&& #[trigger] n.clients[i] < n.next_id
                        &&& n.joined.contains_key(n.clients[i])
                        &&& n.joined[n.clients[i]] <= n.output.len()
                    } by {
                        if i < h.clients.len() {
                            assert(n.clients[i] == h.clients[i]);
                            assert(h.clients[i] < h.next_id);
                        }
                    }
                }
            },
            EventView::Output(b) => {
                crate::replay::lemma_feed_concat(empty_replay(), h.output, b);
                crate::replay::lemma_feed_well_formed(h.replay, b);
            },
            EventView::Detached(id) => {
                lemma_without_ok(h.clients, id);
                let w = without(h.clients, id);
                assert forall|i: int| 0 <= i < w.len() implies {
                    &&& #[trigger] w[i] < n.next_id
                    &&& n.joined.contains_key(w[i])
                    &&& n.joined[w[i]] <= n.output.len()
                } by {
                    assert(w.contains(w[i]));
                    let k = choose|k: int| 0 <= k < h.clients.len() && h.clients[k] == w[i];
                    assert(h.clients[k] < h.next_id);
                }
            },
            _ => {},
        }
    }
}

fn copy_bytes(b: &Vec<u8>) -> (r: Vec<u8>)
    ensures
        r@ == b@,
{
    let r = b.clone();
    assert(r@ =~= b@);
    r
}

impl Hub {
    /// A hub with an empty replay buffer and no clients.
    pub fn new() -> (r: Hub)
        ensures
            r@ == initial_hub(),
            hub_ok(r@),
    {
        let r = Hub {
            replay: Replay::new(),
            clients: Vec::new(),
            next_id: 0,
            closed: false,
            output: Ghost(Seq::empty()),
            joined: Ghost(Map::empty()),
        };
        assert(r@.clients =~= Seq::<u64>::empty());
        r
    }

    /// Whether the session has ended.
    pub fn is_closed(&self) -> (r: bool)
        ensures
            r == self@.closed,
    {
        self.closed
    }

    /// Reacts to one event; the actions are to be performed in order.
    pub fn handle(&mut self, event: Event) -> (acts: Vec<Action>)
        requires
            hub_ok(old(self)@),
        ensures
            (final(self)@, actions_view(acts@)) == hub_step(old(self)@, event@),
            hub_ok(final(self)@),
    {
        proof {
            lemma_hub_step_ok(self@, event@);
        }
        let ghost h = self@;
        if self.closed {
            let acts: Vec<Action> = match event {
                Event::Connected => vec![Action::Refuse],
                _ => Vec::new(),
            };
            assert(actions_view(acts@) =~= hub_step(h, event@).1);
            return acts;
        }
        let mut acts: Vec<Action> = Vec::new();
        match event {
            Event::Connected => {
                if self.next_id == u64::MAX {
                    acts.push(Action::Refuse);
                    assert(actions_view(acts@) =~= seq![ActionView::Refuse]);
                    return acts;
                }
                let id = self.next_id;
                let chunks = self.replay.replay();
                acts.push(Action::Attach(id));
                let ghost cv = crate::replay::lines_view(chunks@);
                let mut i: usize = 0;
                while i < chunks.len()
                    invariant
                        i <= chunks@.len(),
                        cv == crate::replay::lines_view(chunks@),
                        actions_view(acts@) == seq![ActionView::Attach(id)] + send_all(
                            id,
                            cv.take(i as int),
                        ),
                    decreases chunks@.len() - i,
                {
                    let c = copy_bytes(&chunks[i]);
                    let ghost before = actions_view(acts@);
                    acts.push(Action::Send(id, c));
                    assert(actions_view(acts@) =~= before.push(ActionView::Send(id, c@)));
                    i = i + 1;
                    assert(actions_view(acts@) =~= seq![ActionView::Attach(id)] + send_all(
                        id,
                        cv.take(i as int),
                    ));
                }
                assert(cv.take(i as int) =~= cv);
                self.clients.push(id);
                self.next_id = id + 1;
                self.joined = Ghost(self.joined@.insert(id, self.output@.len()));
            },
            Event::Output(b) => {
                let mut r = Replay::new();
                std::mem::swap(&mut self.replay, &mut r);
                self.replay = r.feed(b.as_slice());
                self.output = Ghost(self.output@ + b@);
                let mut i: usize = 0;
                while i < self.clients.len()
                    invariant
                        i <= self.clients@.len(),
                        self.clients@ == h.clients,
                        actions_view(acts@) == broadcast(h.clients, b@).take(i as int),
                    decreases self.clients@.len() - i,
                {
                    let c = copy_bytes(&b);
                    let ghost before = actions_view(acts@);
                    acts.push(Action::Send(self.clients[i], c));
                    assert(actions_view(acts@) =~= before.push(ActionView::Send(h.clients[i as int], b@)));
                    i = i + 1;
                    assert(actions_view(acts@) =~= broadcast(h.clients, b@).take(i as int));
                }
                assert(broadcast(h.clients, b@).take(i as int) =~= broadcast(h.clients, b@));
            },
            Event::Input(m) => {
                match m {
                    Message::Data(b) => {
                        acts.push(Action::WritePty(b));
                    },
                    Message::Resize(r, c) => {
                        acts.push(Action::ResizePty(r, c));
                    },
                }
                assert(actions_view(acts@) =~= hub_step(h, event@).1);
            },
            Event::Detached(id) => {
                let mut kept: Vec<u64> = Vec::new();
                let mut i: usize = 0;
                while i < self.clients.len()
                    invariant
                        i <= self.clients@.len(),
                        self.clients@ == h.clients,
                        kept@ == without(h.clients.take(i as int), id),
                    decreases self.clients@.len() - i,
                {
                    let c = self.clients[i];
                    assert(h.clients.take(i + 1).drop_last() =~= h.clients.take(i as int));
                    if c != id {
                        kept.push(c);
                    }
                    i = i + 1;
                }
                assert(h.clients.take(i as int) =~= h.clients);
                self.clients = kept;
                assert(actions_view(acts@) =~= Seq::<ActionView>::empty());
            },
            Event::Exited => {
                self.clients = Vec::new();
                self.closed = true;
                acts.push(Action::Shutdown);
                assert(self@.clients =~= Seq::<u64>::empty());
                assert(actions_view(acts@) =~= seq![ActionView::Shutdown]);
            },
        }
        assert(self@ == hub_step(h, event@).0);
        acts
    }
}

} // verus!
