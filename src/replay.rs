//! Bounded, screen-aware history of terminal output.
//!
//! The buffer keeps the primary screen as a deque of lines and, while the
//! program shows the alternate screen, the bytes written since it switched.
//! The switch is recognised by the two fixed escape sequences
//! `ESC [ ? 1 0 4 9 h` (enter) and `ESC [ ? 1 0 4 9 l` (leave).
use std::collections::VecDeque;
use vstd::prelude::*;

verus! {

/// Most lines of the primary screen that the buffer keeps.
pub const REPLAY_LINES: usize = 10000;

/// Line feed.
pub const LF: u8 = 0x0a;

/// Last byte of the enter-alternate sequence.
pub const ENTER_FINAL: u8 = 0x68;

/// Last byte of the leave-alternate sequence.
pub const LEAVE_FINAL: u8 = 0x6c;

/// The seven bytes that both screen-switch sequences start with: `ESC [ ? 1 0 4 9`.
pub open spec fn marker_head() -> Seq<u8> {
    seq![0x1bu8, 0x5bu8, 0x3fu8, 0x31u8, 0x30u8, 0x34u8, 0x39u8]
}

/// `ESC [ ? 1 0 4 9 h`: switch to the alternate screen.
pub open spec fn enter_marker() -> Seq<u8> {
    marker_head().push(ENTER_FINAL)
}

/// `ESC [ ? 1 0 4 9 l`: switch back to the primary screen.
pub open spec fn leave_marker() -> Seq<u8> {
    marker_head().push(LEAVE_FINAL)
}

/// `s` ends with the bytes `m`.
pub open spec fn ends_with(s: Seq<u8>, m: Seq<u8>) -> bool {
    m.len() <= s.len() && s.subrange(s.len() - m.len(), s.len() as int) == m
}

/// A line that has been ended by a line feed.
pub open spec fn is_closed(l: Seq<u8>) -> bool {
    l.len() > 0 && l.last() == LF
}

/// A stored line: not empty, and a line feed only as its last byte.
pub open spec fn line_ok(l: Seq<u8>) -> bool {
    &&& l.len() > 0
    &&& forall|j: int| 0 <= j < l.len() - 1 ==> #[trigger] l[j] != LF
}

/// The last line has not been ended yet.
pub open spec fn has_open_line(lines: Seq<Seq<u8>>) -> bool {
    lines.len() > 0 && !is_closed(lines.last())
}

/// The line that output is currently appended to (empty if a new line is due).
pub open spec fn current_line(lines: Seq<Seq<u8>>) -> Seq<u8> {
    if has_open_line(lines) {
        lines.last()
    } else {
        Seq::empty()
    }
}

/// The lines that no further output can change.
pub open spec fn closed_lines(lines: Seq<Seq<u8>>) -> Seq<Seq<u8>> {
    if has_open_line(lines) {
        lines.drop_last()
    } else {
        lines
    }
}

/// The newest `n` lines.
pub open spec fn keep_last(lines: Seq<Seq<u8>>, n: nat) -> Seq<Seq<u8>> {
    if lines.len() > n {
        lines.subrange(lines.len() - n, lines.len() as int)
    } else {
        lines
    }
}

/// Mathematical model of a [`Replay`]: the primary screen's lines, and the
/// alternate screen's bytes while it is shown.
pub struct ReplayView {
    pub lines: Seq<Seq<u8>>,
    pub alt: Option<Seq<u8>>,
}

/// The buffer after one more byte of output.
pub open spec fn step(v: ReplayView, b: u8) -> ReplayView {
    match v.alt {
        None => {
            let cur = current_line(v.lines).push(b);
            let body = closed_lines(v.lines);
            if ends_with(cur, enter_marker()) {
                let rest = cur.subrange(0, cur.len() - 8);
                ReplayView {
                    lines: if rest.len() > 0 {
                        body.push(rest)
                    } else {
                        body
                    },
                    alt: Some(Seq::empty()),
                }
            } else {
                ReplayView { lines: keep_last(body.push(cur), REPLAY_LINES as nat), alt: None }
            }
        },
        Some(a) => {
            let na = a.push(b);
            if ends_with(na, leave_marker()) {
                ReplayView { lines: v.lines, alt: None }
            } else if ends_with(na, enter_marker()) {
                ReplayView { lines: v.lines, alt: Some(na.subrange(0, na.len() - 8)) }
            } else {
                ReplayView { lines: v.lines, alt: Some(na) }
            }
        },
    }
}

/// The buffer after the output `s`, byte by byte.
pub open spec fn feed_model(v: ReplayView, s: Seq<u8>) -> ReplayView
    decreases s.len(),
{
    if s.len() == 0 {
        v
    } else {
        step(feed_model(v, s.drop_last()), s.last())
    }
}

/// At most `REPLAY_LINES` lines, each a proper line, and only the last one open.
pub open spec fn well_formed(v: ReplayView) -> bool {
    &&& v.lines.len() <= REPLAY_LINES
    &&& forall|i: int| 0 <= i < v.lines.len() ==> line_ok(#[trigger] v.lines[i])
    &&& forall|i: int| 0 <= i < v.lines.len() - 1 ==> is_closed(#[trigger] v.lines[i])
}

/// What a newly attached client is sent, chunk by chunk: the primary screen's
/// lines, then, on the alternate screen, the enter sequence and its bytes.
pub open spec fn snapshot_chunks(v: ReplayView) -> Seq<Seq<u8>> {
    match v.alt {
        None => v.lines,
        Some(a) => v.lines.push(enter_marker()).push(a),
    }
}

/// The buffer before any output.
pub open spec fn empty_replay() -> ReplayView {
    ReplayView { lines: Seq::empty(), alt: None }
}

/// The byte contents of a sequence of lines.
pub open spec fn lines_view(lines: Seq<Vec<u8>>) -> Seq<Seq<u8>> {
    lines.map_values(|l: Vec<u8>| l@)
}

/// The history of a terminal's output that a late client is brought up to date with.
pub struct Replay {
    lines: VecDeque<Vec<u8>>,
    alt: Option<Vec<u8>>,
}

impl View for Replay {
    type V = ReplayView;

    closed spec fn view(&self) -> ReplayView {
        ReplayView {
            lines: lines_view(self.lines@),
            alt: match self.alt {
                Some(a) => Some(a@),
                None => None,
            },
        }
    }
}

fn ends_with_marker(v: &Vec<u8>, last: u8) -> (r: bool)
    ensures
        r == ends_with(v@, marker_head().push(last)),
{
    let n = v.len();
    if n < 8 {
        return false;
    }
    let r = v[n - 8] == 0x1b && v[n - 7] == 0x5b && v[n - 6] == 0x3f && v[n - 5] == 0x31 && v[n
        - 4] == 0x30 && v[n - 3] == 0x34 && v[n - 2] == 0x39 && v[n - 1] == last;
    let ghost tail = v@.subrange(n - 8, n as int);
    if r {
        assert(tail =~= marker_head().push(last));
    } else {
        assert(tail != marker_head().push(last)) by {
            if tail == marker_head().push(last) {
                assert(tail[0] == 0x1b && tail[1] == 0x5b && tail[2] == 0x3f && tail[3] == 0x31);
                assert(tail[4] == 0x30 && tail[5] == 0x34 && tail[6] == 0x39 && tail[7] == last);
            }
        }
    }
    r
}

fn enter_alternate() -> (r: Vec<u8>)
    ensures
        r@ == enter_marker(),
{
    let r: Vec<u8> = vec![0x1b, 0x5b, 0x3f, 0x31, 0x30, 0x34, 0x39, ENTER_FINAL];
    assert(r@ =~= enter_marker());
    r
}

proof fn lemma_step_well_formed(v: ReplayView, b: u8)
    requires
        well_formed(v),
    ensures
        well_formed(step(v, b)),
{
    let w = step(v, b);
    if v.alt is None {
        let cur = current_line(v.lines).push(b);
        let body = closed_lines(v.lines);
        assert(forall|i: int| 0 <= i < body.len() ==> line_ok(#[trigger] body[i]) && is_closed(
            body[i],
        )) by {
            assert forall|i: int| 0 <= i < body.len() implies line_ok(#[trigger] body[i])
                && is_closed(body[i]) by {
                assert(v.lines[i] == body[i]);
            }
        }
        let c = current_line(v.lines);
        assert(forall|j: int| 0 <= j < c.len() ==> #[trigger] c[j] != LF);
        if ends_with(cur, enter_marker()) {
            let rest = cur.subrange(0, cur.len() - 8);
            let t = cur.subrange(cur.len() - 8, cur.len() as int);
            assert(t[7] == cur[cur.len() - 1]);
            assert(cur[cur.len() - 1] == ENTER_FINAL);
            if rest.len() > 0 {
                assert(forall|j: int| 0 <= j < rest.len() ==> #[trigger] rest[j] == c[j]);
                let nl = body.push(rest);
                assert forall|i: int| 0 <= i < nl.len() implies line_ok(#[trigger] nl[i]) by {
                    if i < body.len() {
                        assert(nl[i] == body[i]);
                    }
                }
                assert forall|i: int| 0 <= i < nl.len() - 1 implies is_closed(#[trigger] nl[i]) by {
                    assert(nl[i] == body[i]);
                }
            }
        } else {
            let nl = body.push(cur);
            assert forall|i: int| 0 <= i < nl.len() implies line_ok(#[trigger] nl[i]) by {
                if i < body.len() {
                    assert(nl[i] == body[i]);
                } else {
                    assert(nl[i] == cur);
                    assert forall|j: int| 0 <= j < cur.len() - 1 implies #[trigger] cur[j] != LF by {
                        assert(cur[j] == c[j]);
                    }
                }
            }
            assert forall|i: int| 0 <= i < nl.len() - 1 implies is_closed(#[trigger] nl[i]) by {
                assert(nl[i] == body[i]);
            }
            let kept = keep_last(nl, REPLAY_LINES as nat);
            if nl.len() > REPLAY_LINES {
                let d = nl.len() - REPLAY_LINES;
                assert forall|i: int| 0 <= i < kept.len() implies line_ok(#[trigger] kept[i]) by {
                    assert(kept[i] == nl[i + d]);
                }
                assert forall|i: int| 0 <= i < kept.len() - 1 implies is_closed(
                    #[trigger] kept[i],
                ) by {
                    assert(kept[i] == nl[i + d]);
                }
            }
        }
    }
}

/// Normal-mode step on the deque of lines; tells whether the alternate screen was entered.
fn normal_step(lines: &mut VecDeque<Vec<u8>>, b: u8) -> (entered: bool)
    requires
        well_formed(ReplayView { lines: lines_view(old(lines)@), alt: None }),
    ensures
        ({
            let w = step(ReplayView { lines: lines_view(old(lines)@), alt: None }, b);
            lines_view(final(lines)@) == w.lines && entered == (w.alt is Some)
        }),
{
    let ghost lv = lines_view(lines@);
    let n = lines.len();
    let open = if n > 0 {
        let last = &lines[n - 1];
        assert(last@ == lv[n - 1]);
        last[last.len() - 1] != LF
    } else {
        false
    };
    assert(open == has_open_line(lv));
    let mut cur: Vec<u8> = Vec::new();
    if open {
        match lines.pop_back() {
            Some(l) => {
                cur = l;
            },
            None => {},
        }
        assert(lines_view(lines@) =~= lv.drop_last());
    }
    assert(cur@ == current_line(lv));
    assert(lines_view(lines@) == closed_lines(lv));
    cur.push(b);
    let ghost body = lines_view(lines@);
    if ends_with_marker(&cur, ENTER_FINAL) {
        let k = cur.len() - 8;
        cur.truncate(k);
        if cur.len() > 0 {
            lines.push_back(cur);
            assert(lines_view(lines@) =~= body.push(cur@));
        }
        true
    } else {
        lines.push_back(cur);
        assert(lines_view(lines@) =~= body.push(cur@));
        if lines.len() > REPLAY_LINES {
            let ghost before = lines_view(lines@);
            lines.pop_front();
            assert(lines_view(lines@) =~= keep_last(before, REPLAY_LINES as nat));
        }
        false
    }
}

/// Alternate-mode step on the alternate screen's bytes; `None` once it is left.
fn alternate_step(alt: Vec<u8>, b: u8) -> (r: Option<Vec<u8>>)
    ensures
        ({
            let na = alt@.push(b);
            if ends_with(na, leave_marker()) {
                r is None
            } else if ends_with(na, enter_marker()) {
                r matches Some(a) && a@ == na.subrange(0, na.len() - 8)
            } else {
                r matches Some(a) && a@ == na
            }
        }),
{
    let mut a = alt;
    a.push(b);
    if ends_with_marker(&a, LEAVE_FINAL) {
        None
    } else if ends_with_marker(&a, ENTER_FINAL) {
        let k = a.len() - 8;
        a.truncate(k);
        Some(a)
    } else {
        Some(a)
    }
}

impl Replay {
    /// An empty buffer on the primary screen.
    pub fn new() -> (r: Replay)
        ensures
            r@ == (ReplayView { lines: Seq::empty(), alt: None }),
            well_formed(r@),
    {
        let r = Replay { lines: VecDeque::new(), alt: None };
        assert(r@.lines =~= Seq::<Seq<u8>>::empty());
        r
    }

    /// The buffer after the program's output `bytes`.
    pub fn feed(self, bytes: &[u8]) -> (r: Replay)
        requires
            well_formed(self@),
        ensures
            r@ == feed_model(self@, bytes@),
            well_formed(r@),
    {
        let Replay { mut lines, mut alt } = self;
        let mut i: usize = 0;
        while i < bytes.len()
            invariant
                i <= bytes@.len(),
                (Replay { lines, alt })@ == feed_model(self@, bytes@.subrange(0, i as int)),
                well_formed((Replay { lines, alt })@),
            decreases bytes@.len() - i,
        {
            let ghost v = (Replay { lines, alt })@;
            let b = bytes[i];
            proof {
                lemma_step_well_formed(v, b);
                let s = bytes@.subrange(0, i + 1);
                assert(s.drop_last() =~= bytes@.subrange(0, i as int));
            }
            alt = match alt {
                None => {
                    if normal_step(&mut lines, b) {
                        Some(Vec::new())
                    } else {
                        None
                    }
                },
                Some(a) => alternate_step(a, b),
            };
            i = i + 1;
            proof {
                let w = (Replay { lines, alt })@;
                assert(w.alt =~= step(v, b).alt);
                assert(w == step(v, b));
            }
        }
        assert(bytes@.subrange(0, bytes@.len() as int) =~= bytes@);
        Replay { lines, alt }
    }

    /// The chunks that bring a new client's screen up to date.
    pub fn replay(&self) -> (r: Vec<Vec<u8>>)
        ensures
            lines_view(r@) == snapshot_chunks(self@),
    {
        let mut out: Vec<Vec<u8>> = Vec::new();
        let mut i: usize = 0;
        while i < self.lines.len()
            invariant
                i <= self.lines@.len(),
                lines_view(out@) == lines_view(self.lines@).subrange(0, i as int),
            decreases self.lines@.len() - i,
        {
            let line = self.lines[i].clone();
            assert(line@ =~= self.lines@[i as int]@);
            let ghost prev = out@;
            out.push(line);
            assert(out@ == prev.push(line));
            assert(lines_view(out@) =~= lines_view(prev).push(line@));
            i = i + 1;
            assert(lines_view(out@) =~= lines_view(self.lines@).subrange(0, i as int));
        }
        assert(lines_view(self.lines@).subrange(0, i as int) =~= lines_view(self.lines@));
        match &self.alt {
            Some(a) => {
                let ghost before = lines_view(out@);
                out.push(enter_alternate());
                let rest = a.clone();
                assert(rest@ =~= a@);
                out.push(rest);
                assert(lines_view(out@) =~= before.push(enter_marker()).push(a@));
            },
            None => {},
        }
        out
    }

    /// The number of primary-screen lines kept, and of alternate-screen bytes.
    pub fn usage(&self) -> (r: (usize, usize))
        ensures
            r.0 == self@.lines.len(),
            r.1 == match self@.alt {
                Some(a) => a.len(),
                None => 0,
            },
    {
        match &self.alt {
            Some(a) => (self.lines.len(), a.len()),
            None => (self.lines.len(), 0),
        }
    }

    /// Whether the program is showing the alternate screen.
    pub fn is_alternate(&self) -> (r: bool)
        ensures
            r == self@.alt is Some,
    {
        self.alt.is_some()
    }
}

impl Default for Replay {
    fn default() -> (r: Replay)
        ensures
            r@ == (ReplayView { lines: Seq::empty(), alt: None }),
            well_formed(r@),
    {
        Replay::new()
    }
}

/// Feeding keeps a buffer well formed.
pub proof fn lemma_feed_well_formed(v: ReplayView, s: Seq<u8>)
    requires
        well_formed(v),
    ensures
        well_formed(feed_model(v, s)),
    decreases s.len(),
{
    if s.len() > 0 {
        lemma_feed_well_formed(v, s.drop_last());
        lemma_step_well_formed(feed_model(v, s.drop_last()), s.last());
    }
}

/// Feeding output in two pieces gives the same buffer as feeding it at once,
/// so how reads split the program's output does not matter.
pub proof fn lemma_feed_concat(v: ReplayView, s: Seq<u8>, t: Seq<u8>)
    ensures
        feed_model(v, s + t) == feed_model(feed_model(v, s), t),
    decreases t.len(),
{
    if t.len() == 0 {
        assert(s + t =~= s);
    } else {
        assert((s + t).drop_last() =~= s + t.drop_last());
        assert((s + t).last() == t.last());
        lemma_feed_concat(v, s, t.drop_last());
    }
}

proof fn lemma_enter_prefix(v: ReplayView, k: nat)
    requires
        well_formed(v),
        v.alt is None,
        has_open_line(v.lines) || v.lines.len() < REPLAY_LINES,
        1 <= k <= 7,
    ensures
        feed_model(v, enter_marker().take(k as int)) == (ReplayView {
            lines: closed_lines(v.lines).push(current_line(v.lines) + enter_marker().take(k as int)),
            alt: None,
        }),
    decreases k,
{
    let e = enter_marker();
    let cur = current_line(v.lines);
    let body = closed_lines(v.lines);
    let s = e.take(k as int);
    let prev = if k == 1 {
        v
    } else {
        ReplayView { lines: body.push(cur + e.take(k - 1)), alt: None }
    };
    assert(s.drop_last() =~= e.take(k - 1));
    if k == 1 {
        assert(e.take(0) =~= Seq::<u8>::empty());
        assert(cur + e.take(0) =~= cur);
    } else {
        lemma_enter_prefix(v, (k - 1) as nat);
        let l = cur + e.take(k - 1);
        assert(l.last() == e[k - 2]);
        assert(body.push(l).drop_last() =~= body);
    }
    assert(feed_model(v, s) == step(prev, e[k - 1]));
    let pl = if k == 1 {
        cur
    } else {
        cur + e.take(k - 1)
    };
    assert(current_line(prev.lines) == pl);
    assert(closed_lines(prev.lines) == body);
    let nc = pl.push(e[k - 1]);
    assert(nc =~= cur + s);
    assert(!ends_with(nc, enter_marker())) by {
        if ends_with(nc, enter_marker()) {
            let t = nc.subrange(nc.len() - 8, nc.len() as int);
            assert(t[7] == nc.last());
        }
    }
    if has_open_line(v.lines) {
        assert(body.len() + 1 == v.lines.len());
    }
    assert(keep_last(body.push(nc), REPLAY_LINES as nat) == body.push(nc));
}

/// Entering the alternate screen and leaving it again, with nothing shown in
/// between, leaves the primary screen's lines as they were.
///
/// This holds unless the buffer is full and its last line is ended: the first
/// byte of the enter sequence then starts a line, which pushes out the oldest.
pub proof fn lemma_enter_leave_restores(v: ReplayView)
    requires
        well_formed(v),
        v.alt is None,
        has_open_line(v.lines) || v.lines.len() < REPLAY_LINES,
    ensures
        feed_model(v, enter_marker() + leave_marker()) == v,
{
    let e = enter_marker();
    let lv = leave_marker();
    let cur = current_line(v.lines);
    let body = closed_lines(v.lines);
    lemma_feed_concat(v, e, lv);
    lemma_enter_prefix(v, 7);
    assert(e.drop_last() =~= e.take(7));
    let w7 = ReplayView { lines: body.push(cur + e.take(7)), alt: None };
    let l7 = cur + e.take(7);
    assert(l7.last() == e[6]);
    assert(body.push(l7).drop_last() =~= body);
    assert(current_line(w7.lines) == l7);
    assert(closed_lines(w7.lines) == body);
    let nc = l7.push(e[7]);
    assert(nc =~= cur + e);
    assert(nc.subrange(nc.len() - 8, nc.len() as int) =~= e);
    assert(nc.subrange(0, nc.len() - 8) =~= cur);
    let entered = ReplayView { lines: v.lines, alt: Some(Seq::empty()) };
    if has_open_line(v.lines) {
        assert(body.push(cur) =~= v.lines);
    }
    assert(feed_model(v, e) == entered);
    // leaving: the alternate bytes grow until the leave sequence completes
    assert forall|k: int| 1 <= k <= 8 implies #[trigger] feed_model(entered, lv.take(k)) == (
    if k < 8 {
        ReplayView { lines: v.lines, alt: Some(lv.take(k)) }
    } else {
        v
    }) by {
        lemma_leave_prefix(v.lines, k as nat);
    }
    assert(lv.take(8) =~= lv);
}

proof fn lemma_leave_prefix(lines: Seq<Seq<u8>>, k: nat)
    requires
        1 <= k <= 8,
    ensures
        feed_model(ReplayView { lines, alt: Some(Seq::empty()) }, leave_marker().take(k as int)) == (
        if k < 8 {
            ReplayView { lines, alt: Some(leave_marker().take(k as int)) }
        } else {
            ReplayView { lines, alt: None }
        }),
    decreases k,
{
    let lv = leave_marker();
    let start = ReplayView { lines, alt: Some(Seq::empty()) };
    assert(lv.take(k as int).drop_last() =~= lv.take(k - 1));
    if k == 1 {
        assert(lv.take(0) =~= Seq::<u8>::empty());
    } else {
        lemma_leave_prefix(lines, (k - 1) as nat);
    }
    let a = lv.take(k - 1);
    let na = a.push(lv[k - 1]);
    assert(na =~= lv.take(k as int));
    if k == 8 {
        assert(na.subrange(0, 8) =~= lv);
    }
}

/// Whether the last screen-switch sequence in `s` enters the alternate screen
/// (nested enters collapse into one; a leave returns to the primary screen).
pub open spec fn last_switch_enters(s: Seq<u8>) -> bool
    decreases s.len(),
{
    if s.len() == 0 {
        false
    } else if ends_with(s, enter_marker()) {
        true
    } else if ends_with(s, leave_marker()) {
        false
    } else {
        last_switch_enters(s.drop_last())
    }
}

/// `x` does not end with the start of a switch sequence.
pub open spec fn no_head_suffix(x: Seq<u8>) -> bool {
    forall|j: int| 1 <= j <= 7 ==> !ends_with(x, #[trigger] marker_head().take(j))
}

/// No enter sequence in `s` directly follows the start of another switch
/// sequence. Where one does, removing it may join the bytes around it into a
/// switch sequence that `s` does not hold.
pub open spec fn unambiguous(s: Seq<u8>) -> bool {
    forall|k: int|
        8 <= k <= s.len() && ends_with(#[trigger] s.take(k), enter_marker()) ==> no_head_suffix(
            s.take(k - 8),
        )
}

/// The bytes that the next output byte is appended to.
pub open spec fn cur_of(v: ReplayView) -> Seq<u8> {
    match v.alt {
        Some(a) => a,
        None => current_line(v.lines),
    }
}

proof fn lemma_no_head_suffix_last(x: Seq<u8>)
    requires
        x.len() > 0,
        x.last() == LF || x.last() == ENTER_FINAL || x.last() == LEAVE_FINAL,
    ensures
        no_head_suffix(x),
{
    assert forall|j: int| 1 <= j <= 7 implies !ends_with(x, #[trigger] marker_head().take(j)) by {
        if ends_with(x, marker_head().take(j)) {
            let t = x.subrange(x.len() - j, x.len() as int);
            assert(t[j - 1] == x.last());
            assert(marker_head().take(j)[j - 1] == marker_head()[j - 1]);
        }
    }
}

/// After bytes that end with no start of a switch sequence, a pattern that
/// begins like one can only match within the bytes that follow.
proof fn lemma_match_after_clean(r: Seq<u8>, x: Seq<u8>, p: Seq<u8>)
    requires
        no_head_suffix(r),
        1 <= p.len() <= 8,
        forall|i: int| 1 <= i < p.len() ==> #[trigger] p.take(i) == marker_head().take(i),
        p.len() <= 7 ==> p == marker_head().take(p.len() as int),
        p.len() == 8 ==> x.len() >= 1,
    ensures
        ends_with(r + x, p) <==> (x.len() >= p.len() && ends_with(x, p)),
{
    let m = p.len() as int;
    let rx = r + x;
    if x.len() >= m {
        assert(rx.subrange(rx.len() - m, rx.len() as int) =~= x.subrange(x.len() - m, x.len() as int));
    } else if ends_with(rx, p) {
        let i = m - x.len();
        let q = p.take(i);
        assert(r.subrange(r.len() - i, r.len() as int) =~= q) by {
            assert forall|k: int| 0 <= k < i implies r.subrange(r.len() - i, r.len() as int)[k]
                == q[k] by {
                assert(rx.subrange(rx.len() - m, rx.len() as int)[k] == rx[r.len() - i + k]);
            }
        }
        if i < m {
            assert(q == marker_head().take(i));
            assert(ends_with(r, marker_head().take(i)));
        } else {
            assert(q =~= p);
            assert(ends_with(r, marker_head().take(m)));
        }
    }
}

proof fn lemma_clean_extension(r: Seq<u8>, s: Seq<u8>, t: Seq<u8>)
    requires
        no_head_suffix(r),
        no_head_suffix(s),
    ensures
        no_head_suffix(r + t) <==> no_head_suffix(s + t),
{
    assert forall|j: int| 1 <= j <= 7 implies (ends_with(r + t, #[trigger] marker_head().take(j))
        <==> ends_with(s + t, marker_head().take(j))) by {
        let p = marker_head().take(j);
        assert forall|i: int| 1 <= i < p.len() implies #[trigger] p.take(i) == marker_head().take(i) by {
            assert(p.take(i) =~= marker_head().take(i));
        }
        lemma_match_after_clean(r, t, p);
        lemma_match_after_clean(s, t, p);
    }
}

proof fn lemma_marker_prefixes(f: u8)
    ensures
        forall|i: int|
            1 <= i < 8 ==> #[trigger] marker_head().push(f).take(i) == marker_head().take(i),
{
    assert forall|i: int| 1 <= i < 8 implies #[trigger] marker_head().push(f).take(i)
        == marker_head().take(i) by {
        assert(marker_head().push(f).take(i) =~= marker_head().take(i));
    }
}

proof fn lemma_mode_inv(s: Seq<u8>) -> (r: (Seq<u8>, Seq<u8>, Seq<u8>))
    requires
        unambiguous(s),
    ensures
        ({
            let v = feed_model(empty_replay(), s);
            &&& well_formed(v)
            &&& (v.alt is Some) == last_switch_enters(s)
            &&& cur_of(v) == r.0 + r.2
            &&& s == r.1 + r.2
            &&& no_head_suffix(r.0)
            &&& no_head_suffix(r.1)
            &&& v.alt is Some ==> no_head_suffix(current_line(v.lines))
        }),
    decreases s.len(),
{
    let e = Seq::<u8>::empty();
    assert(no_head_suffix(e));
    lemma_feed_well_formed(empty_replay(), s);
    if s.len() == 0 {
        assert(e + e =~= e);
        assert(current_line(Seq::<Seq<u8>>::empty()) == e);
        return (e, e, e);
    }
    let p = s.drop_last();
    let b = s.last();
    assert forall|k: int| 8 <= k <= p.len() && ends_with(#[trigger] p.take(k), enter_marker())
        implies no_head_suffix(p.take(k - 8)) by {
        assert(p.take(k) =~= s.take(k));
        assert(p.take(k - 8) =~= s.take(k - 8));
    }
    let (rr, ss, tt) = lemma_mode_inv(p);
    let v = feed_model(empty_replay(), p);
    let w = feed_model(empty_replay(), s);
    assert(w == step(v, b));
    let x = tt.push(b);
    assert(cur_of(v).push(b) =~= rr + x);
    assert(s =~= p.push(b));
    assert(s =~= ss + x);
    lemma_marker_prefixes(ENTER_FINAL);
    lemma_marker_prefixes(LEAVE_FINAL);
    lemma_match_after_clean(rr, x, enter_marker());
    lemma_match_after_clean(ss, x, enter_marker());
    lemma_match_after_clean(rr, x, leave_marker());
    lemma_match_after_clean(ss, x, leave_marker());
    let ent = ends_with(rr + x, enter_marker());
    let lea = ends_with(rr + x, leave_marker());
    assert(ent == ends_with(s, enter_marker()));
    assert(lea == ends_with(s, leave_marker()));
    assert(s.drop_last() == p);
    if ent || lea {
        let q = s.subrange(s.len() - 8, s.len() as int);
        assert(q[7] == b);
        assert(ent ==> b == ENTER_FINAL) by {
            if ent {
                assert(enter_marker()[7] == ENTER_FINAL);
            }
        }
        assert(lea ==> b == LEAVE_FINAL) by {
            if lea {
                assert(leave_marker()[7] == LEAVE_FINAL);
            }
        }
        lemma_no_head_suffix_last(s);
        assert(e + e =~= e);
        assert(s + e =~= s);
    }
    if ent {
        // the stripped residue and the output before this enter sequence
        let t2 = x.take(x.len() - 8);
        assert(s.take(s.len() as int) =~= s);
        assert(s.take(s.len() - 8) =~= ss + t2);
        lemma_clean_extension(rr, ss, t2);
        let res = (rr + x).subrange(0, (rr + x).len() - 8);
        assert(res =~= rr + t2);
        if v.alt is None {
            let cl = current_line(v.lines);
            if res.len() > 0 {
                let nl = closed_lines(v.lines).push(res);
                assert(nl.last() == res);
                assert(res[res.len() - 1] == cl[res.len() - 1]);
                if has_open_line(v.lines) {
                    assert(v.lines.last() == v.lines[v.lines.len() - 1]);
                }
                assert(has_open_line(nl));
                assert(current_line(w.lines) == res);
            } else {
                let body = closed_lines(v.lines);
                if body.len() > 0 {
                    assert(body.last() == v.lines[body.len() - 1]);
                }
                assert(current_line(w.lines) == e);
            }
            return (e, s, e);
        }
        assert(ss + t2 == s.take(s.len() - 8));
        assert(no_head_suffix(res));
        assert(res + e =~= res);
        return (res, s, e);
    }
    if lea && v.alt is Some {
        return (current_line(v.lines), s, e);
    }
    if v.alt is None {
        let cl = current_line(v.lines);
        let nc = cl.push(b);
        let body = closed_lines(v.lines);
        let kept = keep_last(body.push(nc), REPLAY_LINES as nat);
        assert(kept.len() > 0 && kept.last() == nc) by {
            let all = body.push(nc);
            if all.len() > REPLAY_LINES {
                assert(kept[kept.len() - 1] == all[all.len() - 1]);
            }
        }
        if b == LF {
            assert(nc.last() == LF);
            assert(current_line(w.lines) == e);
            lemma_no_head_suffix_last(s);
            assert(s + e =~= s);
            assert(e + e =~= e);
            return (e, s, e);
        } else {
            assert(current_line(w.lines) == nc);
        }
    }
    (rr, ss, x)
}

/// After the output `s`, the buffer shows the alternate screen exactly when
/// the last screen-switch sequence in `s` is an enter sequence.
///
/// This holds of output in which no enter sequence directly follows the start
/// of another switch sequence (see [`unambiguous`]).
pub proof fn lemma_mode_follows_markers(s: Seq<u8>)
    requires
        unambiguous(s),
    ensures
        (feed_model(empty_replay(), s).alt is Some) == last_switch_enters(s),
{
    let _ = lemma_mode_inv(s);
}

} // verus!
