//! Client-to-server framing.
//!
//! Every frame starts with a signed 16-bit big-endian length. A positive length
//! announces that many bytes of keystroke data; `-4` announces a resize
//! payload of two big-endian `u16` values (rows, then cols). Any other
//! non-positive length is a protocol error.
use vstd::prelude::*;

verus! {

/// Header value that announces a resize frame.
pub const RESIZE_TAG: i16 = -4;

/// Largest payload that one data frame can carry.
pub const MAX_DATA_LEN: usize = 32767;

/// One client-to-server payload.
#[derive(Debug, Clone, PartialEq, Eq)]
pub enum Message {
    /// Keystrokes to be written to the terminal.
    Data(Vec<u8>),
    /// New window size: rows, then cols.
    Resize(u16, u16),
}

/// Mathematical model of a [`Message`].
pub enum MessageView {
    Data(Seq<u8>),
    Resize(u16, u16),
}

impl View for Message {
    type V = MessageView;

    open spec fn view(&self) -> MessageView {
        match self {
            Message::Data(b) => MessageView::Data(b@),
            Message::Resize(r, c) => MessageView::Resize(*r, *c),
        }
    }
}

/// A message can be framed: data frames carry between 1 and `MAX_DATA_LEN` bytes.
pub open spec fn encodable(m: MessageView) -> bool {
    match m {
        MessageView::Data(p) => 0 < p.len() <= MAX_DATA_LEN,
        MessageView::Resize(_, _) => true,
    }
}

/// The unsigned value of two big-endian bytes.
pub open spec fn be16(hi: u8, lo: u8) -> nat {
    hi as nat * 256 + lo as nat
}

/// The two big-endian bytes of a value below 2^16.
pub open spec fn be_bytes(v: nat) -> Seq<u8> {
    seq![(v / 256) as u8, (v % 256) as u8]
}

/// The signed (two's complement) value of a big-endian header.
pub open spec fn header_value(hi: u8, lo: u8) -> int {
    let u = be16(hi, lo);
    if u >= 32768 {
        u - 65536
    } else {
        u as int
    }
}

/// The bytes on the wire for a message.
pub open spec fn frame_of(m: MessageView) -> Seq<u8> {
    match m {
        MessageView::Data(p) => be_bytes(p.len()) + p,
        MessageView::Resize(r, c) => seq![0xFFu8, 0xFCu8] + be_bytes(r as nat) + be_bytes(
            c as nat,
        ),
    }
}

/// Outcome of reading one frame from the front of a buffer.
#[derive(Debug, Clone, PartialEq, Eq)]
pub enum Decoded {
    /// A whole frame: the message and the number of bytes it took.
    Frame(Message, usize),
    /// The buffer holds only the start of a frame.
    Incomplete,
    /// The header holds a reserved length.
    Invalid(i16),
}

/// Mathematical model of a [`Decoded`].
pub enum DecodedView {
    Frame(MessageView, nat),
    Incomplete,
    Invalid(int),
}

impl View for Decoded {
    type V = DecodedView;

    open spec fn view(&self) -> DecodedView {
        match self {
            Decoded::Frame(m, n) => DecodedView::Frame(m@, *n as nat),
            Decoded::Incomplete => DecodedView::Incomplete,
            Decoded::Invalid(h) => DecodedView::Invalid(*h as int),
        }
    }
}

/// What the first frame of `s` is.
pub open spec fn parse_frame(s: Seq<u8>) -> DecodedView {
    if s.len() < 2 {
        DecodedView::Incomplete
    } else {
        let h = header_value(s[0], s[1]);
        if h > 0 {
            if s.len() >= 2 + h {
                DecodedView::Frame(MessageView::Data(s.subrange(2, 2 + h)), (2 + h) as nat)
            } else {
                DecodedView::Incomplete
            }
        } else if h == RESIZE_TAG {
            if s.len() >= 6 {
                DecodedView::Frame(
                    MessageView::Resize(be16(s[2], s[3]) as u16, be16(s[4], s[5]) as u16),
                    6,
                )
            } else {
                DecodedView::Incomplete
            }
        } else {
            DecodedView::Invalid(h)
        }
    }
}

fn push_be16(out: &mut Vec<u8>, v: u16)
    ensures
        final(out)@ == old(out)@ + be_bytes(v as nat),
{
    out.push((v / 256) as u8);
    out.push((v % 256) as u8);
    assert(final(out)@ =~= old(out)@ + be_bytes(v as nat));
}

impl Message {
    /// The frame that carries this message.
    pub fn encode(&self) -> (r: Vec<u8>)
        requires
            encodable(self@),
        ensures
            r@ == frame_of(self@),
    {
        let mut out: Vec<u8> = Vec::new();
        match self {
            Message::Data(p) => {
                push_be16(&mut out, p.len() as u16);
                let mut i: usize = 0;
                while i < p.len()
                    invariant
                        i <= p@.len(),
                        out@ == be_bytes(p@.len()) + p@.subrange(0, i as int),
                    decreases p@.len() - i,
                {
                    out.push(p[i]);
                    i = i + 1;
                    assert(out@ =~= be_bytes(p@.len()) + p@.subrange(0, i as int));
                }
                assert(p@.subrange(0, p@.len() as int) =~= p@);
            },
            Message::Resize(r, c) => {
                out.push(0xFF);
                out.push(0xFC);
                push_be16(&mut out, *r);
                push_be16(&mut out, *c);
                assert(out@ =~= seq![0xFFu8, 0xFCu8] + be_bytes(*r as nat) + be_bytes(*c as nat));
            },
        }
        out
    }
}

fn read_be16(hi: u8, lo: u8) -> (r: u16)
    ensures
        r as nat == be16(hi, lo),
{
    hi as u16 * 256 + lo as u16
}

/// Reads the first frame at the front of `buf`.
pub fn decode_frame(buf: &[u8]) -> (r: Decoded)
    ensures
        r@ == parse_frame(buf@),
{
    if buf.len() < 2 {
        return Decoded::Incomplete;
    }
    let u: u16 = read_be16(buf[0], buf[1]);
    let h: i32 = if u >= 32768 {
        u as i32 - 65536
    } else {
        u as i32
    };
    assert(h == header_value(buf@[0], buf@[1]));
    if h > 0 {
        let n: usize = h as usize;
        if buf.len() - 2 >= n {
            let mut payload: Vec<u8> = Vec::with_capacity(n);
            let mut i: usize = 0;
            while i < n
                invariant
                    i <= n,
                    2 + n <= buf@.len() <= usize::MAX,
                    payload@ == buf@.subrange(2, 2 + i),
                decreases n - i,
            {
                payload.push(buf[2 + i]);
                i = i + 1;
                assert(payload@ =~= buf@.subrange(2, 2 + i));
            }
            Decoded::Frame(Message::Data(payload), n + 2)
        } else {
            Decoded::Incomplete
        }
    } else if h == RESIZE_TAG as i32 {
        if buf.len() >= 6 {
            let rows = read_be16(buf[2], buf[3]);
            let cols = read_be16(buf[4], buf[5]);
            Decoded::Frame(Message::Resize(rows, cols), 6)
        } else {
            Decoded::Incomplete
        }
    } else {
        Decoded::Invalid(h as i16)
    }
}

/// Why a client's input stream was rejected.
#[derive(Debug, Clone, Copy, PartialEq, Eq, Structural)]
pub enum ProtocolError {
    /// A frame header held a reserved length.
    Reserved(i16),
    /// The stream ended inside a frame.
    Truncated,
}

/// Reassembles frames from the byte chunks read off a client socket.
pub struct FrameReader {
    pending: Vec<u8>,
}

impl View for FrameReader {
    type V = Seq<u8>;

    /// The bytes received and not yet consumed by a whole frame.
    closed spec fn view(&self) -> Seq<u8> {
        self.pending@
    }
}

impl FrameReader {
    pub fn new() -> (r: FrameReader)
        ensures
            r@ == Seq::<u8>::empty(),
    {
        FrameReader { pending: Vec::new() }
    }

    /// Appends bytes read from the socket.
    pub fn push(&mut self, bytes: &[u8])
        ensures
            final(self)@ == old(self)@ + bytes@,
    {
        let ghost start = self.pending@;
        let mut i: usize = 0;
        while i < bytes.len()
            invariant
                i <= bytes@.len(),
                self.pending@ == start + bytes@.subrange(0, i as int),
            decreases bytes@.len() - i,
        {
            self.pending.push(bytes[i]);
            i = i + 1;
            assert(self.pending@ =~= start + bytes@.subrange(0, i as int));
        }
        assert(bytes@.subrange(0, bytes@.len() as int) =~= bytes@);
    }

    /// Takes the next whole frame, if the pending bytes hold one.
    ///
    /// `Ok(None)` means more bytes are needed; a reserved header is an error
    /// and leaves the pending bytes as they were.
    pub fn next_message(&mut self) -> (r: Result<Option<Message>, ProtocolError>)
        ensures
            match parse_frame(old(self)@) {
                DecodedView::Frame(m, n) => {
                    &&& r matches Ok(Some(msg))
                    &&& msg@ == m
                    &&& final(self)@ == old(self)@.skip(n as int)
                },
                DecodedView::Incomplete => r == Ok::<Option<Message>, ProtocolError>(None)
                    && final(self)@ == old(self)@,
                DecodedView::Invalid(h) => r == Err::<Option<Message>, ProtocolError>(
                    ProtocolError::Reserved(h as i16),
                ) && final(self)@ == old(self)@,
            },
    {
        match decode_frame(self.pending.as_slice()) {
            Decoded::Frame(msg, n) => {
                let mut rest: Vec<u8> = Vec::new();
                let mut i: usize = n;
                while i < self.pending.len()
                    invariant
                        n <= i <= self.pending@.len(),
                        rest@ == self.pending@.subrange(n as int, i as int),
                    decreases self.pending@.len() - i,
                {
                    rest.push(self.pending[i]);
                    i = i + 1;
                    assert(rest@ =~= self.pending@.subrange(n as int, i as int));
                }
                self.pending = rest;
                Ok(Some(msg))
            },
            Decoded::Incomplete => Ok(None),
            Decoded::Invalid(h) => Err(ProtocolError::Reserved(h)),
        }
    }

    /// Judges the end of the stream: clean only at a frame boundary.
    pub fn finish(&self) -> (r: Result<(), ProtocolError>)
        ensures
            r is Ok <==> self@.len() == 0,
            r is Err ==> r == Err::<(), ProtocolError>(ProtocolError::Truncated),
    {
        if self.pending.len() == 0 {
            Ok(())
        } else {
            Err(ProtocolError::Truncated)
        }
    }
}

proof fn lemma_be16_of_be_bytes(v: nat)
    requires
        v < 65536,
    ensures
        be16(be_bytes(v)[0], be_bytes(v)[1]) == v,
{
    assert((v / 256) as u8 == v / 256 && (v % 256) as u8 == v % 256) by (nonlinear_arith)
        requires
            v < 65536,
    ;
    assert((v / 256) * 256 + v % 256 == v) by (nonlinear_arith);
}

/// Decoding the frame of any encodable message, whatever bytes follow it,
/// yields that message and consumes exactly its frame.
pub proof fn lemma_frame_round_trip(m: MessageView, rest: Seq<u8>)
    requires
        encodable(m),
    ensures
        parse_frame(frame_of(m) + rest) == DecodedView::Frame(m, frame_of(m).len()),
{
    let s = frame_of(m) + rest;
    match m {
        MessageView::Data(p) => {
            lemma_be16_of_be_bytes(p.len());
            assert(s[0] == be_bytes(p.len())[0] && s[1] == be_bytes(p.len())[1]);
            assert(s.subrange(2, 2 + p.len() as int) =~= p);
        },
        MessageView::Resize(r, c) => {
            lemma_be16_of_be_bytes(r as nat);
            lemma_be16_of_be_bytes(c as nat);
            assert(s[2] == be_bytes(r as nat)[0] && s[3] == be_bytes(r as nat)[1]);
            assert(s[4] == be_bytes(c as nat)[0] && s[5] == be_bytes(c as nat)[1]);
        },
    }
}

} // verus!
