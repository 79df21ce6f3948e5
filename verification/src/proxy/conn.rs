//! The bytes of one connection: heads, and bodies that stream through a window.
//!
//! A read does not respect the bounds of messages: it may bring half a head, or a
//! head and the start of its body, or two requests. Whatever is not consumed yet
//! stays in the buffer for the next consumer. The program around the library reads
//! and writes; every function here says what it does to the bytes at hand, and
//! that the outcome does not depend on how the stream was cut into reads.

use vstd::prelude::*;
use vstd::string::{StrSliceExecFns, StringExecFns};
use vstd::utf8::{encode_utf8, is_ascii_chars};

use crate::fault::{bad_data, Fault, FaultKind};
use crate::http::{
    find_head_end, head_end, lemma_encode_sum, lemma_line_end_bytes, line_end, BodyFraming,
    MAX_HEAD_BYTES,
};
use crate::text::{
    before, bytes_text, debug_text, first_index, first_match, hexadecimal, is_hex_digit,
    lemma_first_index, lemma_first_match, lemma_first_match_is, lemma_hexadecimal,
    lemma_hexadecimal_reads_back, lemma_number_grows, own, parse_number, quoted, read_bytes, starts,
    trim, trimmed, unsigned, up_to,
};

verus! {

/// The window through which bodies stream.
pub const BUF_SIZE: usize = 16384;

/// The unconsumed bytes of a connection.
#[derive(Debug)]
pub struct Conn {
    pub buf: Vec<u8>,
}

impl View for Conn {
    type V = Seq<u8>;

    open spec fn view(&self) -> Seq<u8> {
        self.buf@
    }
}

/// What a look for a head finds.
pub enum HeadIn {
    /// A whole head, and the bytes behind it.
    Whole(Seq<u8>, Seq<u8>),
    /// No end of a head within the limit.
    TooLong,
    /// Not all of a head yet.
    Partial,
}

/// What bytes hold of a head: one that ends within the limit, or nothing that ever
/// can, or the start of one.
pub open spec fn head_in(x: Seq<u8>) -> HeadIn {
    match head_end(x) {
        Some(n) => if n <= MAX_HEAD_BYTES {
            HeadIn::Whole(x.take(n), x.skip(n))
        } else {
            HeadIn::TooLong
        },
        None => if x.len() >= MAX_HEAD_BYTES {
            HeadIn::TooLong
        } else {
            HeadIn::Partial
        },
    }
}

/// What a reader wants next.
#[derive(Debug)]
pub enum Wanted {
    /// Nothing: here is the head.
    Head(Vec<u8>),
    /// Another read.
    Read,
}

impl Conn {
    /// The buffer holds at most its window.
    pub open spec fn wf(&self) -> bool {
        self.buf@.len() <= BUF_SIZE
    }

    /// A connection of which nothing was read yet.
    pub fn new() -> (c: Conn)
        ensures
            c.wf(),
            c@ == Seq::<u8>::empty(),
    {
        let c = Conn { buf: Vec::new() };
        assert(c@ =~= Seq::empty());
        c
    }

    /// How many bytes the next read may bring.
    pub fn room(&self) -> (n: usize)
        requires
            self.wf(),
        ensures
            n == BUF_SIZE - self@.len(),
    {
        BUF_SIZE - self.buf.len()
    }

    /// Takes the bytes of a read.
    pub fn feed(&mut self, bytes: &[u8])
        requires
            old(self).wf(),
            bytes@.len() <= BUF_SIZE - old(self)@.len(),
        ensures
            final(self).wf(),
            final(self)@ == old(self)@ + bytes@,
    {
        let mut more = vstd::slice::slice_to_vec(bytes);
        self.buf.append(&mut more);
    }

    /// Drops consumed bytes.
    pub fn consume(&mut self, n: usize)
        requires
            old(self).wf(),
            n <= old(self)@.len(),
        ensures
            final(self).wf(),
            final(self)@ == old(self)@.skip(n as int),
    {
        let rest = vstd::slice::slice_to_vec(
            vstd::slice::slice_subrange(self.buf.as_slice(), n, self.buf.len()),
        );
        self.buf = rest;
        assert(self@ =~= old(self)@.skip(n as int));
    }

    /// Takes the first bytes out of the buffer.
    fn take(&mut self, n: usize) -> (w: Vec<u8>)
        requires
            old(self).wf(),
            n <= old(self)@.len(),
        ensures
            final(self).wf(),
            w@ == old(self)@.take(n as int),
            final(self)@ == old(self)@.skip(n as int),
    {
        let w = vstd::slice::slice_to_vec(
            vstd::slice::slice_subrange(self.buf.as_slice(), 0, n),
        );
        assert(w@ =~= old(self)@.take(n as int));
        self.consume(n);
        w
    }

    /// Is every byte consumed?
    pub fn buffer_is_empty(&self) -> (r: bool)
        ensures
            r == (self@.len() == 0),
    {
        self.buf.len() == 0
    }

    /// Takes a head out of the buffer, up to and with its blank line. A head that is
    /// not complete needs another read; one without an end within the limit is
    /// refused.
    pub fn read_head(&mut self) -> (r: Result<Wanted, Fault>)
        requires
            old(self).wf(),
        ensures
            final(self).wf(),
            match r {
                Ok(Wanted::Head(h)) => head_in(old(self)@) == HeadIn::Whole(h@, final(self)@),
                Ok(Wanted::Read) => head_in(old(self)@) is Partial && final(self)@ == old(self)@
                    && old(self)@.len() < BUF_SIZE,
                Err(e) => head_in(old(self)@) is TooLong && final(self)@ == old(self)@ && e.kind
                    == FaultKind::InvalidData && e.message@ == "request head exceeds limit"@,
            },
    {
        match find_head_end(self.buf.as_slice()) {
            Some(n) => Ok(Wanted::Head(self.take(n))),
            None => if self.buf.len() >= MAX_HEAD_BYTES {
                Err(bad_data(own("request head exceeds limit")))
            } else {
                Ok(Wanted::Read)
            },
        }
    }

    /// The peer closed while a head was awaited: between two messages that is no
    /// error.
    pub fn head_eof(&self) -> (r: Result<(), Fault>)
        ensures
            match r {
                Ok(()) => self@.len() == 0,
                Err(e) => self@.len() > 0 && e.kind == FaultKind::UnexpectedEof && e.message@
                    == "connection closed mid-head"@,
            },
    {
        if self.buf.len() == 0 {
            Ok(())
        } else {
            Err(cut_off("connection closed mid-head"))
        }
    }
}

fn cut_off(m: &str) -> (e: Fault)
    ensures
        e.kind == FaultKind::UnexpectedEof,
        e.message@ == m@,
{
    Fault { kind: FaultKind::UnexpectedEof, message: own(m) }
}

/// A head is found however the stream was cut: once it is whole, further bytes only
/// stand behind it; once it is too long, it stays so; and one that is found later ends
/// in the bytes that came later.
pub proof fn law_heads_may_be_cut_anywhere(a: Seq<u8>, b: Seq<u8>)
    ensures
        match head_in(a) {
            HeadIn::Whole(h, rest) => head_in(a + b) == HeadIn::Whole(h, rest + b),
            HeadIn::TooLong => head_in(a + b) is TooLong,
            HeadIn::Partial => head_in(a + b) matches HeadIn::Whole(h, _) ==> h.len() > a.len(),
        },
{
    let p = crate::http::blank_line();
    lemma_first_match(a, p);
    let i = first_match(a, p);
    if i < a.len() {
        assert((a + b).skip(i).take(4) =~= a.skip(i).take(4));
        lemma_found_early(a, b, p);
        assert((a + b).take(i + 4) =~= a.take(i + 4));
        assert((a + b).skip(i + 4) =~= a.skip(i + 4) + b);
    } else {
        lemma_found_late(a, b, p);
        lemma_first_match(a + b, p);
    }
}

/// A match in the front is the first match of the whole.
proof fn lemma_found_early(a: Seq<u8>, b: Seq<u8>, p: Seq<u8>)
    requires
        p.len() > 0,
        first_match(a, p) < a.len(),
    ensures
        first_match(a + b, p) == first_match(a, p),
        first_match(a, p) + p.len() <= a.len(),
{
    lemma_first_match(a, p);
    let i = first_match(a, p);
    let s = a + b;
    assert(s.skip(i).take(p.len() as int) =~= a.skip(i).take(p.len() as int));
    assert forall|k: int| 0 <= k < i implies !starts(#[trigger] s.skip(k), p) by {
        assert(!starts(a.skip(k), p));
        assert(s.skip(k).take(p.len() as int) =~= a.skip(k).take(p.len() as int));
    }
    lemma_first_match_is(s, p, i);
}

/// Where nothing is found in the front, nothing ends in it.
proof fn lemma_found_late(a: Seq<u8>, b: Seq<u8>, p: Seq<u8>)
    requires
        p.len() > 0,
        first_match(a, p) >= a.len(),
    ensures
        first_match(a + b, p) + p.len() > a.len(),
{
    lemma_first_match(a, p);
    lemma_first_match(a + b, p);
    let i = first_match(a + b, p);
    let s = a + b;
    if i + p.len() <= a.len() {
        assert(i < s.len());
        assert(starts(s.skip(i), p));
        assert(s.skip(i).take(p.len() as int) =~= a.skip(i).take(p.len() as int));
        assert(starts(a.skip(i), p));
        assert(i < first_match(a, p));
        assert(!starts(a.skip(i), p));
    }
}

// ---------------------------------------------------------------------------
// Lines
// ---------------------------------------------------------------------------

/// What a look for a line finds.
pub enum LineIn {
    /// A line without its end, and the bytes behind it.
    Whole(Seq<u8>, Seq<u8>),
    /// No end of a line within the window.
    TooLong,
    Partial,
}

/// What bytes hold of a line.
pub open spec fn line_in(x: Seq<u8>) -> LineIn {
    let p = first_match(x, line_end());
    if p + 2 <= x.len() && p + 2 <= BUF_SIZE {
        LineIn::Whole(x.take(p), x.skip(p + 2))
    } else if x.len() >= BUF_SIZE {
        LineIn::TooLong
    } else {
        LineIn::Partial
    }
}

proof fn lemma_line_cut(a: Seq<u8>, b: Seq<u8>)
    ensures
        match line_in(a) {
            LineIn::Whole(l, rest) => line_in(a + b) == LineIn::Whole(l, rest + b) && rest.len()
                < a.len(),
            LineIn::TooLong => line_in(a + b) is TooLong,
            LineIn::Partial => true,
        },
{
    let p = line_end();
    let s = a + b;
    lemma_first_match(a, p);
    lemma_first_match(s, p);
    let i = first_match(a, p);
    if i < a.len() {
        lemma_found_early(a, b, p);
        assert(s.take(i) =~= a.take(i));
        assert(s.skip(i + 2) =~= a.skip(i + 2) + b);
    } else {
        lemma_found_late(a, b, p);
    }
}

fn find_line_end(v: &Vec<u8>) -> (r: usize)
    ensures
        r == first_match(v@, line_end()),
        r < v@.len() ==> r + 2 <= v@.len(),
{
    let n: usize = v.len();
    let mut i: usize = 0;
    while i < n
        invariant
            i <= n == v@.len(),
            forall|k: int| 0 <= k < i ==> !starts(#[trigger] v@.skip(k), line_end()),
        decreases n - i,
    {
        if n - i >= 2 && v[i] == 13 && v[i + 1] == 10 {
            assert(v@.skip(i as int).take(2) =~= line_end());
            proof {
                lemma_first_match_is(v@, line_end(), i as int);
            }
            return i;
        }
        proof {
            let t = v@.skip(i as int);
            if starts(t, line_end()) {
                assert(t.take(2)[0] == 13 && t.take(2)[1] == 10);
                assert(false);
            }
        }
        i = i + 1;
    }
    proof {
        lemma_first_match_is(v@, line_end(), n as int);
    }
    n
}

// ---------------------------------------------------------------------------
// Bodies
// ---------------------------------------------------------------------------

/// How the copy of a body ended. A body over the limit is no failure of the
/// connection, and the caller has to answer it.
#[derive(Debug, Clone, Copy, PartialEq, Eq, Structural)]
pub enum BodyCopy {
    /// The whole body passed; the connection is usable again or not.
    Done { reusable: bool },
    /// The limit was reached. Of a chunked body a part has passed.
    TooLarge,
}

/// Where in a chunked body the copy stands.
#[derive(Debug, Clone, Copy, PartialEq, Eq, Structural)]
pub enum Phase {
    /// Before a line with a size.
    SizeLine,
    /// Before so many bytes of a chunk.
    Data(u64),
    /// Before the empty line behind a chunk.
    Separator,
    /// Before a line of the trailer.
    Trailer,
}

/// The copy of a body.
#[derive(Debug, Clone, Copy, PartialEq, Eq, Structural)]
pub enum Relay {
    Ended(BodyCopy),
    Failed,
    /// So many bytes are left.
    Length(u64),
    /// `seen` is the size of all chunks so far, without their framing.
    Chunked { phase: Phase, seen: u64, max: Option<u64> },
    /// `passed` is the size of all bytes so far.
    UntilClose { passed: u64, max: Option<u64> },
}

/// What passed of the bytes at hand, which are left, where the copy then stands,
/// and why it failed, if it did.
pub struct Passed {
    pub out: Seq<u8>,
    pub rest: Seq<u8>,
    pub state: Relay,
    pub fault: Option<Seq<char>>,
}

/// With more bytes in front of what passed.
pub open spec fn led(w: Seq<u8>, p: Passed) -> Passed {
    Passed { out: w + p.out, ..p }
}

/// The sum, and at most the largest that 64 bits hold.
pub open spec fn capped_sum(a: u64, b: int) -> u64 {
    if a + b > u64::MAX {
        u64::MAX
    } else {
        (a + b) as u64
    }
}

/// A size is over the limit.
pub open spec fn over(max: Option<u64>, n: u64) -> bool {
    max is Some && n > max->0
}

/// The text of a size line before its extensions.
pub open spec fn size_text(line: Seq<char>) -> Seq<char> {
    trimmed(before(line, ';'))
}

/// What a whole line of a chunked body does: the bytes that pass, and where the
/// copy then stands; or the refusal.
pub open spec fn on_line(phase: Phase, seen: u64, max: Option<u64>, line: Seq<char>) -> Result<
    (Seq<u8>, Relay),
    Seq<char>,
> {
    match phase {
        Phase::SizeLine => match unsigned(size_text(line), 16, u64::MAX as int) {
            None => Err("invalid chunk size: "@ + debug_text(line)),
            Some(n) => if over(max, capped_sum(seen, n)) {
                Ok((Seq::empty(), Relay::Ended(BodyCopy::TooLarge)))
            } else {
                Ok(
                    (
                        encode_utf8(size_text(line) + "\r\n"@),
                        Relay::Chunked {
                            phase: if n == 0 {
                                Phase::Trailer
                            } else {
                                Phase::Data(n as u64)
                            },
                            seen: capped_sum(seen, n),
                            max,
                        },
                    ),
                )
            },
        },
        Phase::Trailer => Ok(
            (
                encode_utf8(line + "\r\n"@),
                if line.len() == 0 {
                    Relay::Ended(BodyCopy::Done { reusable: true })
                } else {
                    Relay::Chunked { phase: Phase::Trailer, seen, max }
                },
            ),
        ),
        _ => if line.len() > 0 {
            Err("missing CRLF after chunk data"@)
        } else {
            Ok((encode_utf8("\r\n"@), Relay::Chunked { phase: Phase::SizeLine, seen, max }))
        },
    }
}

/// A chunk has bytes.
pub open spec fn well_placed(s: Relay) -> bool {
    match s {
        Relay::Chunked { phase: Phase::Data(n), .. } => n > 0,
        _ => true,
    }
}

/// What passes of a stream of bytes.
pub open spec fn relay(s: Relay, x: Seq<u8>) -> Passed
    decreases x.len(),
{
    match s {
        Relay::Ended(_) => Passed { out: Seq::empty(), rest: x, state: s, fault: None },
        Relay::Failed => Passed { out: Seq::empty(), rest: x, state: s, fault: None },
        Relay::Length(n) => if x.len() < n {
            Passed {
                out: x,
                rest: Seq::empty(),
                state: Relay::Length((n - x.len()) as u64),
                fault: None,
            }
        } else {
            Passed {
                out: x.take(n as int),
                rest: x.skip(n as int),
                state: Relay::Ended(BodyCopy::Done { reusable: true }),
                fault: None,
            }
        },
        Relay::UntilClose { passed, max } => Passed {
            out: x,
            rest: Seq::empty(),
            state: Relay::UntilClose { passed: capped_sum(passed, x.len() as int), max },
            fault: None,
        },
        Relay::Chunked { phase: Phase::Data(n), seen, max } => if x.len() < n || n == 0 {
            Passed {
                out: x,
                rest: Seq::empty(),
                state: Relay::Chunked { phase: Phase::Data((n - x.len()) as u64), seen, max },
                fault: None,
            }
        } else {
            led(
                x.take(n as int),
                relay(Relay::Chunked { phase: Phase::Separator, seen, max }, x.skip(n as int)),
            )
        },
        Relay::Chunked { phase, seen, max } => match line_in(x) {
            LineIn::Partial => Passed { out: Seq::empty(), rest: x, state: s, fault: None },
            LineIn::TooLong => Passed {
                out: Seq::empty(),
                rest: x,
                state: Relay::Failed,
                fault: Some("chunk line too long"@),
            },
            LineIn::Whole(l, rest) => match on_line(phase, seen, max, bytes_text(l)) {
                Err(m) => Passed { out: Seq::empty(), rest, state: Relay::Failed, fault: Some(m) },
                Ok((w, next)) => if rest.len() < x.len() {
                    led(w, relay(next, rest))
                } else {
                    Passed { out: Seq::empty(), rest: x, state: s, fault: None }
                },
            },
        },
    }
}

/// How the copy ends when the peer closes.
pub open spec fn at_eof(s: Relay) -> Result<BodyCopy, Seq<char>> {
    match s {
        Relay::Ended(b) => Ok(b),
        Relay::UntilClose { passed, max } => if over(max, passed) {
            Ok(BodyCopy::TooLarge)
        } else {
            Ok(BodyCopy::Done { reusable: false })
        },
        Relay::Chunked { phase: Phase::Data(_), .. } => Err("connection closed mid-body"@),
        Relay::Chunked { .. } => Err("connection closed mid-chunk"@),
        _ => Err("connection closed mid-body"@),
    }
}

/// What the copy of a body wants next.
#[derive(Debug)]
pub enum Step {
    /// These bytes pass.
    Write(Vec<u8>),
    /// Another read.
    Read,
    /// Nothing: the copy has ended.
    Ended(BodyCopy),
}

/// The start of a copy.
pub open spec fn started(framing: BodyFraming, max: Option<u64>) -> Relay {
    match framing {
        BodyFraming::Empty => Relay::Ended(BodyCopy::Done { reusable: true }),
        BodyFraming::Length(n) => if over(max, n) {
            Relay::Ended(BodyCopy::TooLarge)
        } else {
            Relay::Length(n)
        },
        BodyFraming::Chunked => Relay::Chunked { phase: Phase::SizeLine, seen: 0, max },
        BodyFraming::UntilClose => Relay::UntilClose { passed: 0, max },
    }
}

/// The start of draining the body of a refused request, of which at most `cap`
/// bytes are looked at. Whatever ends as too large is left unread, and the
/// connection is not usable again.
pub open spec fn draining(framing: BodyFraming, cap: u64) -> Relay {
    match framing {
        BodyFraming::UntilClose => Relay::Ended(BodyCopy::TooLarge),
        _ => started(framing, Some(cap)),
    }
}

impl Relay {
    /// Starts the copy of a body of at most `max` bytes. Of a body that declares its
    /// length nothing passes if that is over the limit; of any other body the limit
    /// is kept while it passes.
    pub fn start(framing: BodyFraming, max: Option<u64>) -> (s: Relay)
        ensures
            s == started(framing, max),
            well_placed(s),
    {
        match framing {
            BodyFraming::Empty => Relay::Ended(BodyCopy::Done { reusable: true }),
            BodyFraming::Length(n) => match max {
                Some(m) => if n > m {
                    Relay::Ended(BodyCopy::TooLarge)
                } else {
                    Relay::Length(n)
                },
                None => Relay::Length(n),
            },
            BodyFraming::Chunked => Relay::Chunked { phase: Phase::SizeLine, seen: 0, max },
            BodyFraming::UntilClose => Relay::UntilClose { passed: 0, max },
        }
    }

    /// Starts draining the body of a refused request. Unread bytes would make the
    /// closing socket reset the connection, and the refusal be lost.
    pub fn drain(framing: BodyFraming, cap: u64) -> (s: Relay)
        ensures
            s == draining(framing, cap),
            well_placed(s),
    {
        match framing {
            BodyFraming::UntilClose => Relay::Ended(BodyCopy::TooLarge),
            _ => Relay::start(framing, Some(cap)),
        }
    }

    /// Goes one step on with the bytes at hand. Whatever bytes follow, the step and
    /// the rest of the copy together do what the copy does of the whole stream.
    pub fn step(&mut self, conn: &mut Conn) -> (r: Result<Step, Fault>)
        requires
            well_placed(*old(self)),
            old(conn).wf(),
            !(*old(self) is Failed),
        ensures
            well_placed(*final(self)),
            final(conn).wf(),
            match r {
                Ok(Step::Write(w)) => w@.len() > 0 && !(*final(self) is Failed) && forall|f: Seq<u8>|
                    #[trigger] relay(*old(self), old(conn)@ + f) == led(
                        w@,
                        relay(*final(self), final(conn)@ + f),
                    ),
                Ok(Step::Read) => {
                    &&& *final(self) == *old(self)
                    &&& final(conn)@ == old(conn)@
                    &&& old(conn)@.len() < BUF_SIZE
                    &&& !(*old(self) is Ended)
                    &&& relay(*old(self), old(conn)@) == (Passed {
                        out: Seq::empty(),
                        rest: old(conn)@,
                        state: *old(self),
                        fault: None,
                    })
                },
                Ok(Step::Ended(b)) => *final(self) == Relay::Ended(b) && forall|f: Seq<u8>|
                    #[trigger] relay(*old(self), old(conn)@ + f) == (Passed {
                        out: Seq::empty(),
                        rest: final(conn)@ + f,
                        state: *final(self),
                        fault: None,
                    }),
                Err(e) => *final(self) == Relay::Failed && e.kind == FaultKind::InvalidData
                    && forall|f: Seq<u8>| #[trigger]
                    relay(*old(self), old(conn)@ + f) == (Passed {
                        out: Seq::empty(),
                        rest: final(conn)@ + f,
                        state: *final(self),
                        fault: Some(e.message@),
                    }),
            },
    {
        let ghost s = *self;
        let ghost b = conn@;
        match *self {
            Relay::Ended(c) => Ok(Step::Ended(c)),
            Relay::Failed => {
                assert(false);
                Ok(Step::Read)
            },
            Relay::Length(n) => {
                if n == 0 {
                    *self = Relay::Ended(BodyCopy::Done { reusable: true });
                    proof {
                        assert forall|f: Seq<u8>| #[trigger] relay(s, b + f) == (Passed {
                            out: Seq::empty(),
                            rest: b + f,
                            state: *self,
                            fault: None,
                        }) by {
                            assert((b + f).take(0) =~= Seq::empty());
                            assert((b + f).skip(0) =~= b + f);
                        }
                    }
                    return Ok(Step::Ended(BodyCopy::Done { reusable: true }));
                }
                if conn.buf.len() == 0 {
                    assert(b =~= Seq::empty());
                    return Ok(Step::Read);
                }
                let k: usize = if (conn.buf.len() as u64) < n {
                    conn.buf.len()
                } else {
                    n as usize
                };
                let w = conn.take(k);
                *self = Relay::Length(n - k as u64);
                proof {
                    assert forall|f: Seq<u8>| #[trigger] relay(s, b + f) == led(
                        w@,
                        relay(*self, conn@ + f),
                    ) by {
                        lemma_length_cut(n, b, f, k as int);
                    }
                }
                Ok(Step::Write(w))
            },
            Relay::UntilClose { passed, max } => {
                if conn.buf.len() == 0 {
                    assert(b =~= Seq::empty());
                    assert(capped_sum(passed, 0) == passed);
                    return Ok(Step::Read);
                }
                let k: usize = conn.buf.len();
                let w = conn.take(k);
                *self = Relay::UntilClose { passed: passed.saturating_add(k as u64), max };
                proof {
                    assert(w@ =~= b);
                    assert(conn@ =~= Seq::empty());
                    assert forall|f: Seq<u8>| #[trigger] relay(s, b + f) == led(
                        w@,
                        relay(*self, conn@ + f),
                    ) by {
                        assert(conn@ + f =~= f);
                    }
                }
                Ok(Step::Write(w))
            },
            Relay::Chunked { phase, seen, max } => match phase {
                Phase::Data(n) => {
                    if conn.buf.len() == 0 {
                        assert(b =~= Seq::empty());
                        return Ok(Step::Read);
                    }
                    let k: usize = if (conn.buf.len() as u64) < n {
                        conn.buf.len()
                    } else {
                        n as usize
                    };
                    let w = conn.take(k);
                    let left: u64 = n - k as u64;
                    *self = Relay::Chunked {
                        phase: if left == 0 {
                            Phase::Separator
                        } else {
                            Phase::Data(left)
                        },
                        seen,
                        max,
                    };
                    proof {
                        assert forall|f: Seq<u8>| #[trigger] relay(s, b + f) == led(
                            w@,
                            relay(*self, conn@ + f),
                        ) by {
                            lemma_data_cut(n, seen, max, b, f, k as int);
                        }
                    }
                    Ok(Step::Write(w))
                },
                _ => self.step_line(conn, phase, seen, max),
            },
        }
    }

    fn step_line(&mut self, conn: &mut Conn, phase: Phase, seen: u64, max: Option<u64>) -> (r:
        Result<Step, Fault>)
        requires
            *old(self) == (Relay::Chunked { phase, seen, max }),
            !(phase is Data),
            old(conn).wf(),
        ensures
            well_placed(*final(self)),
            final(conn).wf(),
            match r {
                Ok(Step::Write(w)) => w@.len() > 0 && !(*final(self) is Failed) && forall|f: Seq<u8>|
                    #[trigger] relay(*old(self), old(conn)@ + f) == led(
                        w@,
                        relay(*final(self), final(conn)@ + f),
                    ),
                Ok(Step::Read) => {
                    &&& *final(self) == *old(self)
                    &&& final(conn)@ == old(conn)@
                    &&& old(conn)@.len() < BUF_SIZE
                    &&& relay(*old(self), old(conn)@) == (Passed {
                        out: Seq::empty(),
                        rest: old(conn)@,
                        state: *old(self),
                        fault: None,
                    })
                },
                Ok(Step::Ended(b)) => *final(self) == Relay::Ended(b) && forall|f: Seq<u8>|
                    #[trigger] relay(*old(self), old(conn)@ + f) == (Passed {
                        out: Seq::empty(),
                        rest: final(conn)@ + f,
                        state: *final(self),
                        fault: None,
                    }),
                Err(e) => *final(self) == Relay::Failed && e.kind == FaultKind::InvalidData
                    && forall|f: Seq<u8>| #[trigger]
                    relay(*old(self), old(conn)@ + f) == (Passed {
                        out: Seq::empty(),
                        rest: final(conn)@ + f,
                        state: *final(self),
                        fault: Some(e.message@),
                    }),
            },
    {
        let ghost s = *self;
        let ghost b = conn@;
        let p: usize = find_line_end(&conn.buf);
        if p >= conn.buf.len() || p + 2 > BUF_SIZE {
            if conn.buf.len() >= BUF_SIZE {
                *self = Relay::Failed;
                proof {
                    assert forall|f: Seq<u8>| #[trigger] relay(s, b + f) == (Passed {
                        out: Seq::empty(),
                        rest: b + f,
                        state: *self,
                        fault: Some("chunk line too long"@),
                    }) by {
                        lemma_line_cut(b, f);
                    }
                }
                return Err(bad_data(own("chunk line too long")));
            }
            return Ok(Step::Read);
        }
        let l = conn.take(p);
        let ghost line = bytes_text(l@);
        conn.consume(2);
        let text = read_bytes(l.as_slice());
        assert(conn@ =~= b.skip(p + 2));
        assert(line_in(b) == LineIn::Whole(l@, conn@));
        proof {
            assert forall|f: Seq<u8>| #[trigger] line_in(b + f) == LineIn::Whole(l@, conn@ + f) by {
                lemma_line_cut(b, f);
            }
        }
        assert(encode_utf8("\r\n"@).len() > 0) by {
            lemma_line_end_bytes();
        }
        match phase {
            Phase::SizeLine => {
                let hex = trim(up_to(text.as_str(), ';'));
                match parse_number(hex, 16, u64::MAX as u128) {
                    None => {
                        let q = quoted(text.as_str());
                        *self = Relay::Failed;
                        Err(bad_data(own("invalid chunk size: ").concat(q.as_str())))
                    },
                    Some(wide) => {
                        let n: u64 = wide as u64;
                        let sum: u64 = seen.saturating_add(n);
                        let too_large = match max {
                            Some(m) => sum > m,
                            None => false,
                        };
                        if too_large {
                            *self = Relay::Ended(BodyCopy::TooLarge);
                            proof {
                                assert forall|f: Seq<u8>| #[trigger] relay(s, b + f) == (Passed {
                                    out: Seq::empty(),
                                    rest: conn@ + f,
                                    state: *self,
                                    fault: None,
                                }) by {
                                    assert(line_in(b + f) == LineIn::Whole(l@, conn@ + f));
                                    lemma_whole_line(phase, seen, max, b + f, l@, conn@ + f);
                                    lemma_led_by_nothing(relay(*self, conn@ + f));
                                }
                            }
                            return Ok(Step::Ended(BodyCopy::TooLarge));
                        }
                        *self = Relay::Chunked {
                            phase: if n == 0 {
                                Phase::Trailer
                            } else {
                                Phase::Data(n)
                            },
                            seen: sum,
                            max,
                        };
                        let out = own(hex).concat("\r\n");
                        proof {
                            lemma_ends_in_line_end(hex@);
                        }
                        Ok(Step::Write(out.as_str().as_bytes_vec()))
                    },
                }
            },
            Phase::Trailer => {
                if text.as_str().unicode_len() == 0 {
                    *self = Relay::Ended(BodyCopy::Done { reusable: true });
                }
                proof {
                    lemma_ends_in_line_end(text@);
                }
                let out = text.concat("\r\n");
                Ok(Step::Write(out.as_str().as_bytes_vec()))
            },
            _ => {
                if text.as_str().unicode_len() > 0 {
                    *self = Relay::Failed;
                    return Err(bad_data(own("missing CRLF after chunk data")));
                }
                *self = Relay::Chunked { phase: Phase::SizeLine, seen, max };
                Ok(Step::Write("\r\n".as_bytes_vec()))
            },
        }
    }

    /// How the copy ends when the peer closes while another read is wanted.
    pub fn eof(&self) -> (r: Result<BodyCopy, Fault>)
        ensures
            match r {
                Ok(b) => at_eof(*self) == Ok::<BodyCopy, Seq<char>>(b),
                Err(e) => e.kind == FaultKind::UnexpectedEof && at_eof(*self) == Err::<
                    BodyCopy,
                    Seq<char>,
                >(e.message@),
            },
    {
        match *self {
            Relay::Ended(b) => Ok(b),
            Relay::UntilClose { passed, max } => match max {
                Some(m) => if passed > m {
                    Ok(BodyCopy::TooLarge)
                } else {
                    Ok(BodyCopy::Done { reusable: false })
                },
                None => Ok(BodyCopy::Done { reusable: false }),
            },
            Relay::Chunked { phase, .. } => match phase {
                Phase::Data(_) => Err(cut_off("connection closed mid-body")),
                _ => Err(cut_off("connection closed mid-chunk")),
            },
            _ => Err(cut_off("connection closed mid-body")),
        }
    }
}

proof fn lemma_ends_in_line_end(s: Seq<char>)
    ensures
        encode_utf8(s + "\r\n"@) == encode_utf8(s) + line_end(),
        encode_utf8(s + "\r\n"@).len() > 0,
{
    lemma_encode_sum(s, "\r\n"@);
    lemma_line_end_bytes();
}

proof fn lemma_length_cut(n: u64, b: Seq<u8>, f: Seq<u8>, k: int)
    requires
        n > 0,
        b.len() > 0,
        k == if b.len() < n {
            b.len() as int
        } else {
            n as int
        },
    ensures
        relay(Relay::Length(n), b + f) == led(
            b.take(k),
            relay(Relay::Length((n - k) as u64), b.skip(k) + f),
        ),
{
    let x = b + f;
    let rest = b.skip(k) + f;
    if x.len() < n {
        assert(x =~= b.take(k) + rest);
    } else {
        assert(x.take(n as int) =~= b.take(k) + rest.take(n - k));
        assert(x.skip(n as int) =~= rest.skip(n - k));
    }
}

proof fn lemma_data_cut(n: u64, seen: u64, max: Option<u64>, b: Seq<u8>, f: Seq<u8>, k: int)
    requires
        n > 0,
        b.len() > 0,
        k == if b.len() < n {
            b.len() as int
        } else {
            n as int
        },
    ensures
        ({
            let s = Relay::Chunked { phase: Phase::Data(n), seen, max };
            let next = Relay::Chunked {
                phase: if k == n {
                    Phase::Separator
                } else {
                    Phase::Data((n - k) as u64)
                },
                seen,
                max,
            };
            relay(s, b + f) == led(b.take(k), relay(next, b.skip(k) + f))
        }),
{
    let x = b + f;
    let rest = b.skip(k) + f;
    let sep = Relay::Chunked { phase: Phase::Separator, seen, max };
    if x.len() < n {
        assert(x =~= b.take(k) + rest);
    } else {
        assert(x.skip(n as int) =~= rest.skip(n - k));
        assert(x.take(n as int) =~= b.take(k) + rest.take(n - k));
        let p = relay(sep, x.skip(n as int));
        if k == n {
            assert(x.take(n as int) =~= b.take(k));
            assert(rest.skip(0) =~= rest);
        } else {
            assert(x.take(n as int) + p.out =~= b.take(k) + (rest.take(n - k) + p.out));
        }
    }
}

proof fn lemma_led_by_nothing(p: Passed)
    ensures
        led(Seq::empty(), p) == p,
{
    assert(Seq::<u8>::empty() + p.out =~= p.out);
}

proof fn lemma_led_twice(a: Seq<u8>, b: Seq<u8>, p: Passed)
    ensures
        led(a, led(b, p)) == led(a + b, p),
{
    assert(a + (b + p.out) =~= (a + b) + p.out);
}

/// What a whole line does.
proof fn lemma_whole_line(
    phase: Phase,
    seen: u64,
    max: Option<u64>,
    x: Seq<u8>,
    l: Seq<u8>,
    rest: Seq<u8>,
)
    requires
        !(phase is Data),
        line_in(x) == LineIn::Whole(l, rest),
    ensures
        rest.len() < x.len(),
        relay(Relay::Chunked { phase, seen, max }, x) == match on_line(
            phase,
            seen,
            max,
            bytes_text(l),
        ) {
            Err(m) => Passed { out: Seq::empty(), rest, state: Relay::Failed, fault: Some(m) },
            Ok((w, next)) => led(w, relay(next, rest)),
        },
{
    lemma_first_match(x, line_end());
}

proof fn lemma_on_line(phase: Phase, seen: u64, max: Option<u64>, line: Seq<char>)
    ensures
        on_line(phase, seen, max, line) is Ok ==> well_placed(
            on_line(phase, seen, max, line)->Ok_0.1,
        ),
{
    let t = size_text(line);
    let u = if t.len() > 0 && t[0] == '+' {
        t.drop_first()
    } else {
        t
    };
    if unsigned(t, 16, u64::MAX as int) is Some {
        lemma_number_grows(u, 16, 0);
        assert(u.take(0) =~= Seq::empty());
    }
}

/// A first part that is not even a whole chunk.
proof fn lemma_cut_in_data(n: u64, seen: u64, max: Option<u64>, a: Seq<u8>, b: Seq<u8>)
    requires
        n > 0,
        a.len() < n,
    ensures
        ({
            let s = Relay::Chunked { phase: Phase::Data(n), seen, max };
            &&& relay(s, a + b) == led(relay(s, a).out, relay(relay(s, a).state, relay(s, a).rest + b))
            &&& well_placed(relay(s, a).state)
        }),
{
    let s = Relay::Chunked { phase: Phase::Data(n), seen, max };
    let none = Seq::<u8>::empty();
    if a.len() > 0 {
        lemma_data_cut(n, seen, max, a, b, a.len() as int);
        assert(a.take(a.len() as int) =~= a);
        assert(a.skip(a.len() as int) =~= none);
    } else {
        assert(a =~= none);
        assert(none + b =~= b);
        lemma_led_by_nothing(relay(s, b));
    }
}

/// A copy that is not chunked.
proof fn lemma_cut_plain(s: Relay, a: Seq<u8>, b: Seq<u8>)
    requires
        !(s is Chunked),
    ensures
        relay(s, a + b) == led(relay(s, a).out, relay(relay(s, a).state, relay(s, a).rest + b)),
        well_placed(relay(s, a).state),
{
    let none = Seq::<u8>::empty();
    lemma_led_by_nothing(relay(s, a + b));
    match s {
        Relay::Length(n) => {
            if a.len() < n {
                if a.len() > 0 {
                    lemma_length_cut(n, a, b, a.len() as int);
                    assert(a.take(a.len() as int) =~= a);
                    assert(a.skip(a.len() as int) =~= none);
                } else {
                    assert(a =~= none);
                    assert(none + b =~= b);
                }
            } else {
                assert((a + b).take(n as int) =~= a.take(n as int));
                assert((a + b).skip(n as int) =~= a.skip(n as int) + b);
                assert(a.take(n as int) + none =~= a.take(n as int));
            }
        },
        Relay::UntilClose { passed, max } => {
            assert(none + b =~= b);
        },
        _ => {},
    }
}

/// The outcome of a copy does not depend on how the stream was cut into reads: what
/// passes of a first part, and then of its rest with a second part behind it, is
/// what passes of both together.
pub proof fn law_bodies_may_be_cut_anywhere(s: Relay, a: Seq<u8>, b: Seq<u8>)
    requires
        well_placed(s),
        relay(s, a).fault is None,
    ensures
        relay(s, a + b) == led(relay(s, a).out, relay(relay(s, a).state, relay(s, a).rest + b)),
        well_placed(relay(s, a).state),
    decreases a.len(),
{
    match s {
        Relay::Chunked { phase: Phase::Data(n), seen, max } => {
            let sep = Relay::Chunked { phase: Phase::Separator, seen, max };
            if a.len() < n {
                lemma_cut_in_data(n, seen, max, a, b);
            } else {
                let t = a.skip(n as int);
                let p = relay(sep, t);
                law_bodies_may_be_cut_anywhere(sep, t, b);
                assert((a + b).take(n as int) =~= a.take(n as int));
                assert((a + b).skip(n as int) =~= t + b);
                lemma_led_twice(a.take(n as int), p.out, relay(p.state, p.rest + b));
            }
        },
        Relay::Chunked { phase, seen, max } => {
            lemma_line_cut(a, b);
            match line_in(a) {
                LineIn::Partial => {
                    lemma_led_by_nothing(relay(s, a + b));
                },
                LineIn::TooLong => {},
                LineIn::Whole(l, rest) => {
                    lemma_whole_line(phase, seen, max, a, l, rest);
                    lemma_whole_line(phase, seen, max, a + b, l, rest + b);
                    lemma_on_line(phase, seen, max, bytes_text(l));
                    match on_line(phase, seen, max, bytes_text(l)) {
                        Err(m) => {},
                        Ok((w, next)) => {
                            let p = relay(next, rest);
                            law_bodies_may_be_cut_anywhere(next, rest, b);
                            lemma_led_twice(w, p.out, relay(p.state, p.rest + b));
                        },
                    }
                },
            }
        },
        _ => {
            lemma_cut_plain(s, a, b);
        },
    }
}

// ---------------------------------------------------------------------------
// Chunks
// ---------------------------------------------------------------------------

/// One chunk on the wire.
pub open spec fn chunk_bytes(data: Seq<u8>) -> Seq<u8> {
    encode_utf8(hexadecimal(data.len()) + "\r\n"@) + data + line_end()
}

/// A whole chunked body on the wire, without trailers.
pub open spec fn chunked_bytes(chunks: Seq<Seq<u8>>) -> Seq<u8>
    decreases chunks.len(),
{
    if chunks.len() == 0 {
        encode_utf8(hexadecimal(0) + "\r\n"@) + line_end()
    } else {
        chunk_bytes(chunks[0]) + chunked_bytes(chunks.drop_first())
    }
}

/// The bytes of all chunks, without their framing.
pub open spec fn payload(chunks: Seq<Seq<u8>>) -> nat
    decreases chunks.len(),
{
    if chunks.len() == 0 {
        0
    } else {
        chunks[0].len() + payload(chunks.drop_first())
    }
}

/// A line of characters that are neither a return nor a line feed is found.
proof fn lemma_line_of(t: Seq<char>, rest: Seq<u8>)
    requires
        t.len() < 100,
        forall|i: int| 0 <= i < t.len() ==> is_hex_digit(#[trigger] t[i]),
    ensures
        line_in(encode_utf8(t + "\r\n"@) + rest) == LineIn::Whole(encode_utf8(t), rest),
        bytes_text(encode_utf8(t)) == t,
{
    let e = encode_utf8(t);
    vstd::utf8::encode_utf8_valid_utf8(t);
    vstd::utf8::encode_utf8_decode_utf8(t);
    lemma_ends_in_line_end(t);
    assert(is_ascii_chars(t)) by {
        assert forall|i: int| 0 <= i < t.len() implies 0 <= #[trigger] t[i] < 128 by {
            assert(is_hex_digit(t[i]));
        }
    }
    vstd::utf8::is_ascii_chars_encode_utf8(t);
    let x = encode_utf8(t + "\r\n"@) + rest;
    let n = t.len() as int;
    assert(x =~= e + line_end() + rest);
    assert forall|k: int| 0 <= k < n implies !starts(#[trigger] x.skip(k), line_end()) by {
        assert(x.skip(k)[0] == e[k]);
        assert(is_hex_digit(t[k]));
        assert(t[k] as u8 == e[k]);
        if starts(x.skip(k), line_end()) {
            assert(x.skip(k).take(2)[0] == 13);
        }
    }
    assert(x.skip(n).take(2) =~= line_end());
    lemma_first_match_is(x, line_end(), n);
    assert(x.take(n) =~= e);
    assert(x.skip(n + 2) =~= rest);
}

/// An empty line is found.
proof fn lemma_empty_line(rest: Seq<u8>)
    ensures
        line_in(line_end() + rest) == LineIn::Whole(Seq::empty(), rest),
        bytes_text(Seq::empty()) == Seq::<char>::empty(),
{
    lemma_line_of(Seq::empty(), rest);
    lemma_ends_in_line_end(Seq::empty());
    assert(encode_utf8(Seq::empty()) =~= Seq::empty());
    assert(Seq::<u8>::empty() + line_end() =~= line_end());
}

proof fn lemma_size_text(n: nat)
    requires
        n <= u64::MAX,
    ensures
        size_text(hexadecimal(n)) == hexadecimal(n),
        unsigned(hexadecimal(n), 16, u64::MAX as int) == Some(n as int),
{
    let t = hexadecimal(n);
    lemma_hexadecimal(n);
    lemma_hexadecimal_reads_back(n, u64::MAX as int);
    lemma_first_index(t, ';');
    assert(first_index(t, ';') == t.len()) by {
        if first_index(t, ';') < t.len() {
            assert(is_hex_digit(t[first_index(t, ';')]));
        }
    }
    assert(before(t, ';') =~= t);
    assert(is_hex_digit(t[0]));
    assert(is_hex_digit(t[t.len() - 1]));
}

/// One chunk passes as it is.
proof fn lemma_chunk_passes(data: Seq<u8>, seen: u64, max: Option<u64>, tail: Seq<u8>)
    requires
        data.len() > 0,
        seen + data.len() <= u64::MAX,
        !over(max, (seen + data.len()) as u64),
    ensures
        relay(
            Relay::Chunked { phase: Phase::SizeLine, seen, max },
            chunk_bytes(data) + tail,
        ) == led(
            chunk_bytes(data),
            relay(
                Relay::Chunked {
                    phase: Phase::SizeLine,
                    seen: (seen + data.len()) as u64,
                    max,
                },
                tail,
            ),
        ),
{
    let n = data.len();
    let t = hexadecimal(n);
    let sum = (seen + n) as u64;
    let s = Relay::Chunked { phase: Phase::SizeLine, seen, max };
    let in_data = Relay::Chunked { phase: Phase::Data(n as u64), seen: sum, max };
    let sep = Relay::Chunked { phase: Phase::Separator, seen: sum, max };
    let next = Relay::Chunked { phase: Phase::SizeLine, seen: sum, max };
    lemma_hexadecimal(n);
    lemma_size_text(n);
    let head = encode_utf8(t + "\r\n"@);
    let x1 = data + line_end() + tail;
    let x2 = line_end() + tail;
    let x = chunk_bytes(data) + tail;
    assert(x =~= head + x1);
    lemma_line_of(t, x1);
    lemma_whole_line(Phase::SizeLine, seen, max, x, encode_utf8(t), x1);
    assert(relay(s, x) == led(head, relay(in_data, x1)));
    assert(x1.take(n as int) =~= data);
    assert(x1.skip(n as int) =~= x2);
    assert(relay(in_data, x1) == led(data, relay(sep, x2)));
    lemma_empty_line(tail);
    lemma_line_end_bytes();
    lemma_whole_line(Phase::Separator, sum, max, x2, Seq::empty(), tail);
    assert(relay(sep, x2) == led(line_end(), relay(next, tail)));
    lemma_led_twice(data, line_end(), relay(next, tail));
    lemma_led_twice(head, data + line_end(), relay(next, tail));
    assert(head + (data + line_end()) =~= chunk_bytes(data));
}

/// A chunked body within the limit passes byte for byte, and exactly to its end: the
/// bytes behind it are left for the next message.
pub proof fn law_chunks_pass_verbatim(
    chunks: Seq<Seq<u8>>,
    seen: u64,
    max: Option<u64>,
    tail: Seq<u8>,
)
    requires
        forall|i: int| 0 <= i < chunks.len() ==> (#[trigger] chunks[i]).len() > 0,
        seen + payload(chunks) <= u64::MAX,
        max is Some ==> seen + payload(chunks) <= max->0,
    ensures
        relay(
            Relay::Chunked { phase: Phase::SizeLine, seen, max },
            chunked_bytes(chunks) + tail,
        ) == (Passed {
            out: chunked_bytes(chunks),
            rest: tail,
            state: Relay::Ended(BodyCopy::Done { reusable: true }),
            fault: None,
        }),
    decreases chunks.len(),
{
    let s = Relay::Chunked { phase: Phase::SizeLine, seen, max };
    if chunks.len() == 0 {
        let head = encode_utf8(hexadecimal(0) + "\r\n"@);
        let x = chunked_bytes(chunks) + tail;
        let x1 = line_end() + tail;
        assert(x =~= head + x1);
        lemma_hexadecimal(0);
        lemma_size_text(0);
        lemma_line_of(hexadecimal(0), x1);
        lemma_whole_line(Phase::SizeLine, seen, max, x, encode_utf8(hexadecimal(0)), x1);
        let trailer = Relay::Chunked { phase: Phase::Trailer, seen, max };
        assert(relay(s, x) == led(head, relay(trailer, x1)));
        lemma_empty_line(tail);
        lemma_line_end_bytes();
        lemma_whole_line(Phase::Trailer, seen, max, x1, Seq::empty(), tail);
        assert(Seq::<char>::empty() + "\r\n"@ =~= "\r\n"@);
        let done = Relay::Ended(BodyCopy::Done { reusable: true });
        assert(relay(trailer, x1) == led(line_end(), relay(done, tail)));
        lemma_led_twice(head, line_end(), relay(done, tail));
        assert(chunked_bytes(chunks) + Seq::<u8>::empty() =~= chunked_bytes(chunks));
    } else {
        let rest = chunks.drop_first();
        let n = chunks[0].len();
        assert forall|i: int| 0 <= i < rest.len() implies (#[trigger] rest[i]).len() > 0 by {
            assert(rest[i] == chunks[i + 1]);
        }
        assert(chunked_bytes(chunks) + tail =~= chunk_bytes(chunks[0]) + (chunked_bytes(rest)
            + tail));
        lemma_chunk_passes(chunks[0], seen, max, chunked_bytes(rest) + tail);
        law_chunks_pass_verbatim(rest, (seen + n) as u64, max, tail);
    }
}

/// A chunked copy never goes beyond its limit: the sizes of the chunks that passed,
/// and of the one that is passing, add up to no more.
pub proof fn law_the_limit_is_kept(s: Relay, x: Seq<u8>, m: u64)
    requires
        well_placed(s),
        s is Chunked,
        s->Chunked_max == Some(m),
        s->Chunked_seen <= m,
    ensures
        match relay(s, x).state {
            Relay::Chunked { seen, max, .. } => max == Some(m) && seen <= m,
            _ => true,
        },
    decreases x.len(),
{
    match s {
        Relay::Chunked { phase: Phase::Data(n), seen, max } => {
            if x.len() >= n {
                law_the_limit_is_kept(
                    Relay::Chunked { phase: Phase::Separator, seen, max },
                    x.skip(n as int),
                    m,
                );
            }
        },
        Relay::Chunked { phase, seen, max } => {
            lemma_line_cut(x, Seq::empty());
            if let LineIn::Whole(l, rest) = line_in(x) {
                lemma_whole_line(phase, seen, max, x, l, rest);
                lemma_on_line(phase, seen, max, bytes_text(l));
                if let Ok((w, next)) = on_line(phase, seen, max, bytes_text(l)) {
                    if next is Chunked {
                        law_the_limit_is_kept(next, rest, m);
                    }
                }
            }
        },
        _ => {},
    }
}

} // verus!
