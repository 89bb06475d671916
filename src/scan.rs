//! The terminator scanner: a state machine that takes the bytes of a request
//! head as they arrive, assembles lines, hands each completed line to the
//! head builder and stops right after the blank line that ends the head.
//!
//! The machine consumes one byte per transition. Its model is the fold
//! `scan` of the transition `step` over the bytes consumed so far, so the
//! state, and therefore the result, depends on those bytes alone and not on
//! how the source fragmented them. `window` tells the caller how many bytes
//! to ask for next: never more than the shortest way to the blank line, so
//! nothing after the head is ever taken from the source.
use vstd::prelude::*;
use vstd::utf8::*;

use crate::error::HeadError;
use crate::head::{add_line, empty_head, Builder, Head, HeadModel};
use crate::text::copy_range;
use crate::utf8::{classify_scalar, lemma_extend_by_scalar, scalar_step, ScalarStep};

verus! {

/// Carriage return.
pub const CR: u8 = 13;

/// Line feed.
pub const LF: u8 = 10;

/// The byte budget of a head unless another is given.
pub const DEFAULT_HEAD_LIMIT: usize = 2048;

/// Where recognition stands.
#[derive(Debug, Clone, Copy, PartialEq, Eq, Structural)]
pub enum Status {
    /// more bytes are needed
    Scanning,
    /// the blank line was consumed; the head is complete
    Done,
    /// recognition stopped on an error
    Failed(HeadError),
}

/// The scanner's state, as values.
pub struct ScanModel {
    /// the head built from the completed lines
    pub head: HeadModel,
    /// the line being assembled, without its line break
    pub line: Seq<u8>,
    /// the bytes of a code point that is not complete yet
    pub pending: Seq<u8>,
    /// the last byte was a carriage return
    pub cr: bool,
    /// the number of bytes consumed
    pub count: nat,
    pub status: Status,
}

/// The state before any byte.
pub open spec fn start() -> ScanModel {
    ScanModel {
        head: empty_head(),
        line: seq![],
        pending: seq![],
        cr: false,
        count: 0,
        status: Status::Scanning,
    }
}

/// One byte consumed. A carriage return must be followed by a line feed; the
/// pair completes the line, which goes to the builder, unless the line is
/// empty and the request line is in: that is the blank line, and the head is
/// done. Any other byte extends the current code point, and a complete code
/// point extends the line. More than `limit` bytes fail the head.
pub open spec fn step(s: ScanModel, b: u8, limit: nat) -> ScanModel {
    let s1 = ScanModel { count: s.count + 1, ..s };
    if !(s.status is Scanning) {
        s
    } else if s.count >= limit {
        ScanModel { status: Status::Failed(HeadError::HeadTooLarge), ..s1 }
    } else if s.cr {
        if b != LF {
            ScanModel { status: Status::Failed(HeadError::BareLineBreak), ..s1 }
        } else if s.line.len() == 0 && s.head.request is Some {
            ScanModel { cr: false, status: Status::Done, ..s1 }
        } else {
            match add_line(s.head, s.line) {
                Ok(h) => ScanModel { head: h, line: seq![], cr: false, ..s1 },
                Err(e) => ScanModel { status: Status::Failed(e), ..s1 },
            }
        }
    } else if b == CR {
        if s.pending.len() > 0 {
            ScanModel { status: Status::Failed(HeadError::InvalidUtf8), ..s1 }
        } else {
            ScanModel { cr: true, ..s1 }
        }
    } else if b == LF {
        ScanModel { status: Status::Failed(HeadError::BareLineBreak), ..s1 }
    } else {
        let c = s.pending.push(b);
        match scalar_step(c) {
            ScalarStep::Complete => ScanModel { line: s.line + c, pending: seq![], ..s1 },
            ScalarStep::Partial => ScanModel { pending: c, ..s1 },
            ScalarStep::Invalid => ScanModel {
                status: Status::Failed(HeadError::InvalidUtf8),
                ..s1
            },
        }
    }
}

/// The state after consuming `bytes` from `s`.
pub open spec fn run(s: ScanModel, bytes: Seq<u8>, limit: nat) -> ScanModel
    decreases bytes.len(),
{
    if bytes.len() == 0 {
        s
    } else {
        step(run(s, bytes.drop_last(), limit), bytes.last(), limit)
    }
}

/// The state after consuming `bytes` from the start.
pub open spec fn scan(bytes: Seq<u8>, limit: nat) -> ScanModel {
    run(start(), bytes, limit)
}

/// The fewest bytes that can still lead to the blank line.
pub open spec fn reach(s: ScanModel) -> nat {
    if s.pending.len() > 0 {
        4
    } else if s.cr {
        if s.line.len() == 0 && s.head.request is Some {
            1
        } else {
            3
        }
    } else if s.line.len() == 0 && s.head.request is Some {
        2
    } else {
        4
    }
}

/// How many bytes to ask the source for next: one at a time while a code
/// point is incomplete, else exactly the bytes that can still belong to the
/// head whatever they are.
pub open spec fn window(s: ScanModel) -> nat {
    if s.pending.len() > 0 {
        1
    } else {
        reach(s)
    }
}

/// What recognition gives in state `s` when no more bytes come.
pub open spec fn outcome(s: ScanModel) -> Result<HeadModel, HeadError> {
    match s.status {
        Status::Done => Ok(s.head),
        Status::Failed(e) => Err(e),
        Status::Scanning => Err(HeadError::UnexpectedEnd),
    }
}

/// Consuming two pieces one after the other is consuming them joined.
pub proof fn lemma_run_append(s: ScanModel, p: Seq<u8>, q: Seq<u8>, limit: nat)
    ensures
        run(s, p + q, limit) == run(run(s, p, limit), q, limit),
    decreases q.len(),
{
    if q.len() == 0 {
        assert(p + q =~= p);
    } else {
        assert((p + q).drop_last() =~= p + q.drop_last());
        lemma_run_append(s, p, q.drop_last(), limit);
    }
}

/// Once recognition has stopped, further bytes change nothing.
proof fn lemma_run_stopped(s: ScanModel, q: Seq<u8>, limit: nat)
    requires
        !(s.status is Scanning),
    ensures
        run(s, q, limit) == s,
    decreases q.len(),
{
    if q.len() > 0 {
        lemma_run_stopped(s, q.drop_last(), limit);
    }
}

/// The state after a prefix that stopped recognition is the state after any
/// longer input.
pub proof fn lemma_scan_settles(input: Seq<u8>, n: int, limit: nat)
    requires
        0 <= n <= input.len(),
        !(scan(input.take(n), limit).status is Scanning),
    ensures
        scan(input, limit) == scan(input.take(n), limit),
{
    lemma_run_append(start(), input.take(n), input.skip(n), limit);
    assert(input.take(n) + input.skip(n) =~= input);
    lemma_run_stopped(scan(input.take(n), limit), input.skip(n), limit);
}

/// A step from a scanning state reaches the blank line only where one byte was
/// all that it lacked, and otherwise shortens the way to it by one byte at most.
proof fn lemma_step_reach(s: ScanModel, b: u8, limit: nat)
    requires
        s.status is Scanning,
        s.cr ==> s.pending.len() == 0,
    ensures
        step(s, b, limit).status is Done ==> reach(s) == 1,
        step(s, b, limit).status is Scanning ==> reach(step(s, b, limit)) + 1 >= reach(s),
{
    let t = step(s, b, limit);
    if s.count < limit && s.cr && b == LF && !(s.line.len() == 0 && s.head.request is Some) {
        if let Ok(h) = add_line(s.head, s.line) {
            assert(h.request is Some);
        }
    }
}

/// The scanner itself.
pub struct Recognizer {
    builder: Builder,
    line: Vec<u8>,
    pending: Vec<u8>,
    cr: bool,
    count: usize,
    limit: usize,
    status: Status,
    consumed: Ghost<Seq<u8>>,
}

impl View for Recognizer {
    type V = ScanModel;

    closed spec fn view(&self) -> ScanModel {
        ScanModel {
            head: self.builder@,
            line: self.line@,
            pending: self.pending@,
            cr: self.cr,
            count: self.consumed@.len(),
            status: self.status,
        }
    }
}

impl Recognizer {
    /// The bytes consumed so far.
    pub closed spec fn consumed(&self) -> Seq<u8> {
        self.consumed@
    }

    /// The byte budget of the head.
    pub closed spec fn budget(&self) -> nat {
        self.limit as nat
    }

    /// The state is the fold of the transition over the bytes consumed.
    pub closed spec fn wf(&self) -> bool {
        &&& self@ == scan(self.consumed@, self.limit as nat)
        &&& self.status is Scanning ==> self.count == self.consumed@.len() && self.count
            <= self.limit
        &&& self.builder.wf()
        &&& valid_utf8(self.line@)
        &&& self.pending@.len() <= 3
        &&& self.cr ==> self.pending@.len() == 0
    }

    /// A scanner with the default budget.
    pub fn new() -> (r: Recognizer)
        ensures
            r.wf(),
            r.consumed() == Seq::<u8>::empty(),
            r.budget() == DEFAULT_HEAD_LIMIT,
            r@ == start(),
    {
        Recognizer::with_limit(DEFAULT_HEAD_LIMIT)
    }

    /// A scanner that fails a head longer than `limit` bytes.
    pub fn with_limit(limit: usize) -> (r: Recognizer)
        ensures
            r.wf(),
            r.consumed() == Seq::<u8>::empty(),
            r.budget() == limit,
            r@ == start(),
    {
        let r = Recognizer {
            builder: Builder::new(),
            line: Vec::new(),
            pending: Vec::new(),
            cr: false,
            count: 0,
            limit,
            status: Status::Scanning,
            consumed: Ghost(Seq::empty()),
        };
        assert(r.line@ =~= Seq::<u8>::empty());
        r
    }

    /// Where recognition stands.
    pub fn status(&self) -> (r: Status)
        ensures
            r == self@.status,
    {
        self.status
    }

    /// `true` while more bytes are needed.
    pub fn is_scanning(&self) -> (r: bool)
        ensures
            r == self@.status is Scanning,
    {
        match self.status {
            Status::Scanning => true,
            _ => false,
        }
    }

    /// The line assembled so far, for reporting where a head broke off.
    pub fn partial_line(&self) -> (r: Vec<u8>)
        ensures
            r@ == self@.line,
    {
        self.line.clone()
    }

    /// How many bytes to ask the source for next.
    pub fn window(&self) -> (r: usize)
        requires
            self.wf(),
        ensures
            r == window(self@),
            1 <= r <= 4,
    {
        let started = self.builder.has_request();
        if self.pending.len() > 0 {
            1
        } else if self.cr {
            if self.line.len() == 0 && started {
                1
            } else {
                3
            }
        } else if self.line.len() == 0 && started {
            2
        } else {
            4
        }
    }

    /// Consumes one byte.
    pub fn push(&mut self, b: u8)
        requires
            old(self).wf(),
            old(self)@.status is Scanning,
        ensures
            final(self).wf(),
            final(self).consumed() == old(self).consumed().push(b),
            final(self).budget() == old(self).budget(),
            final(self)@ == step(old(self)@, b, old(self).budget()),
    {
        let ghost prev = self.consumed@;
        proof {
            assert(prev.push(b).drop_last() =~= prev);
        }
        self.consumed = Ghost(self.consumed@.push(b));
        if self.count >= self.limit {
            self.status = Status::Failed(HeadError::HeadTooLarge);
            return;
        }
        self.count = self.count + 1;
        if self.cr {
            if b != LF {
                self.status = Status::Failed(HeadError::BareLineBreak);
            } else if self.line.len() == 0 && self.builder.has_request() {
                self.cr = false;
                self.status = Status::Done;
            } else {
                match self.builder.take_line(self.line.as_slice()) {
                    Ok(()) => {
                        self.line.clear();
                        self.cr = false;
                        assert(self.line@ =~= Seq::<u8>::empty());
                    },
                    Err(e) => {
                        self.status = Status::Failed(e);
                    },
                }
            }
        } else if b == CR {
            if self.pending.len() > 0 {
                self.status = Status::Failed(HeadError::InvalidUtf8);
            } else {
                self.cr = true;
            }
        } else if b == LF {
            self.status = Status::Failed(HeadError::BareLineBreak);
        } else {
            let ghost before = self.pending@;
            self.pending.push(b);
            match classify_scalar(self.pending.as_slice()) {
                ScalarStep::Complete => {
                    proof {
                        lemma_extend_by_scalar(self.line@, self.pending@);
                    }
                    self.line.append(&mut self.pending);
                    assert(self.pending@ =~= Seq::<u8>::empty());
                },
                ScalarStep::Partial => {},
                ScalarStep::Invalid => {
                    self.pending.pop();
                    assert(self.pending@ =~= before);
                    self.status = Status::Failed(HeadError::InvalidUtf8);
                },
            }
        }
    }

    /// Consumes a fragment of at most `window()` bytes, stopping early only
    /// where recognition fails; returns how many bytes it took. The head never
    /// ends before the last byte of such a fragment, so a fragment never
    /// reaches past the blank line.
    pub fn feed(&mut self, bytes: &[u8]) -> (taken: usize)
        requires
            old(self).wf(),
            old(self)@.status is Scanning,
            bytes@.len() <= window(old(self)@),
        ensures
            final(self).wf(),
            final(self).budget() == old(self).budget(),
            taken <= bytes@.len(),
            final(self).consumed() == old(self).consumed() + bytes@.take(taken as int),
            final(self)@ == run(old(self)@, bytes@.take(taken as int), old(self).budget()),
            taken > 0 ==> run(old(self)@, bytes@.take(taken - 1), old(self).budget()).status is Scanning,
            taken < bytes@.len() ==> final(self)@.status is Failed,
            bytes@.len() > 0 ==> taken >= 1,
            final(self)@.status is Done ==> taken == bytes@.len(),
    {
        let mut i: usize = 0;
        while i < bytes.len() && self.is_scanning()
            invariant
                self.wf(),
                self.budget() == old(self).budget(),
                i <= bytes@.len(),
                self.consumed() == old(self).consumed() + bytes@.take(i as int),
                self@.status is Scanning ==> bytes@.len() - i <= reach(self@),
                self@.status is Done ==> i == bytes@.len(),
                !(self@.status is Scanning) ==> i >= 1,
                i > 0 ==> run(old(self)@, bytes@.take(i - 1), self.budget()).status is Scanning,
                old(self).wf(),
            decreases bytes@.len() - i,
        {
            let ghost before = self@;
            proof {
                lemma_run_append(start(), old(self).consumed(), bytes@.take(i as int), self.budget());
                assert(before == run(old(self)@, bytes@.take(i as int), self.budget()));
            }
            proof {
                lemma_step_reach(self@, bytes@[i as int], self.budget());
            }
            self.push(bytes[i]);
            i = i + 1;
            assert(bytes@.take(i as int) =~= bytes@.take(i - 1).push(bytes@[i - 1]));
            assert(run(old(self)@, bytes@.take(i - 1), self.budget()) == before);
        }
        proof {
            lemma_run_append(start(), old(self).consumed(), bytes@.take(i as int), self.budget());
        }
        i
    }

    /// Ends recognition: the head once the blank line was consumed, else the
    /// error that stopped it, or `UnexpectedEnd` while it still needed bytes.
    pub fn finish(self) -> (r: Result<Head, HeadError>)
        requires
            self.wf(),
        ensures
            match outcome(self@) {
                Ok(h) => r matches Ok(x) && x@ == h && x.wf(),
                Err(e) => r matches Err(x) && x == e,
            },
    {
        match self.status {
            Status::Done => Ok(self.builder.collect::<Head>()),
            Status::Failed(e) => Err(e),
            Status::Scanning => Err(HeadError::UnexpectedEnd),
        }
    }
}

/// Recognizes the head at the start of `input`, read from a source that
/// hands over at most `reads[k]` bytes on its k-th read (taking `reads` round
/// and round) and never more than the scanner asks for. On success gives the
/// head and the number of bytes it took: the body starts there. The result
/// is the same for every way of fragmenting `input`.
pub fn recognize_fragmented(input: &[u8], reads: &[usize]) -> (r: Result<(Head, usize), HeadError>)
    requires
        reads@.len() > 0,
        forall|i: int| 0 <= i < reads@.len() ==> reads@[i] >= 1,
    ensures
        match outcome(scan(input@, DEFAULT_HEAD_LIMIT as nat)) {
            Ok(h) => r matches Ok((x, n)) && x@ == h && x.wf() && n == scan(
                input@,
                DEFAULT_HEAD_LIMIT as nat,
            ).count,
            Err(e) => r matches Err(x) && x == e,
        },
{
    let mut rec = Recognizer::new();
    let mut pos: usize = 0;
    let mut k: usize = 0;
    while pos < input.len() && rec.is_scanning()
        invariant
            rec.wf(),
            rec.budget() == DEFAULT_HEAD_LIMIT,
            pos <= input@.len(),
            k < reads@.len(),
            forall|i: int| 0 <= i < reads@.len() ==> reads@[i] >= 1,
            rec.consumed() == input@.take(pos as int),
        decreases input@.len() - pos,
    {
        let mut w = rec.window();
        if reads[k] < w {
            w = reads[k];
        }
        if input.len() - pos < w {
            w = input.len() - pos;
        }
        let fragment = copy_range(input, pos, pos + w);
        let taken = rec.feed(fragment.as_slice());
        assert(input@.take(pos as int) + fragment@.take(taken as int) =~= input@.take(
            pos + taken,
        ));
        pos = pos + taken;
        k = if k + 1 == reads.len() {
            0
        } else {
            k + 1
        };
    }
    proof {
        if rec@.status is Scanning {
            assert(input@.take(pos as int) =~= input@);
        } else {
            lemma_scan_settles(input@, pos as int, DEFAULT_HEAD_LIMIT as nat);
        }
    }
    match rec.finish() {
        Ok(h) => Ok((h, pos)),
        Err(e) => Err(e),
    }
}

/// Recognizes the head at the start of `input`, read from a source that
/// hands over every byte the scanner asks for.
pub fn recognize_bytes(input: &[u8]) -> (r: Result<(Head, usize), HeadError>)
    ensures
        match outcome(scan(input@, DEFAULT_HEAD_LIMIT as nat)) {
            Ok(h) => r matches Ok((x, n)) && x@ == h && x.wf() && n == scan(
                input@,
                DEFAULT_HEAD_LIMIT as nat,
            ).count,
            Err(e) => r matches Err(x) && x == e,
        },
{
    let reads = vec![4usize];
    recognize_fragmented(input, reads.as_slice())
}

/// `bytes` ends with `tail`.
pub open spec fn ends_with(bytes: Seq<u8>, tail: Seq<u8>) -> bool {
    tail.len() <= bytes.len() && bytes.subrange(bytes.len() - tail.len(), bytes.len() as int)
        == tail
}

/// What the scanner's state tells of the bytes behind it.
spec fn consistent(bytes: Seq<u8>, s: ScanModel, limit: nat) -> bool {
    &&& s.status is Scanning ==> {
        &&& s.count == bytes.len()
        &&& s.cr ==> s.pending.len() == 0 && ends_with(bytes, seq![CR])
        &&& (s.cr && s.line.len() == 0 && s.head.request is Some) ==> ends_with(
            bytes,
            seq![CR, LF, CR],
        )
        &&& (!s.cr && s.line.len() == 0 && s.pending.len() == 0 && s.head.request is Some)
            ==> ends_with(bytes, seq![CR, LF])
    }
    &&& s.status is Done ==> {
        &&& 4 <= s.count <= bytes.len()
        &&& ends_with(bytes.take(s.count as int), seq![CR, LF, CR, LF])
        &&& scan(bytes.take(s.count as int), limit).status is Done
        &&& scan(bytes.take(s.count - 1), limit).status is Scanning
    }
}

proof fn lemma_scan_consistent(bytes: Seq<u8>, limit: nat)
    ensures
        consistent(bytes, scan(bytes, limit), limit),
    decreases bytes.len(),
{
    if bytes.len() > 0 {
        let p = bytes.drop_last();
        let b = bytes.last();
        lemma_scan_consistent(p, limit);
        let s = scan(p, limit);
        let t = scan(bytes, limit);
        assert(t == step(s, b, limit));
        if s.status is Done {
            assert(t == s);
            assert(bytes.take(s.count as int) =~= p.take(s.count as int));
            assert(bytes.take(s.count - 1) =~= p.take(s.count - 1));
        } else if s.status is Scanning && s.count < limit {
            if t.status is Done {
                assert(bytes.take(t.count as int) =~= bytes);
                assert(bytes.take(t.count - 1) =~= p);
                assert(ends_with(p, seq![CR, LF, CR]));
                assert(bytes.subrange(bytes.len() - 4, bytes.len() as int) =~= p.subrange(
                    p.len() - 3,
                    p.len() as int,
                ).push(b));
                assert(seq![CR, LF, CR].push(LF) =~= seq![CR, LF, CR, LF]);
            } else if t.status is Scanning {
                if s.cr {
                    assert(t.line.len() == 0 && t.head.request is Some && !t.cr);
                    assert(bytes.subrange(bytes.len() - 2, bytes.len() as int) =~= p.subrange(
                        p.len() - 1,
                        p.len() as int,
                    ).push(b));
                    assert(seq![CR].push(LF) =~= seq![CR, LF]);
                } else if b == CR {
                    assert(bytes.subrange(bytes.len() - 1, bytes.len() as int) =~= seq![CR]);
                    if s.line.len() == 0 && s.head.request is Some {
                        assert(bytes.subrange(bytes.len() - 3, bytes.len() as int)
                            =~= p.subrange(p.len() - 2, p.len() as int).push(b));
                        assert(seq![CR, LF].push(CR) =~= seq![CR, LF, CR]);
                    }
                } else {
                    let c = s.pending.push(b);
                    if scalar_step(c) is Complete {
                        assert(t.line.len() > 0);
                    }
                }
            }
        }
    }
}

/// The head ends right after the first blank line: once recognition is done
/// it has taken exactly the bytes up to the line feed that closes that line,
/// the last four of them CR LF CR LF, and one byte fewer would not have done.
/// Whatever follows in the source is left to the caller.
pub proof fn lemma_done_at_blank_line(bytes: Seq<u8>, limit: nat)
    requires
        scan(bytes, limit).status is Done,
    ensures
        ({
            let n = scan(bytes, limit).count;
            &&& 4 <= n <= bytes.len()
            &&& bytes.subrange(n - 4, n as int) == seq![CR, LF, CR, LF]
            &&& scan(bytes.take(n as int), limit).status is Done
            &&& scan(bytes.take(n - 1), limit).status is Scanning
        }),
{
    lemma_scan_consistent(bytes, limit);
    let n = scan(bytes, limit).count;
    assert(bytes.take(n as int).subrange(n - 4, n as int) =~= bytes.subrange(n - 4, n as int));
}

} // verus!
