use vstd::prelude::*;

verus! {

pub const OPEN_BRACE: u8 = 123;

pub const CLOSE_BRACE: u8 = 125;

pub const OPEN_BRACKET: u8 = 91;

pub const CLOSE_BRACKET: u8 = 93;

pub const QUOTE: u8 = 34;

pub const BACKSLASH: u8 = 92;

/// Why a byte stream could not be split into JSON values.
#[derive(Debug, Clone, Copy, PartialEq, Eq)]
pub enum FramingError {
    /// A `}` or `]` with nothing open, or closing the other kind of opener.
    UnbalancedCloser,
    /// A backslash inside a string followed by a byte that starts no escape.
    InvalidEscape,
    /// A byte between top-level values that is neither whitespace nor an opener.
    UnexpectedByte,
    /// An earlier call failed; the buffered bytes can no longer be trusted.
    Invalidated,
}

/// The abstract state of the scanner: the bytes of the value being read, the
/// openers still unclosed, and where the scanner stands inside a string.
pub struct ScanState {
    pub pending: Seq<u8>,
    pub stack: Seq<u8>,
    pub in_string: bool,
    pub escaped: bool,
}

pub open spec fn is_opener(b: u8) -> bool {
    b == OPEN_BRACE || b == OPEN_BRACKET
}

pub open spec fn is_closer(b: u8) -> bool {
    b == CLOSE_BRACE || b == CLOSE_BRACKET
}

pub open spec fn closes(opener: u8, b: u8) -> bool {
    (opener == OPEN_BRACE && b == CLOSE_BRACE) || (opener == OPEN_BRACKET && b == CLOSE_BRACKET)
}

/// Space, tab, line feed and carriage return.
pub open spec fn is_whitespace(b: u8) -> bool {
    b == 32 || b == 9 || b == 10 || b == 13
}

/// The bytes that may follow a backslash in a JSON string: `" \ / b f n r t u`.
pub open spec fn is_escape_char(b: u8) -> bool {
    b == QUOTE || b == BACKSLASH || b == 47 || b == 98 || b == 102 || b == 110 || b == 114
        || b == 116 || b == 117
}

pub open spec fn empty_state() -> ScanState {
    ScanState { pending: Seq::empty(), stack: Seq::empty(), in_string: false, escaped: false }
}

pub open spec fn with_byte(st: ScanState, b: u8, in_string: bool, escaped: bool) -> ScanState {
    ScanState { pending: st.pending.push(b), stack: st.stack, in_string, escaped }
}

/// One byte of scanning: the next state and the value completed by this byte, if any.
pub open spec fn step(st: ScanState, b: u8) -> Result<(ScanState, Option<Seq<u8>>), FramingError> {
    if st.in_string {
        if st.escaped {
            if is_escape_char(b) {
                Ok((with_byte(st, b, true, false), None))
            } else {
                Err(FramingError::InvalidEscape)
            }
        } else if b == BACKSLASH {
            Ok((with_byte(st, b, true, true), None))
        } else if b == QUOTE {
            Ok((with_byte(st, b, false, false), None))
        } else {
            Ok((with_byte(st, b, true, false), None))
        }
    } else if st.stack.len() == 0 {
        if is_opener(b) {
            Ok((ScanState { pending: seq![b], stack: seq![b], in_string: false, escaped: false }, None))
        } else if is_whitespace(b) {
            Ok((st, None))
        } else if is_closer(b) {
            Err(FramingError::UnbalancedCloser)
        } else {
            Err(FramingError::UnexpectedByte)
        }
    } else if b == QUOTE {
        Ok((with_byte(st, b, true, false), None))
    } else if is_opener(b) {
        Ok((ScanState { pending: st.pending.push(b), stack: st.stack.push(b), in_string: false, escaped: false }, None))
    } else if is_closer(b) {
        if !closes(st.stack.last(), b) {
            Err(FramingError::UnbalancedCloser)
        } else if st.stack.len() == 1 {
            Ok((empty_state(), Some(st.pending.push(b))))
        } else {
            Ok((ScanState { pending: st.pending.push(b), stack: st.stack.drop_last(), in_string: false, escaped: false }, None))
        }
    } else {
        Ok((with_byte(st, b, false, false), None))
    }
}

pub open spec fn emit(out: Seq<Seq<u8>>, e: Option<Seq<u8>>) -> Seq<Seq<u8>> {
    match e {
        Some(v) => out.push(v),
        None => out,
    }
}

/// Scanning a whole byte sequence from state `st`: the final state and every
/// value completed on the way, in order; or the first error met.
pub open spec fn frame_bytes(st: ScanState, s: Seq<u8>) -> Result<(ScanState, Seq<Seq<u8>>), FramingError>
    decreases s.len(),
{
    if s.len() == 0 {
        Ok((st, Seq::empty()))
    } else {
        match frame_bytes(st, s.drop_last()) {
            Err(e) => Err(e),
            Ok((st1, out)) => match step(st1, s.last()) {
                Err(e) => Err(e),
                Ok((st2, e)) => Ok((st2, emit(out, e))),
            },
        }
    }
}

pub open spec fn views(v: Seq<Vec<u8>>) -> Seq<Seq<u8>> {
    v.map_values(|x: Vec<u8>| x@)
}

pub open spec fn opt_view(o: Option<Vec<u8>>) -> Option<Seq<u8>> {
    match o {
        Some(v) => Some(v@),
        None => None,
    }
}

/// Once scanning has failed on a prefix, it fails on every extension, with the same error.
pub proof fn lemma_error_persists(st: ScanState, s: Seq<u8>, n: int)
    requires
        0 <= n <= s.len(),
        frame_bytes(st, s.subrange(0, n)) is Err,
    ensures
        frame_bytes(st, s) == frame_bytes(st, s.subrange(0, n)),
    decreases s.len() - n,
{
    if n == s.len() {
        assert(s.subrange(0, n) =~= s);
    } else {
        assert(s.drop_last().subrange(0, n) =~= s.subrange(0, n));
        lemma_error_persists(st, s.drop_last(), n);
    }
}

/// Framing does not depend on how the stream is cut into pieces: scanning
/// `a` and then `b` gives the values, state and errors of scanning `a + b` at once.
pub proof fn lemma_split_stream(st: ScanState, a: Seq<u8>, b: Seq<u8>)
    ensures
        frame_bytes(st, a + b) == match frame_bytes(st, a) {
            Err(e) => Err(e),
            Ok((s1, o1)) => match frame_bytes(s1, b) {
                Err(e) => Err(e),
                Ok((s2, o2)) => Ok((s2, o1 + o2)),
            },
        },
    decreases b.len(),
{
    if b.len() == 0 {
        assert(a + b =~= a);
        match frame_bytes(st, a) {
            Err(_) => {},
            Ok((s1, o1)) => {
                assert(o1 + Seq::<Seq<u8>>::empty() =~= o1);
            },
        }
    } else {
        assert((a + b).drop_last() =~= a + b.drop_last());
        assert((a + b).last() == b.last());
        lemma_split_stream(st, a, b.drop_last());
        match frame_bytes(st, a) {
            Err(_) => {},
            Ok((s1, o1)) => match frame_bytes(s1, b.drop_last()) {
                Err(_) => {},
                Ok((s2, o2)) => match step(s2, b.last()) {
                    Err(_) => {},
                    Ok((s3, e)) => {
                        assert(emit(o1 + o2, e) =~= o1 + emit(o2, e));
                    },
                },
            },
        }
    }
}

/// Splits a stream of bytes into complete top-level JSON objects and arrays.
pub struct JsonFramer {
    pending: Vec<u8>,
    stack: Vec<u8>,
    in_string: bool,
    escaped: bool,
    failed: bool,
}

impl JsonFramer {
    pub closed spec fn state(&self) -> ScanState {
        ScanState { pending: self.pending@, stack: self.stack@, in_string: self.in_string, escaped: self.escaped }
    }

    pub closed spec fn is_failed(&self) -> bool {
        self.failed
    }

    pub fn new() -> (r: Self)
        ensures
            r.state() == empty_state(),
            !r.is_failed(),
    {
        let r = JsonFramer { pending: Vec::new(), stack: Vec::new(), in_string: false, escaped: false, failed: false };
        assert(r.state().pending =~= Seq::<u8>::empty());
        assert(r.state().stack =~= Seq::<u8>::empty());
        r
    }

    fn push_byte(&mut self, b: u8, in_string: bool, escaped: bool)
        ensures
            final(self).state() == with_byte(old(self).state(), b, in_string, escaped),
            final(self).failed == old(self).failed,
    {
        self.pending.push(b);
        self.in_string = in_string;
        self.escaped = escaped;
    }

    fn feed(&mut self, b: u8) -> (r: Result<Option<Vec<u8>>, FramingError>)
        ensures
            match (step(old(self).state(), b), r) {
                (Ok((st, e)), Ok(o)) => final(self).state() == st && opt_view(o) == e,
                (Err(x), Err(y)) => x == y,
                _ => false,
            },
            final(self).failed == old(self).failed,
    {
        if self.in_string {
            if self.escaped {
                if b == QUOTE || b == BACKSLASH || b == 47 || b == 98 || b == 102 || b == 110
                    || b == 114 || b == 116 || b == 117 {
                    self.push_byte(b, true, false);
                    Ok(None)
                } else {
                    Err(FramingError::InvalidEscape)
                }
            } else if b == BACKSLASH {
                self.push_byte(b, true, true);
                Ok(None)
            } else if b == QUOTE {
                self.push_byte(b, false, false);
                Ok(None)
            } else {
                self.push_byte(b, true, false);
                Ok(None)
            }
        } else if self.stack.len() == 0 {
            if b == OPEN_BRACE || b == OPEN_BRACKET {
                self.pending = vec![b];
                self.stack = vec![b];
                self.escaped = false;
                assert(self.pending@ =~= seq![b]);
                assert(self.stack@ =~= seq![b]);
                Ok(None)
            } else if b == 32 || b == 9 || b == 10 || b == 13 {
                Ok(None)
            } else if b == CLOSE_BRACE || b == CLOSE_BRACKET {
                Err(FramingError::UnbalancedCloser)
            } else {
                Err(FramingError::UnexpectedByte)
            }
        } else if b == QUOTE {
            self.push_byte(b, true, false);
            Ok(None)
        } else if b == OPEN_BRACE || b == OPEN_BRACKET {
            self.push_byte(b, false, false);
            self.stack.push(b);
            Ok(None)
        } else if b == CLOSE_BRACE || b == CLOSE_BRACKET {
            let top = self.stack[self.stack.len() - 1];
            if !((top == OPEN_BRACE && b == CLOSE_BRACE) || (top == OPEN_BRACKET && b == CLOSE_BRACKET)) {
                Err(FramingError::UnbalancedCloser)
            } else if self.stack.len() == 1 {
                let mut done: Vec<u8> = Vec::new();
                core::mem::swap(&mut done, &mut self.pending);
                done.push(b);
                self.stack = Vec::new();
                self.escaped = false;
                assert(self.pending@ =~= Seq::<u8>::empty());
                assert(self.stack@ =~= Seq::<u8>::empty());
                Ok(Some(done))
            } else {
                self.push_byte(b, false, false);
                self.stack.pop();
                assert(self.stack@ =~= old(self).stack@.drop_last());
                Ok(None)
            }
        } else {
            self.push_byte(b, false, false);
            Ok(None)
        }
    }

    /// Scans `bytes` after whatever an earlier call left buffered, and returns
    /// every value that they complete, in order. The unfinished tail stays
    /// buffered. After an error the framer refuses all further input.
    pub fn append(&mut self, bytes: &[u8]) -> (r: Result<Vec<Vec<u8>>, FramingError>)
        ensures
            old(self).is_failed() ==> r == Err::<Vec<Vec<u8>>, FramingError>(FramingError::Invalidated),
            !old(self).is_failed() ==> match (frame_bytes(old(self).state(), bytes@), r) {
                (Ok((st, out)), Ok(vals)) => final(self).state() == st && views(vals@) == out,
                (Err(x), Err(y)) => x == y,
                _ => false,
            },
            final(self).is_failed() <==> r is Err,
    {
        if self.failed {
            return Err(FramingError::Invalidated);
        }
        let mut out: Vec<Vec<u8>> = Vec::new();
        let mut i: usize = 0;
        assert(bytes@.subrange(0, 0) =~= Seq::<u8>::empty());
        assert(views(out@) =~= Seq::<Seq<u8>>::empty());
        while i < bytes.len()
            invariant
                i <= bytes@.len(),
                !self.failed,
                !old(self).failed,
                frame_bytes(old(self).state(), bytes@.subrange(0, i as int)) == Ok::<(ScanState, Seq<Seq<u8>>), FramingError>((self.state(), views(out@))),
            decreases bytes.len() - i,
        {
            let b = bytes[i];
            assert(bytes@.subrange(0, i + 1).drop_last() =~= bytes@.subrange(0, i as int));
            assert(bytes@.subrange(0, i + 1).last() == b);
            match self.feed(b) {
                Ok(Some(v)) => {
                    let ghost prev = out@;
                    out.push(v);
                    assert(views(out@) =~= views(prev).push(v@));
                },
                Ok(None) => {},
                Err(e) => {
                    proof {
                        lemma_error_persists(old(self).state(), bytes@, i + 1);
                    }
                    self.pending = Vec::new();
                    self.stack = Vec::new();
                    self.failed = true;
                    return Err(e);
                },
            }
            i += 1;
        }
        assert(bytes@.subrange(0, i as int) =~= bytes@);
        Ok(out)
    }
}

} // verus!
