use vstd::prelude::*;

use crate::weights::{aggregate, converted_facts, is_net_of, ConversionError, NetUpdate, WeightedFact};

verus! {

/// A 128-bit name of a node.
pub type Node = u128;

/// Why this node's identity could not be settled.
#[derive(Debug, Clone, Copy, PartialEq, Eq)]
pub enum IdentityError {
    /// The override is not a decimal number that fits in 128 bits.
    Unparsable,
}

/// Why the clock could not give a timestamp.
#[derive(Debug, Clone, Copy, PartialEq, Eq)]
pub enum ClockError {
    /// The clock read earlier than a previous reading, or earlier than the epoch.
    Regression,
    /// The reading does not fit in 64 bits of milliseconds.
    OutOfRange,
}

/// Where a fact should go, as the engine's answer decides it.
pub enum Placement {
    /// The fact is addressed to `node`, as fact `value` of relation `relid`.
    Remote(Node, usize, Vec<u8>),
    /// The fact carries no address: it stays here.
    Unaddressed,
    /// The engine could not translate the fact.
    Failed,
}

/// The fact that reports an error of this node, out of band.
pub struct ErrorFact {
    pub text: String,
    pub line: String,
    pub filename: String,
    pub functionname: String,
    pub instance: Node,
}

pub open spec fn is_digit(b: u8) -> bool {
    48 <= b <= 57
}

/// The number that a sequence of decimal digits spells.
pub open spec fn digits_value(s: Seq<u8>) -> nat
    decreases s.len(),
{
    if s.len() == 0 {
        0
    } else {
        digits_value(s.drop_last()) * 10 + (s.last() - 48) as nat
    }
}

/// The digits of a decimal text: all of it, or all after a leading `+`.
pub open spec fn unsigned_digits(s: Seq<u8>) -> Seq<u8> {
    if s.len() > 0 && s[0] == 43 {
        s.subrange(1, s.len() as int)
    } else {
        s
    }
}

/// The 128-bit number that a decimal text names, if it names one.
pub open spec fn decimal_u128(s: Seq<u8>) -> Option<u128> {
    let d = unsigned_digits(s);
    if d.len() > 0 && (forall|i: int| 0 <= i < d.len() ==> is_digit(#[trigger] d[i]))
        && digits_value(d) <= u128::MAX {
        Some(digits_value(d) as u128)
    } else {
        None
    }
}

/// The identity that a node takes: the override where one is given, else `drawn`.
pub open spec fn identity_from(over: Option<Seq<u8>>, drawn: u128) -> Result<Node, IdentityError> {
    match over {
        Some(s) => match decimal_u128(s) {
            Some(n) => Ok(n),
            None => Err(IdentityError::Unparsable),
        },
        None => Ok(drawn),
    }
}

pub open spec fn placement_of(answer: Result<(Option<Node>, usize, Vec<u8>), ()>) -> Option<(Node, usize, Vec<u8>)> {
    match answer {
        Ok((Some(n), r, v)) => Some((n, r, v)),
        _ => None,
    }
}

/// Reads a decimal number of at most 128 bits, with an optional leading `+`.
pub fn parse_node_id(text: &[u8]) -> (r: Option<Node>)
    ensures
        r == decimal_u128(text@),
{
    let start: usize = if text.len() > 0 && text[0] == 43 { 1 } else { 0 };
    let ghost d = unsigned_digits(text@);
    assert(d =~= text@.subrange(start as int, text@.len() as int));
    if start >= text.len() {
        return None;
    }
    let mut acc: u128 = 0;
    let mut i: usize = start;
    while i < text.len()
        invariant
            start <= i <= text@.len(),
            d == unsigned_digits(text@),
            d =~= text@.subrange(start as int, text@.len() as int),
            forall|k: int| start <= k < i ==> is_digit(#[trigger] text@[k]),
            acc as nat == digits_value(text@.subrange(start as int, i as int)),
        decreases text.len() - i,
    {
        let b = text[i];
        assert(text@.subrange(start as int, i + 1).drop_last() =~= text@.subrange(start as int, i as int));
        assert(text@.subrange(start as int, i + 1).last() == b);
        if !(48 <= b && b <= 57) {
            assert(d[i - start] == b);
            assert(!is_digit(d[i - start]));
            assert(decimal_u128(text@) is None);
            return None;
        }
        let digit = (b - 48) as u128;
        if acc > (u128::MAX - digit) / 10 {
            assert(digits_value(text@.subrange(start as int, i + 1)) > u128::MAX) by (nonlinear_arith)
                requires
                    digits_value(text@.subrange(start as int, i + 1)) == acc * 10 + digit,
                    acc > (u128::MAX - digit) / 10,
                    digit <= 9,
            ;
            proof {
                lemma_prefix_value_bound(d, (i + 1 - start) as int);
                assert(d.subrange(0, (i + 1 - start) as int) =~= text@.subrange(start as int, i + 1));
            }
            assert(decimal_u128(text@) is None);
            return None;
        }
        acc = acc * 10 + digit;
        i += 1;
    }
    assert(text@.subrange(start as int, i as int) =~= d);
    Some(acc)
}

/// A prefix of a run of digits spells no more than the whole run.
proof fn lemma_prefix_value_bound(d: Seq<u8>, n: int)
    requires
        0 <= n <= d.len(),
    ensures
        digits_value(d.subrange(0, n)) <= digits_value(d),
    decreases d.len() - n,
{
    if n == d.len() {
        assert(d.subrange(0, n) =~= d);
    } else {
        assert(d.drop_last().subrange(0, n) =~= d.subrange(0, n));
        lemma_prefix_value_bound(d.drop_last(), n);
    }
}

/// Settles this node's identity from an optional override and a drawn number.
pub fn identity_with(over: Option<&[u8]>, drawn: u128) -> (r: Result<Node, IdentityError>)
    ensures
        r == identity_from(
            match over {
                Some(s) => Some(s@),
                None => None,
            },
            drawn,
        ),
{
    match over {
        Some(s) => match parse_node_id(s) {
            Some(n) => Ok(n),
            None => Err(IdentityError::Unparsable),
        },
        None => Ok(drawn),
    }
}

/// Relies on rand::random::<u128>: a number drawn from the thread's generator.
/// Nothing is promised of its value.
#[verifier::external_body]
fn draw_node_id() -> (r: u128) {
    rand::random::<u128>()
}

/// Settles this node's identity: the override where one is given, else a fresh random number.
pub fn choose_identity(over: Option<&[u8]>) -> (r: Result<Node, IdentityError>)
    ensures
        match over {
            Some(s) => r == identity_from(Some(s@), 0),
            None => r is Ok,
        },
{
    let drawn = if over.is_some() { 0 } else { draw_node_id() };
    identity_with(over, drawn)
}

/// With the same override, every run settles on the same identity, whatever
/// number it draws.
pub proof fn lemma_identity_determinism(over: Seq<u8>, drawn1: u128, drawn2: u128)
    ensures
        identity_from(Some(over), drawn1) == identity_from(Some(over), drawn2),
{
}

/// Without an override, a node takes the number it drew: two runs that draw
/// different numbers have different identities.
pub proof fn lemma_identity_drawn(drawn1: u128, drawn2: u128)
    requires
        drawn1 != drawn2,
    ensures
        identity_from(None, drawn1) != identity_from(None, drawn2),
{
}

/// Relies on SystemTime::now and its duration since UNIX_EPOCH, in milliseconds:
/// None where the clock reads before the epoch. Nothing is promised of the value.
#[verifier::external_body]
fn wall_clock_millis() -> (r: Option<u128>) {
    std::time::SystemTime::now().duration_since(std::time::UNIX_EPOCH).ok().map(|d| d.as_millis())
}

/// One node's evaluator state: its identity and the last time it handed out.
pub struct D3 {
    uuid: Node,
    last_time: u64,
}

impl D3 {
    pub closed spec fn node(&self) -> Node {
        self.uuid
    }

    pub closed spec fn last_time(&self) -> u64 {
        self.last_time
    }

    pub fn new(uuid: Node) -> (r: Self)
        ensures
            r.node() == uuid,
            r.last_time() == 0,
    {
        D3 { uuid, last_time: 0 }
    }

    pub fn myself(&self) -> (r: Node)
        ensures
            r == self.node(),
    {
        self.uuid
    }

    /// Turns a clock reading into a timestamp that never moves backwards.
    pub fn observe_time(&mut self, reading: Option<u128>) -> (r: Result<u64, ClockError>)
        ensures
            final(self).node() == old(self).node(),
            match reading {
                None => r == Err::<u64, ClockError>(ClockError::Regression) && final(self).last_time() == old(self).last_time(),
                Some(ms) => if ms > u64::MAX {
                    r == Err::<u64, ClockError>(ClockError::OutOfRange) && final(self).last_time() == old(self).last_time()
                } else if ms < old(self).last_time() {
                    r == Err::<u64, ClockError>(ClockError::Regression) && final(self).last_time() == old(self).last_time()
                } else {
                    r == Ok::<u64, ClockError>(ms as u64) && final(self).last_time() == ms
                },
            },
    {
        match reading {
            None => Err(ClockError::Regression),
            Some(ms) => {
                if ms > u64::MAX as u128 {
                    Err(ClockError::OutOfRange)
                } else if ms < self.last_time as u128 {
                    Err(ClockError::Regression)
                } else {
                    self.last_time = ms as u64;
                    Ok(ms as u64)
                }
            },
        }
    }

    /// The wall clock in milliseconds since the epoch, never less than an earlier answer.
    pub fn now(&mut self) -> (r: Result<u64, ClockError>)
        ensures
            final(self).node() == old(self).node(),
            match r {
                Ok(t) => t >= old(self).last_time() && final(self).last_time() == t,
                Err(_) => final(self).last_time() == old(self).last_time(),
            },
    {
        let reading = wall_clock_millis();
        self.observe_time(reading)
    }

    /// The fact that reports an error of this node.
    pub fn error(&self, text: String, line: String, filename: String, functionname: String) -> (r: ErrorFact)
        ensures
            r.text@ == text@,
            r.line@ == line@,
            r.filename@ == filename@,
            r.functionname@ == functionname@,
            r.instance == self.node(),
    {
        ErrorFact { text, line, filename, functionname, instance: self.uuid }
    }

    /// Where a fact goes, from the engine's answer to the question.
    pub fn placement(&self, answer: Result<(Option<Node>, usize, Vec<u8>), ()>) -> (r: Placement)
        ensures
            match answer {
                Ok((Some(n), rel, v)) => r == Placement::Remote(n, rel, v),
                Ok((None, _, _)) => r is Unaddressed,
                Err(_) => r is Failed,
            },
    {
        match answer {
            Ok((Some(n), rel, v)) => Placement::Remote(n, rel, v),
            Ok((None, _, _)) => Placement::Unaddressed,
            Err(_) => Placement::Failed,
        }
    }

    /// The node a fact is addressed to, with the fact to deliver there; None
    /// where it stays here, for want of an address or of a translation.
    pub fn localize(&self, answer: Result<(Option<Node>, usize, Vec<u8>), ()>) -> (r: Option<(Node, usize, Vec<u8>)>)
        ensures
            r == placement_of(answer),
    {
        match self.placement(answer) {
            Placement::Remote(n, rel, v) => Some((n, rel, v)),
            _ => None,
        }
    }

    /// The first steps of a transaction: every record converted, or the first
    /// conversion error with nothing applied; then the net updates of the batch.
    pub fn eval_updates(&self, converted: Vec<Result<WeightedFact, ConversionError>>) -> (r: Result<Vec<NetUpdate>, ConversionError>)
        ensures
            (r is Ok) <==> (forall|i: int| 0 <= i < converted@.len() ==> #[trigger] converted@[i] is Ok),
            match r {
                Ok(ups) => is_net_of(ups@, converted_facts(converted@)),
                Err(e) => exists|i: int|
                    0 <= i < converted@.len() && converted@[i] == Err::<WeightedFact, ConversionError>(e)
                        && forall|k: int| 0 <= k < i ==> #[trigger] converted@[k] is Ok,
            },
    {
        let mut i: usize = 0;
        while i < converted.len()
            invariant
                i <= converted@.len(),
                forall|k: int| 0 <= k < i ==> #[trigger] converted@[k] is Ok,
            decreases converted.len() - i,
        {
            if let Err(e) = &converted[i] {
                let e = *e;
                assert(converted@[i as int] == Err::<WeightedFact, ConversionError>(e));
                return Err(e);
            }
            i += 1;
        }
        let ghost orig = converted@;
        let mut rest = converted;
        let mut facts: Vec<WeightedFact> = Vec::new();
        while rest.len() > 0
            invariant
                facts@.len() <= orig.len(),
                rest@ == orig.subrange(facts@.len() as int, orig.len() as int),
                facts@ == converted_facts(orig.subrange(0, facts@.len() as int)),
                forall|k: int| 0 <= k < orig.len() ==> #[trigger] orig[k] is Ok,
            decreases rest.len(),
        {
            let ghost n = facts@.len() as int;
            let item = rest.remove(0);
            assert(item == orig[n]);
            match item {
                Ok(f) => {
                    facts.push(f);
                    assert(rest@ =~= orig.subrange(n + 1, orig.len() as int));
                    assert(facts@ =~= converted_facts(orig.subrange(0, n + 1)));
                },
                Err(e) => {
                    assert(orig[n] is Ok);
                    return Err(e);
                },
            }
        }
        assert(orig.subrange(0, facts@.len() as int) =~= orig);
        Ok(aggregate(&facts))
    }
}

} // verus!
