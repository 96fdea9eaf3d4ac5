//! Search budgets: an optional node cap and an optional clock.

use vstd::prelude::*;

use vstd::string::StringSliceAdditionalSpecFns;

use crate::text::{parse_u64, parse_u64_spec, split_words, spans_text, word_is, words};

verus! {

/// How the time available for one search is decided.
#[derive(Clone, Copy, Debug, PartialEq, Eq, Structural)]
pub enum Clock {
    /// A fixed number of milliseconds per move.
    Fixed { millis: u64 },
    /// Per-player remaining time and increment, in milliseconds.
    Dynamic { p1_base: u64, p1_inc: u64, p2_base: u64, p2_inc: u64 },
}

/// The time budget of one side that has `base` milliseconds left and gains
/// `inc` per move: a twentieth of the base plus three quarters of the
/// increment, clipped so that 50 ms of the base stay in reserve.
pub open spec fn dynamic_budget(base: u64, inc: u64) -> int {
    let want = base as int / 20 + 3 * (inc as int) / 4;
    let cap = if base >= 50 { base - 50 } else { 0int };
    if want <= cap { want } else { cap }
}

impl Clock {
    /// The number of milliseconds the given side may spend.
    pub open spec fn spec_time_limit(self, is_p1: bool) -> int {
        match self {
            Clock::Fixed { millis } => millis as int,
            Clock::Dynamic { p1_base, p1_inc, p2_base, p2_inc } => if is_p1 {
                dynamic_budget(p1_base, p1_inc)
            } else {
                dynamic_budget(p2_base, p2_inc)
            },
        }
    }

    /// The number of milliseconds the given side may spend on this move.
    pub fn time_limit(self, is_p1: bool) -> (r: u64)
        ensures
            r == self.spec_time_limit(is_p1),
    {
        match self {
            Clock::Fixed { millis } => millis,
            Clock::Dynamic { p1_base, p1_inc, p2_base, p2_inc } => {
                let (base, inc) = if is_p1 {
                    (p1_base, p1_inc)
                } else {
                    (p2_base, p2_inc)
                };
                let want: u128 = base as u128 / 20 + 3 * (inc as u128) / 4;
                let cap: u64 = if base >= 50 {
                    base - 50
                } else {
                    0
                };
                if want <= cap as u128 {
                    want as u64
                } else {
                    cap
                }
            },
        }
    }
}

/// A search budget. Each part is optional; a search with neither part set
/// runs until it is stopped from outside.
#[derive(Clone, Copy, Debug, PartialEq, Eq, Structural)]
pub struct Limits {
    /// The node cap, if any.
    pub nodes: Option<u64>,
    /// The clock, if any.
    pub time: Option<Clock>,
}

impl Limits {
    /// The node cap, if any.
    pub open spec fn spec_nodes(self) -> Option<u64> {
        self.nodes
    }

    /// The clock, if any.
    pub open spec fn spec_time(self) -> Option<Clock> {
        self.time
    }

    /// The right-biased merge: each part of `rhs` that is set wins.
    pub open spec fn merge(self, rhs: Limits) -> Limits {
        Limits {
            nodes: if rhs.nodes is Some { rhs.nodes } else { self.nodes },
            time: if rhs.time is Some { rhs.time } else { self.time },
        }
    }

    /// Whether a search that has searched `nodes_searched` nodes in `elapsed`
    /// milliseconds, for the given side, has used up this budget.
    pub open spec fn spec_is_out_of_time(self, nodes_searched: u64, elapsed: u64, is_p1: bool) -> bool {
        (self.spec_nodes() is Some && nodes_searched >= self.spec_nodes()->0) || (
        self.spec_time() is Some && elapsed >= self.spec_time()->0.spec_time_limit(is_p1))
    }

    /// A budget of a fixed number of milliseconds.
    pub fn movetime(millis: u64) -> (r: Self)
        ensures
            r.spec_nodes() is None,
            r.spec_time() == Some(Clock::Fixed { millis }),
    {
        Self { nodes: None, time: Some(Clock::Fixed { millis }) }
    }

    /// A budget of a number of search iterations.
    pub fn nodes(nodes: u64) -> (r: Self)
        ensures
            r.spec_nodes() == Some(nodes),
            r.spec_time() is None,
    {
        Self { nodes: Some(nodes), time: None }
    }

    /// A budget from both players' remaining time and increments.
    pub fn time(our_base: u64, our_increment: u64, their_base: u64, their_increment: u64) -> (r: Self)
        ensures
            r.spec_nodes() is None,
            r.spec_time() == Some(
                Clock::Dynamic {
                    p1_base: our_base,
                    p1_inc: our_increment,
                    p2_base: their_base,
                    p2_inc: their_increment,
                },
            ),
    {
        Self {
            nodes: None,
            time: Some(
                Clock::Dynamic {
                    p1_base: our_base,
                    p1_inc: our_increment,
                    p2_base: their_base,
                    p2_inc: their_increment,
                },
            ),
        }
    }

    /// No budget at all.
    pub fn infinite() -> (r: Self)
        ensures
            r.spec_nodes() is None,
            r.spec_time() is None,
    {
        Self { nodes: None, time: None }
    }

    /// The node cap, if any.
    pub fn node_limit(&self) -> (r: Option<u64>)
        ensures
            r == self.spec_nodes(),
    {
        self.nodes
    }

    /// The clock, if any.
    pub fn clock(&self) -> (r: Option<Clock>)
        ensures
            r == self.spec_time(),
    {
        self.time
    }

    /// True iff any configured bound has been reached.
    pub fn is_out_of_time(&self, nodes_searched: u64, elapsed: u64, is_p1: bool) -> (r: bool)
        ensures
            r == self.spec_is_out_of_time(nodes_searched, elapsed, is_p1),
    {
        if let Some(nodes) = self.nodes {
            if nodes_searched >= nodes {
                return true;
            }
        }
        if let Some(clock) = self.time {
            let time_limit = clock.time_limit(is_p1);
            if elapsed >= time_limit {
                return true;
            }
        }
        false
    }
}

impl Default for Limits {
    fn default() -> (r: Self)
        ensures
            r.spec_nodes() is None,
            r.spec_time() is None,
    {
        Self::infinite()
    }
}

impl core::ops::Add for Limits {
    type Output = Limits;

    fn add(self, rhs: Limits) -> (r: Limits)
        ensures
            r == self.merge(rhs),
    {
        Limits {
            nodes: if rhs.nodes.is_some() {
                rhs.nodes
            } else {
                self.nodes
            },
            time: if rhs.time.is_some() {
                rhs.time
            } else {
                self.time
            },
        }
    }
}

impl vstd::std_specs::ops::AddSpecImpl for Limits {
    open spec fn obeys_add_spec() -> bool {
        true
    }

    open spec fn add_req(self, rhs: Limits) -> bool {
        true
    }

    open spec fn add_spec(self, rhs: Limits) -> Limits {
        self.merge(rhs)
    }
}

/// Why a limits string was refused.
#[derive(Clone, Copy, Debug, PartialEq, Eq, Structural)]
pub enum LimitsError {
    /// A keyword that takes a number is the last word.
    MissingValue,
    /// A word that should be a number is not one that fits in 64 bits.
    InvalidNumber,
    /// The clock keywords stop before `p2time`, `p1inc` or `p2inc`.
    MissingKeyword,
    /// Another word stands where `p2time`, `p1inc` or `p2inc` must.
    WrongKeyword,
    /// A word that starts no specifier.
    UnexpectedToken,
}

pub open spec fn kw_nodes() -> Seq<u8> {
    seq![110u8, 111u8, 100u8, 101u8, 115u8]
}

pub open spec fn kw_movetime() -> Seq<u8> {
    seq![109u8, 111u8, 118u8, 101u8, 116u8, 105u8, 109u8, 101u8]
}

pub open spec fn kw_p1time() -> Seq<u8> {
    seq![112u8, 49u8, 116u8, 105u8, 109u8, 101u8]
}

pub open spec fn kw_p2time() -> Seq<u8> {
    seq![112u8, 50u8, 116u8, 105u8, 109u8, 101u8]
}

pub open spec fn kw_p1inc() -> Seq<u8> {
    seq![112u8, 49u8, 105u8, 110u8, 99u8]
}

pub open spec fn kw_p2inc() -> Seq<u8> {
    seq![112u8, 50u8, 105u8, 110u8, 99u8]
}

pub open spec fn kw_infinite() -> Seq<u8> {
    seq![105u8, 110u8, 102u8, 105u8, 110u8, 105u8, 116u8, 101u8]
}

/// The number in word `k`, which follows a keyword.
pub open spec fn number_at(w: Seq<Seq<u8>>, k: int) -> Result<u64, LimitsError> {
    if k >= w.len() {
        Err(LimitsError::MissingValue)
    } else {
        match parse_u64_spec(w[k]) {
            Some(v) => Ok(v),
            None => Err(LimitsError::InvalidNumber),
        }
    }
}

/// Whether word `k` is the keyword `kw`.
pub open spec fn keyword_at(w: Seq<Seq<u8>>, k: int, kw: Seq<u8>) -> Result<(), LimitsError> {
    if k >= w.len() {
        Err(LimitsError::MissingKeyword)
    } else if w[k] == kw {
        Ok(())
    } else {
        Err(LimitsError::WrongKeyword)
    }
}

/// The clock of `p1time MS p2time MS p1inc MS p2inc MS` starting at word `k`.
pub open spec fn clock_at(w: Seq<Seq<u8>>, k: int) -> Result<Clock, LimitsError> {
    match number_at(w, k + 1) {
        Err(e) => Err(e),
        Ok(first_base) => match keyword_at(w, k + 2, kw_p2time()) {
            Err(e) => Err(e),
            Ok(_) => match number_at(w, k + 3) {
                Err(e) => Err(e),
                Ok(second_base) => match keyword_at(w, k + 4, kw_p1inc()) {
                    Err(e) => Err(e),
                    Ok(_) => match number_at(w, k + 5) {
                        Err(e) => Err(e),
                        Ok(first_inc) => match keyword_at(w, k + 6, kw_p2inc()) {
                            Err(e) => Err(e),
                            Ok(_) => match number_at(w, k + 7) {
                                Err(e) => Err(e),
                                Ok(second_inc) => Ok(
                                    Clock::Dynamic { p1_base: first_base, p1_inc: first_inc, p2_base: second_base, p2_inc: second_inc },
                                ),
                            },
                        },
                    },
                },
            },
        },
    }
}

/// The limits that the words from `k` on give, merged onto `acc`, left to
/// right: `nodes N`, `movetime MS`, `p1time MS p2time MS p1inc MS p2inc MS`,
/// `infinite`. A later specifier overrides an earlier one part by part.
pub open spec fn parse_words(w: Seq<Seq<u8>>, k: int, acc: Limits) -> Result<Limits, LimitsError>
    decreases w.len() - k,
{
    if k >= w.len() {
        Ok(acc)
    } else if w[k] == kw_nodes() {
        match number_at(w, k + 1) {
            Err(e) => Err(e),
            Ok(n) => parse_words(w, k + 2, acc.merge(Limits { nodes: Some(n), time: None })),
        }
    } else if w[k] == kw_movetime() {
        match number_at(w, k + 1) {
            Err(e) => Err(e),
            Ok(ms) => parse_words(
                w,
                k + 2,
                acc.merge(Limits { nodes: None, time: Some(Clock::Fixed { millis: ms }) }),
            ),
        }
    } else if w[k] == kw_p1time() {
        match clock_at(w, k) {
            Err(e) => Err(e),
            Ok(clock) => parse_words(w, k + 8, acc.merge(Limits { nodes: None, time: Some(clock) })),
        }
    } else if w[k] == kw_infinite() {
        parse_words(w, k + 1, acc.merge(Limits { nodes: None, time: None }))
    } else {
        Err(LimitsError::UnexpectedToken)
    }
}

/// What a limits string denotes, read from its bytes.
pub open spec fn parse_limits_spec(b: Seq<u8>) -> Result<Limits, LimitsError> {
    parse_words(words(b), 0, Limits { nodes: None, time: None })
}

fn number_word(b: &[u8], spans: &Vec<(usize, usize)>, k: usize, off: usize) -> (r: Result<
    u64,
    LimitsError,
>)
    requires
        forall|j: int| 0 <= j < spans@.len() ==> (#[trigger] spans@[j]).0 < spans@[j].1 <= b@.len(),
        k < spans@.len(),
    ensures
        r == number_at(spans_text(b@, spans@), k + off),
        r is Ok ==> k + off < spans@.len(),
{
    if off >= spans.len() - k {
        return Err(LimitsError::MissingValue);
    }
    let (s, e) = spans[k + off];
    match parse_u64(b, s, e) {
        Some(v) => Ok(v),
        None => Err(LimitsError::InvalidNumber),
    }
}

fn keyword_word(b: &[u8], spans: &Vec<(usize, usize)>, k: usize, off: usize, kw: &[u8]) -> (r:
    Result<(), LimitsError>)
    requires
        forall|j: int| 0 <= j < spans@.len() ==> (#[trigger] spans@[j]).0 < spans@[j].1 <= b@.len(),
        k < spans@.len(),
    ensures
        r == keyword_at(spans_text(b@, spans@), k + off, kw@),
{
    if off >= spans.len() - k {
        return Err(LimitsError::MissingKeyword);
    }
    let (s, e) = spans[k + off];
    if word_is(b, s, e, kw) {
        Ok(())
    } else {
        Err(LimitsError::WrongKeyword)
    }
}

fn clock_words(b: &[u8], spans: &Vec<(usize, usize)>, k: usize) -> (r: Result<
    (u64, u64, u64, u64),
    LimitsError,
>)
    requires
        forall|j: int| 0 <= j < spans@.len() ==> (#[trigger] spans@[j]).0 < spans@[j].1 <= b@.len(),
        k < spans@.len(),
    ensures
        match r {
            Ok((first_base, first_inc, second_base, second_inc)) => clock_at(spans_text(b@, spans@), k as int) == Ok::<Clock, LimitsError>(
                Clock::Dynamic { p1_base: first_base, p1_inc: first_inc, p2_base: second_base, p2_inc: second_inc },
            ),
            Err(e) => clock_at(spans_text(b@, spans@), k as int) == Err::<Clock, LimitsError>(e),
        },
        r is Ok ==> k + 7 < spans@.len(),
{
    let p2time_kw: [u8; 6] = [112, 50, 116, 105, 109, 101];
    let p1inc_kw: [u8; 5] = [112, 49, 105, 110, 99];
    let p2inc_kw: [u8; 5] = [112, 50, 105, 110, 99];
    assert(p2time_kw@ =~= kw_p2time());
    assert(p1inc_kw@ =~= kw_p1inc());
    assert(p2inc_kw@ =~= kw_p2inc());
    let first_base = match number_word(b, spans, k, 1) {
        Ok(v) => v,
        Err(err) => return Err(err),
    };
    if let Err(err) = keyword_word(b, spans, k, 2, &p2time_kw) {
        return Err(err);
    }
    let second_base = match number_word(b, spans, k, 3) {
        Ok(v) => v,
        Err(err) => return Err(err),
    };
    if let Err(err) = keyword_word(b, spans, k, 4, &p1inc_kw) {
        return Err(err);
    }
    let first_inc = match number_word(b, spans, k, 5) {
        Ok(v) => v,
        Err(err) => return Err(err),
    };
    if let Err(err) = keyword_word(b, spans, k, 6, &p2inc_kw) {
        return Err(err);
    }
    let second_inc = match number_word(b, spans, k, 7) {
        Ok(v) => v,
        Err(err) => return Err(err),
    };
    Ok((first_base, first_inc, second_base, second_inc))
}

impl Limits {
    /// Parses a limits string such as `nodes 800` or
    /// `p1time 100 p2time 200 p1inc 10 p2inc 20`.
    pub fn parse(text: &str) -> (r: Result<Limits, LimitsError>)
        ensures
            r == parse_limits_spec(text.spec_bytes()),
    {
        let b = text.as_bytes();
        let spans = split_words(b);
        let ghost w = spans_text(b@, spans@);
        let nodes_kw: [u8; 5] = [110, 111, 100, 101, 115];
        let movetime_kw: [u8; 8] = [109, 111, 118, 101, 116, 105, 109, 101];
        let p1time_kw: [u8; 6] = [112, 49, 116, 105, 109, 101];
        let infinite_kw: [u8; 8] = [105, 110, 102, 105, 110, 105, 116, 101];
        assert(nodes_kw@ =~= kw_nodes());
        assert(movetime_kw@ =~= kw_movetime());
        assert(p1time_kw@ =~= kw_p1time());
        assert(infinite_kw@ =~= kw_infinite());
        let mut acc = Limits::infinite();
        let mut k: usize = 0;
        while k < spans.len()
            invariant
                w == spans_text(b@, spans@),
                w == words(b@),
                b@ == text.spec_bytes(),
                forall|j: int| 0 <= j < spans@.len() ==> (#[trigger] spans@[j]).0 < spans@[j].1 <= b@.len(),
                k <= spans@.len(),
                parse_limits_spec(text.spec_bytes()) == parse_words(w, k as int, acc),
                nodes_kw@ == kw_nodes(),
                movetime_kw@ == kw_movetime(),
                p1time_kw@ == kw_p1time(),
                infinite_kw@ == kw_infinite(),
            decreases spans@.len() - k,
        {
            let (s, e) = spans[k];
            assert(w[k as int] == b@.subrange(s as int, e as int));
            if word_is(b, s, e, &nodes_kw) {
                let n = match number_word(b, &spans, k, 1) {
                    Ok(n) => n,
                    Err(err) => return Err(err),
                };
                acc = acc + Limits::nodes(n);
                k = k + 2;
            } else if word_is(b, s, e, &movetime_kw) {
                let ms = match number_word(b, &spans, k, 1) {
                    Ok(ms) => ms,
                    Err(err) => return Err(err),
                };
                acc = acc + Limits::movetime(ms);
                k = k + 2;
            } else if word_is(b, s, e, &p1time_kw) {
                let (first_base, first_inc, second_base, second_inc) = match clock_words(b, &spans, k) {
                    Ok(v) => v,
                    Err(err) => return Err(err),
                };
                acc = acc + Limits::time(first_base, first_inc, second_base, second_inc);
                k = k + 8;
            } else if word_is(b, s, e, &infinite_kw) {
                acc = acc + Limits::infinite();
                k = k + 1;
            } else {
                return Err(LimitsError::UnexpectedToken);
            }
        }
        Ok(acc)
    }
}

impl core::str::FromStr for Limits {
    type Err = LimitsError;

    fn from_str(s: &str) -> (r: Result<Limits, LimitsError>)
        ensures
            r == parse_limits_spec(s.spec_bytes()),
    {
        Limits::parse(s)
    }
}

} // verus!
