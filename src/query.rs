//! Queries: the command line that states one, and its split into slot-aligned spans.

use vstd::prelude::*;
use vstd::string::StrSliceExecFns;
use crate::aggregate::QueryType;
use crate::time_range::TimeRange;

verus! {

/// Width of a cache slot, in seconds.
pub const SLOT_SIZE: i64 = 4500;

/// One query: a statistic over the window `range`.
#[derive(Clone, Copy, Debug, PartialEq, Eq, Structural)]
pub struct Query {
    pub query_type: QueryType,
    pub range: TimeRange,
}

/// Why a command line does not state a query.
#[derive(Clone, Copy, Debug, PartialEq, Eq, Structural)]
pub enum ParseError {
    MissingKind,
    MissingStart,
    InvalidStart,
    MissingEnd,
    InvalidEnd,
    UnknownKind,
}

/// The slot an instant falls in: `floor(t / SLOT_SIZE) * SLOT_SIZE`.
pub open spec fn slot_of(t: int) -> int {
    t - t % (SLOT_SIZE as int)
}

/// Where the span that starts at `cur` ends, for a query that ends at `hi`.
pub open spec fn span_end(cur: int, hi: int) -> int {
    if slot_of(cur) + SLOT_SIZE < hi {
        slot_of(cur) + SLOT_SIZE
    } else {
        hi
    }
}

/// The slot-aligned spans `(slot, from, to)` that split the window `(lo, hi]`,
/// in increasing order.
pub open spec fn slot_spans(lo: int, hi: int) -> Seq<(int, int, int)>
    decreases hi - lo,
{
    if lo >= hi {
        Seq::empty()
    } else {
        seq![(slot_of(lo), lo, span_end(lo, hi))] + slot_spans(span_end(lo, hi), hi)
    }
}

/// The span that starts at `cur`, for a query that ends at `hi > cur`.
pub fn next_span(cur: i64, hi: i64) -> (r: (i64, i64))
    requires
        cur < hi,
        slot_of(cur as int) >= i64::MIN,
    ensures
        r.0 == slot_of(cur as int),
        r.1 == span_end(cur as int, hi as int),
        cur < r.1 <= hi,
{
    let rem = cur.checked_rem_euclid(SLOT_SIZE).unwrap();
    let slot = cur - rem;
    let end = if (hi as i128) - (slot as i128) > SLOT_SIZE as i128 {
        slot + SLOT_SIZE
    } else {
        hi
    };
    (slot, end)
}

/// Whether `c` separates tokens: the characters of Unicode's White_Space property.
pub open spec fn is_space(c: char) -> bool {
    ('\u{9}' <= c && c <= '\u{d}') || c == ' ' || c == '\u{85}' || c == '\u{a0}' || c == '\u{1680}'
        || ('\u{2000}' <= c && c <= '\u{200a}') || c == '\u{2028}' || c == '\u{2029}'
        || c == '\u{202f}' || c == '\u{205f}' || c == '\u{3000}'
}

/// The first position at or after `p` that holds no separator.
pub open spec fn skip_spaces(s: Seq<char>, p: int) -> int
    decreases s.len() - p,
{
    if 0 <= p < s.len() && is_space(s[p]) {
        skip_spaces(s, p + 1)
    } else {
        p
    }
}

/// The first position at or after `p` that holds a separator, or the end.
pub open spec fn word_end(s: Seq<char>, p: int) -> int
    decreases s.len() - p,
{
    if 0 <= p < s.len() && !is_space(s[p]) {
        word_end(s, p + 1)
    } else {
        p
    }
}

/// The bounds of the `n`-th token of `s` at or after `p`, counting from zero.
pub open spec fn token_bounds(s: Seq<char>, p: int, n: nat) -> Option<(int, int)>
    decreases n,
{
    let a = skip_spaces(s, p);
    if a >= s.len() {
        None
    } else if n == 0 {
        Some((a, word_end(s, a)))
    } else {
        token_bounds(s, word_end(s, a), (n - 1) as nat)
    }
}

/// The `n`-th whitespace-separated token of `s`.
pub open spec fn token(s: Seq<char>, n: nat) -> Option<Seq<char>> {
    match token_bounds(s, 0, n) {
        Some(b) => Some(s.subrange(b.0, b.1)),
        None => None,
    }
}

pub open spec fn is_digit(c: char) -> bool {
    '0' <= c && c <= '9'
}

/// The number that a string of decimal digits writes.
pub open spec fn digits_value(d: Seq<char>) -> int
    decreases d.len(),
{
    if d.len() == 0 {
        0
    } else {
        digits_value(d.drop_last()) * 10 + (d.last() as int - '0' as int)
    }
}

pub open spec fn all_digits(d: Seq<char>) -> bool {
    d.len() > 0 && forall|i: int| 0 <= i < d.len() ==> is_digit(#[trigger] d[i])
}

/// The integer that `t` writes: an optional sign, then one or more decimal digits.
pub open spec fn int_value(t: Seq<char>) -> Option<int> {
    if t.len() > 0 && t[0] == '-' {
        if all_digits(t.skip(1)) { Some(-digits_value(t.skip(1))) } else { None }
    } else if t.len() > 0 && t[0] == '+' {
        if all_digits(t.skip(1)) { Some(digits_value(t.skip(1))) } else { None }
    } else if all_digits(t) {
        Some(digits_value(t))
    } else {
        None
    }
}

/// The `i64` that `t` writes, if it writes one that fits.
pub open spec fn i64_value(t: Seq<char>) -> Option<i64> {
    match int_value(t) {
        Some(v) => if i64::MIN <= v <= i64::MAX { Some(v as i64) } else { None },
        None => None,
    }
}

/// The statistic that a kind token names.
pub open spec fn kind_of(t: Seq<char>) -> Option<QueryType> {
    if t == seq!['C'] {
        Some(QueryType::TakerTrades)
    } else if t == seq!['B'] {
        Some(QueryType::MarketBuys)
    } else if t == seq!['S'] {
        Some(QueryType::MarketSells)
    } else if t == seq!['V'] {
        Some(QueryType::TradingVolume)
    } else {
        None
    }
}

/// The query that the line `s` states: `<KIND> <START> <END>`, tokens separated
/// by whitespace, anything after the third token ignored.
pub open spec fn parse_line(s: Seq<char>) -> Result<Query, ParseError> {
    if token(s, 0) is None {
        Err(ParseError::MissingKind)
    } else if token(s, 1) is None {
        Err(ParseError::MissingStart)
    } else if i64_value(token(s, 1)->0) is None {
        Err(ParseError::InvalidStart)
    } else if token(s, 2) is None {
        Err(ParseError::MissingEnd)
    } else if i64_value(token(s, 2)->0) is None {
        Err(ParseError::InvalidEnd)
    } else if kind_of(token(s, 0)->0) is None {
        Err(ParseError::UnknownKind)
    } else {
        Ok(
            Query {
                query_type: kind_of(token(s, 0)->0)->0,
                range: TimeRange {
                    start_timestamp_in_seconds: i64_value(token(s, 1)->0)->0,
                    end_timestamp_in_seconds: i64_value(token(s, 2)->0)->0,
                },
            },
        )
    }
}

fn space(c: char) -> (r: bool)
    ensures
        r == is_space(c),
{
    ('\u{9}' <= c && c <= '\u{d}') || c == ' ' || c == '\u{85}' || c == '\u{a0}' || c == '\u{1680}'
        || ('\u{2000}' <= c && c <= '\u{200a}') || c == '\u{2028}' || c == '\u{2029}'
        || c == '\u{202f}' || c == '\u{205f}' || c == '\u{3000}'
}

fn skip_spaces_from(s: &Vec<char>, p: usize) -> (r: usize)
    requires
        p <= s@.len(),
    ensures
        r == skip_spaces(s@, p as int),
        p <= r <= s@.len(),
        r < s@.len() ==> !is_space(s@[r as int]),
{
    let mut i = p;
    while i < s.len() && space(s[i])
        invariant
            p <= i <= s@.len(),
            skip_spaces(s@, i as int) == skip_spaces(s@, p as int),
        decreases s@.len() - i,
    {
        i = i + 1;
    }
    i
}

fn word_end_from(s: &Vec<char>, p: usize) -> (r: usize)
    requires
        p <= s@.len(),
    ensures
        r == word_end(s@, p as int),
        p <= r <= s@.len(),
{
    let mut i = p;
    while i < s.len() && !space(s[i])
        invariant
            p <= i <= s@.len(),
            word_end(s@, i as int) == word_end(s@, p as int),
        decreases s@.len() - i,
    {
        i = i + 1;
    }
    i
}

/// The bounds of the next token at or after `p`.
fn next_token(s: &Vec<char>, p: usize) -> (r: Option<(usize, usize)>)
    requires
        p <= s@.len(),
    ensures
        match r {
            Some(b) => token_bounds(s@, p as int, 0) == Some((b.0 as int, b.1 as int)) && p <= b.0 < b.1
                <= s@.len(),
            None => token_bounds(s@, p as int, 0) is None,
        },
{
    let a = skip_spaces_from(s, p);
    if a >= s.len() {
        None
    } else {
        assert(word_end(s@, a as int) == word_end(s@, a + 1));
        let b = word_end_from(s, a + 1);
        Some((a, b))
    }
}

/// The `i64` that the digits `d` write, negated where `negative`.
pub open spec fn signed_value(negative: bool, d: Seq<char>) -> Option<i64> {
    if !all_digits(d) {
        None
    } else {
        let v = if negative { -digits_value(d) } else { digits_value(d) };
        if i64::MIN <= v <= i64::MAX { Some(v as i64) } else { None }
    }
}

/// Largest magnitude an `i64` can have, plus one: any larger value is clipped to it.
const MAGNITUDE_CAP: u64 = 9223372036854775809;

/// The `i64` that `s[a..b]` writes.
fn parse_i64(s: &Vec<char>, a: usize, b: usize) -> (r: Option<i64>)
    requires
        a <= b <= s@.len(),
    ensures
        r == i64_value(s@.subrange(a as int, b as int)),
{
    let ghost t = s@.subrange(a as int, b as int);
    let mut i = a;
    let mut negative = false;
    if a < b && (s[a] == '-' || s[a] == '+') {
        negative = s[a] == '-';
        i = a + 1;
    }
    let ghost d = s@.subrange(i as int, b as int);
    proof {
        if a < b && (s@[a as int] == '-' || s@[a as int] == '+') {
            assert(d =~= t.skip(1));
        } else {
            assert(d =~= t);
        }
    }
    assert(i64_value(t) == signed_value(negative, d));
    if i >= b {
        return None;
    }
    let start = i;
    let mut acc: u64 = 0;
    while i < b
        invariant
            start <= i <= b <= s@.len(),
            d == s@.subrange(start as int, b as int),
            t == s@.subrange(a as int, b as int),
            i64_value(t) == signed_value(negative, d),
            forall|k: int| start <= k < i ==> is_digit(#[trigger] s@[k]),
            acc as int == if digits_value(s@.subrange(start as int, i as int)) < MAGNITUDE_CAP {
                digits_value(s@.subrange(start as int, i as int))
            } else {
                MAGNITUDE_CAP as int
            },
        decreases b - i,
    {
        let c = s[i];
        if !('0' <= c && c <= '9') {
            proof {
                assert(d[i - start] == c);
                assert(!all_digits(d));
            }
            return None;
        }
        let v = (c as u32 - '0' as u32) as u64;
        proof {
            let p = s@.subrange(start as int, i as int);
            assert(s@.subrange(start as int, i + 1).drop_last() =~= p);
            assert(digits_value(p) >= 0) by {
                lemma_digits_value_nonneg(p, (i - start) as int);
            }
        }
        if acc >= (MAGNITUDE_CAP - v) / 10 + 1 {
            acc = MAGNITUDE_CAP;
        } else {
            acc = acc * 10 + v;
        }
        i = i + 1;
    }
    proof {
        assert(d =~= s@.subrange(start as int, i as int));
        assert(all_digits(d));
    }
    if negative {
        if acc <= 9223372036854775808 {
            Some((0 - (acc as i128)) as i64)
        } else {
            None
        }
    } else if acc <= 9223372036854775807 {
        Some(acc as i64)
    } else {
        None
    }
}

proof fn lemma_digits_value_nonneg(d: Seq<char>, n: int)
    requires
        n == d.len(),
        forall|k: int| 0 <= k < d.len() ==> is_digit(#[trigger] d[k]),
    ensures
        digits_value(d) >= 0,
    decreases n,
{
    if n > 0 {
        let e = d.drop_last();
        assert forall|k: int| 0 <= k < e.len() implies is_digit(#[trigger] e[k]) by {
            assert(e[k] == d[k]);
        }
        lemma_digits_value_nonneg(e, n - 1);
    }
}

/// The statistic that the token `s[a..b]` names.
fn kind_token(s: &Vec<char>, a: usize, b: usize) -> (r: Option<QueryType>)
    requires
        a <= b <= s@.len(),
    ensures
        r == kind_of(s@.subrange(a as int, b as int)),
{
    let ghost t = s@.subrange(a as int, b as int);
    if b - a != 1 {
        proof {
            assert(t.len() != 1);
            assert(t != seq!['C'] && t != seq!['B'] && t != seq!['S'] && t != seq!['V']);
        }
        return None;
    }
    let c = s[a];
    proof {
        assert(t =~= seq![c]);
        assert(seq![c] == seq!['C'] <==> c == 'C') by {
            if seq![c] == seq!['C'] {
                assert(seq![c][0] == seq!['C'][0]);
            }
        }
        assert(seq![c] == seq!['B'] <==> c == 'B') by {
            if seq![c] == seq!['B'] {
                assert(seq![c][0] == seq!['B'][0]);
            }
        }
        assert(seq![c] == seq!['S'] <==> c == 'S') by {
            if seq![c] == seq!['S'] {
                assert(seq![c][0] == seq!['S'][0]);
            }
        }
        assert(seq![c] == seq!['V'] <==> c == 'V') by {
            if seq![c] == seq!['V'] {
                assert(seq![c][0] == seq!['V'][0]);
            }
        }
    }
    if c == 'C' {
        Some(QueryType::TakerTrades)
    } else if c == 'B' {
        Some(QueryType::MarketBuys)
    } else if c == 'S' {
        Some(QueryType::MarketSells)
    } else if c == 'V' {
        Some(QueryType::TradingVolume)
    } else {
        None
    }
}

impl Query {
    /// Reads a query from a command line `<KIND> <START> <END>`: `KIND` is one of
    /// `C`, `B`, `S`, `V`, the bounds are epoch seconds.
    pub fn parse(line: &str) -> (r: Result<Query, ParseError>)
        ensures
            r == parse_line(line@),
    {
        let n = line.unicode_len();
        let mut chars: Vec<char> = Vec::new();
        let mut i: usize = 0;
        while i < n
            invariant
                n == line@.len(),
                i <= n,
                chars@ == line@.take(i as int),
            decreases n - i,
        {
            chars.push(line.get_char(i));
            i = i + 1;
        }
        assert(chars@ =~= line@);
        let ghost s = chars@;
        let t0 = match next_token(&chars, 0) {
            Some(b) => b,
            None => return Err(ParseError::MissingKind),
        };
        let t1 = match next_token(&chars, t0.1) {
            Some(b) => b,
            None => return Err(ParseError::MissingStart),
        };
        let start = match parse_i64(&chars, t1.0, t1.1) {
            Some(v) => v,
            None => return Err(ParseError::InvalidStart),
        };
        assert(token_bounds(s, 0, 1) == token_bounds(s, t0.1 as int, 0));
        assert(token_bounds(s, 0, 2) == token_bounds(s, t0.1 as int, 1));
        assert(token_bounds(s, t0.1 as int, 1) == token_bounds(s, t1.1 as int, 0));
        let t2 = match next_token(&chars, t1.1) {
            Some(b) => b,
            None => return Err(ParseError::MissingEnd),
        };
        let end = match parse_i64(&chars, t2.0, t2.1) {
            Some(v) => v,
            None => return Err(ParseError::InvalidEnd),
        };
        let query_type = match kind_token(&chars, t0.0, t0.1) {
            Some(k) => k,
            None => return Err(ParseError::UnknownKind),
        };
        Ok(Query { query_type, range: TimeRange::new(start, end) })
    }

    /// The slot-aligned spans of this query's window, as `(slot, range)` pairs
    /// in increasing order; empty where the window is empty. The first slot must
    /// be an `i64`.
    pub fn time_slots_map(&self) -> (r: Vec<(i64, TimeRange)>)
        requires
            slot_of(self.range.lo()) >= i64::MIN,
        ensures
            r@.len() == slot_spans(self.range.lo(), self.range.hi()).len(),
            forall|i: int|
                0 <= i < r@.len() ==> {
                    let s = #[trigger] slot_spans(self.range.lo(), self.range.hi())[i];
                    r@[i].0 == s.0 && r@[i].1.lo() == s.1 && r@[i].1.hi() == s.2
                },
    {
        let hi = self.range.end_timestamp_in_seconds;
        let mut out: Vec<(i64, TimeRange)> = Vec::new();
        let mut cur = self.range.start_timestamp_in_seconds;
        let ghost all = slot_spans(self.range.lo(), self.range.hi());
        while cur < hi
            invariant
                hi == self.range.end_timestamp_in_seconds,
                self.range.lo() <= cur,
                slot_of(self.range.lo()) <= slot_of(cur as int),
                slot_of(self.range.lo()) >= i64::MIN,
                all == slot_spans(self.range.lo(), self.range.hi()),
                out@.len() + slot_spans(cur as int, hi as int).len() == all.len(),
                forall|i: int| 0 <= i < slot_spans(cur as int, hi as int).len()
                    ==> slot_spans(cur as int, hi as int)[i] == all[out@.len() + i],
                forall|i: int|
                    0 <= i < out@.len() ==> {
                        let s = #[trigger] all[i];
                        out@[i].0 == s.0 && out@[i].1.lo() == s.1 && out@[i].1.hi() == s.2
                    },
            decreases hi - cur,
        {
            let (slot, next) = next_span(cur, hi);
            let ghost rest = slot_spans(cur as int, hi as int);
            assert(rest == seq![(slot as int, cur as int, next as int)] + slot_spans(next as int, hi as int));
            assert(rest[0] == all[out@.len() as int]);
            out.push((slot, TimeRange::new(cur, next)));
            proof {
                assert forall|i: int| 0 <= i < slot_spans(next as int, hi as int).len()
                    implies slot_spans(next as int, hi as int)[i] == all[out@.len() + i] by {
                    assert(slot_spans(next as int, hi as int)[i] == rest[i + 1]);
                }
            }
            cur = next;
        }
        out
    }
}

} // verus!
