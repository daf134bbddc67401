//! Resolving one query through the range cache, as a state machine whose
//! backend lookups the caller performs between steps.

use vstd::prelude::*;
use crate::aggregate::{count_from_range, count_matches, trade_ids, volume_terms, Count, QueryType};
use crate::cache::RangeCache;
use crate::fill::{get_fills_api, valid_timestamp, within, BackendError, Fill, MAX_TIMESTAMP, MIN_TIMESTAMP};
use crate::pieces::{
    all_drawn_from, covered, lemma_pieces_answer_whole, lemma_trade_ids_finite, lemma_tiles_extend, lemma_tiles_fill_gap, merge_into,
    sequence_numbers_identify, tiles, total_matches, gap_times, pairwise_disjoint, Part,
};
use crate::query::{next_span, Query};
use crate::time_range::{window, TimeRange};

verus! {

/// The piece that a lookup of the gap `g` fills, counted from the `fills` it returned.
pub open spec fn looked_up(g: TimeRange, fills: Seq<Fill>) -> Part {
    Part { lo: g.lo(), hi: g.hi(), source: fills, src_lo: g.lo(), src_hi: g.hi() }
}

/// `c` is the answer that the dataset `d` gives to a `kind` query over the
/// window `(lo, hi]`: nothing for an empty window; otherwise the number of
/// distinct trades, or the notional terms of the fills in any order.
pub open spec fn answers(c: Option<Count>, kind: QueryType, d: Seq<Fill>, lo: int, hi: int) -> bool {
    if lo >= hi {
        c is None
    } else {
        &&& c is Some
        &&& kind == QueryType::TradingVolume ==> !c->0.is_trades() && c->0.terms().to_multiset() == volume_terms(
            d,
            window(lo, hi),
        ).to_multiset()
        &&& kind != QueryType::TradingVolume ==> c->0.is_trades() && c->0.trades() == trade_ids(
            d,
            kind,
            window(lo, hi),
        ).len()
    }
}

/// Two answers to the same query over the same dataset are the same answer:
/// resolving a query again, through a cache that `get_count` kept consistent,
/// gives the result it gave before.
pub proof fn lemma_answer_repeats(
    c1: Option<Count>,
    c2: Option<Count>,
    kind: QueryType,
    d: Seq<Fill>,
    lo: int,
    hi: int,
)
    requires
        answers(c1, kind, d, lo, hi),
        answers(c2, kind, d, lo, hi),
    ensures
        c1 is None <==> c2 is None,
        c1 is Some ==> c1->0.is_trades() == c2->0.is_trades() && c1->0.trades() == c2->0.trades()
            && c1->0.terms().to_multiset() == c2->0.terms().to_multiset(),
{
}

/// Why a query could not be answered.
#[derive(Clone, Copy, Debug, PartialEq, Eq, Structural)]
pub enum ResolveError {
    Backend(BackendError),
    /// A number of trades passed `usize::MAX`.
    CountOverflow,
}

/// What the caller of `Resolution::advance` does next.
#[derive(Clone, Copy, Debug, PartialEq, Eq, Structural)]
pub enum Step {
    /// Look up the fills of this window and hand them to `Resolution::deliver`.
    Fetch(TimeRange),
    /// Every span is resolved: `Resolution::finish` gives the answer.
    Done,
    /// A number of trades passed `usize::MAX`; the query has no answer.
    Overflowed,
}

/// A query on its way through the cache.
pub struct Resolution {
    query: Query,
    slot: i64,
    cursor: i64,
    gaps: Vec<TimeRange>,
    next_gap: usize,
    total: Option<Count>,
    overflowed: bool,
    parts: Ghost<Seq<Part>>,
}

impl Resolution {
    pub closed spec fn query(self) -> Query {
        self.query
    }

    /// The pieces counted so far.
    pub closed spec fn parts(self) -> Seq<Part> {
        self.parts@
    }

    /// The gaps of the current span still to look up, in order.
    pub closed spec fn pending(self) -> Seq<TimeRange> {
        self.gaps@.skip(self.next_gap as int)
    }

    pub closed spec fn overflowed(self) -> bool {
        self.overflowed
    }

    /// Where the spans not yet looked up in the cache begin.
    pub closed spec fn cursor(self) -> int {
        self.cursor as int
    }

    /// The window the caller is asked to look up next, if any.
    pub open spec fn next_gap(self) -> Option<TimeRange> {
        if !self.overflowed() && self.pending().len() > 0 {
            Some(self.pending()[0])
        } else {
            None
        }
    }

    /// Every piece counted so far came from a faithful lookup of `d`.
    pub open spec fn drawn_from(self, d: Seq<Fill>) -> bool {
        all_drawn_from(self.parts(), d)
    }

    /// What is left to do: shrinks with every lookup handed back.
    pub closed spec fn work(self) -> nat {
        if self.overflowed {
            0
        } else {
            (3 * (self.query.range.hi() - self.cursor) + self.pending().len()) as nat
        }
    }

    pub closed spec fn wf(self) -> bool {
        let lo = self.query.range.lo();
        let hi = self.query.range.hi();
        &&& lo <= self.cursor
        &&& (lo < hi ==> self.cursor <= hi && valid_timestamp(lo) && valid_timestamp(hi))
        &&& (lo >= hi ==> self.cursor == lo && self.gaps@.len() == 0 && self.parts@.len() == 0)
        &&& self.next_gap <= self.gaps@.len()
        &&& forall|i: int|
            0 <= i < self.gaps@.len() ==> lo <= (#[trigger] self.gaps@[i]).lo() <= self.gaps@[i].hi() <= hi
        &&& self.pending().len() <= 2
        &&& !self.overflowed ==> {
            &&& tiles(self.parts@, self.pending(), window(self.cursor as int, hi), self.query.range.times())
            &&& total_matches(self.total, self.query.query_type, self.parts@)
        }
    }

    /// All spans resolved, every gap looked up.
    pub closed spec fn complete(self) -> bool {
        &&& !self.overflowed
        &&& self.pending().len() == 0
        &&& self.cursor >= self.query.range.end_timestamp_in_seconds
    }

    /// Starts resolving `query`. A non-empty window whose bounds are not both
    /// representable instants is refused: the backend would refuse its lookups.
    pub fn new(query: &Query) -> (r: Result<Resolution, BackendError>)
        ensures
            r is Err <==> query.range.lo() < query.range.hi() && !(valid_timestamp(query.range.lo())
                && valid_timestamp(query.range.hi())),
            r matches Ok(res) ==> res.wf() && res.query() == *query && res.parts() == Seq::<Part>::empty()
                && res.pending() == Seq::<TimeRange>::empty() && !res.overflowed(),
    {
        let lo = query.range.start_timestamp_in_seconds;
        let hi = query.range.end_timestamp_in_seconds;
        if lo < hi && !(MIN_TIMESTAMP <= lo && lo <= MAX_TIMESTAMP && MIN_TIMESTAMP <= hi && hi <= MAX_TIMESTAMP) {
            return Err(BackendError::InvalidTimestamp);
        }
        let res = Resolution {
            query: *query,
            slot: 0,
            cursor: lo,
            gaps: Vec::new(),
            next_gap: 0,
            total: None,
            overflowed: false,
            parts: Ghost(Seq::empty()),
        };
        proof {
            assert(res.pending() =~= Seq::<TimeRange>::empty());
            assert(covered(Seq::<Part>::empty()) =~= Set::<int>::empty());
            assert(gap_times(Seq::<TimeRange>::empty()) =~= Set::<int>::empty());
            assert(covered(Seq::<Part>::empty()).union(gap_times(Seq::<TimeRange>::empty())).union(
                window(lo as int, hi as int),
            ) =~= query.range.times());
        }
        Ok(res)
    }
}

impl Resolution {
    /// Moves the resolution forward while no lookup is needed: spans whose
    /// windows the cache covers are counted right away. Stops at the next gap
    /// to look up, once every span is resolved, or when a number of trades
    /// would pass `usize::MAX`.
    pub fn advance(&mut self, cache: &mut RangeCache) -> (step: Step)
        requires
            old(self).wf(),
            old(cache).wf(),
        ensures
            final(self).wf(),
            final(cache).wf(),
            final(self).query() == old(self).query(),
            final(self).work() <= old(self).work(),
            old(self).overflowed() ==> step is Overflowed,
            forall|d: Seq<Fill>|
                old(self).drawn_from(d) && #[trigger] old(cache).consistent(d) ==> final(self).drawn_from(d)
                    && final(cache).consistent(d),
            step matches Step::Fetch(g) ==> final(self).next_gap() == Some(g) && valid_timestamp(g.lo())
                && valid_timestamp(g.hi()),
            step is Done ==> final(self).complete(),
            step is Overflowed ==> final(self).overflowed(),
            step is Overflowed && !old(self).overflowed() ==> old(self).query().query_type != QueryType::TradingVolume,
            step is Overflowed && !old(self).overflowed() ==> forall|d: Seq<Fill>|
                old(self).drawn_from(d) && #[trigger] old(cache).consistent(d) && sequence_numbers_identify(d)
                    ==> d.len() > usize::MAX,
    {
        let ghost s0 = *self;
        let ghost c0 = *cache;
        let hi = self.query.range.end_timestamp_in_seconds;
        let kind = self.query.query_type;
        loop
            invariant
                self.wf(),
                cache.wf(),
                s0 == *old(self),
                c0 == *old(cache),
                self.query == s0.query,
                hi == self.query.range.end_timestamp_in_seconds,
                kind == self.query.query_type,
                self.work() <= s0.work(),
                s0.overflowed() ==> self.overflowed,
                !s0.overflowed() ==> !self.overflowed,
                forall|d: Seq<Fill>|
                    s0.drawn_from(d) && #[trigger] c0.consistent(d) ==> self.drawn_from(d) && cache.consistent(d),
            decreases hi - self.cursor,
        {
            if self.overflowed {
                return Step::Overflowed;
            }
            if self.next_gap < self.gaps.len() {
                proof {
                    assert(self.pending()[0] == self.gaps@[self.next_gap as int]);
                    assert(self.gaps@.len() > 0);
                }
                return Step::Fetch(self.gaps[self.next_gap]);
            }
            if self.cursor >= hi {
                proof {
                    assert(self.pending() =~= Seq::<TimeRange>::empty());
                }
                return Step::Done;
            }
            let cur = self.cursor;
            let (slot, nxt) = next_span(cur, hi);
            let ghost c1 = *cache;
            let ghost base = self.parts@;
            let ghost whole = self.query.range.times();
            let (mut counts, gaps, Ghost(more)) = cache.plan_segment(kind, slot, TimeRange::new(cur, nxt));
            proof {
                assert(self.pending() =~= Seq::<TimeRange>::empty());
                lemma_tiles_extend(base, more, gaps@, cur as int, nxt as int, hi as int, whole);
                assert forall|d: Seq<Fill>| c1.consistent(d) implies all_drawn_from(more, d) by {
                    assert forall|i: int| 0 <= i < more.len() implies (#[trigger] more[i]).drawn_from(d) by {
                        c1.lemma_holds_consistent(d, slot, more[i].src_lo, more[i].src_hi, more[i].source);
                    }
                }
            }
            let ghost all = base + more;
            let ghost mid = *self;
            proof {
                assert forall|d: Seq<Fill>| s0.drawn_from(d) && #[trigger] c0.consistent(d) implies all_drawn_from(base, d)
                    && c1.consistent(d) by {
                    assert(self.drawn_from(d));
                }
            }
            let n = counts.len();
            let mut i: usize = 0;
            while i < n
                invariant
                    mid.wf(),
                    cache.wf(),
                    s0 == *old(self),
                    c0 == *old(cache),
                    forall|d: Seq<Fill>| #[trigger] c1.consistent(d) ==> cache.consistent(d),
                    !self.overflowed,
                    self.query == mid.query,
                    self.cursor == mid.cursor,
                    self.gaps == mid.gaps,
                    self.next_gap == mid.next_gap,
                    self.parts == mid.parts,
                    mid.cursor == cur,
                    cur < nxt <= hi,
                    self.parts@ == base,
                    self.query == s0.query,
                    kind == self.query.query_type,
                    n == more.len(),
                    i <= n,
                    counts@.len() == n - i,
                    forall|j: int|
                        0 <= j < counts@.len() ==> count_matches(#[trigger] counts@[j], kind, more[i + j].source, more[i + j].times()),
                    total_matches(self.total, kind, base + more.take(i as int)),
                    tiles(all, gaps@, window(nxt as int, hi as int), whole),
                    all == base + more,
                    forall|d: Seq<Fill>| c1.consistent(d) ==> #[trigger] all_drawn_from(more, d),
                    forall|d: Seq<Fill>|
                        s0.drawn_from(d) && #[trigger] c0.consistent(d) ==> all_drawn_from(base, d) && c1.consistent(d),
                    mid.work() <= s0.work(),
                decreases n - i,
            {
                let ghost before = counts@;
                let c = counts.remove(0);
                let ghost ct = c.trades();
                proof {
                    assert(count_matches(c, kind, more[i as int].source, more[i as int].times()));
                    assert forall|j: int| 0 <= j < counts@.len() implies count_matches(#[trigger] counts@[j], kind, more[i + 1 + j].source, more[i + 1 + j].times()) by {
                        assert(counts@[j] == before[j + 1]);
                    }
                    assert(more.take(i + 1) =~= more.take(i as int).push(more[i as int]));
                    assert((base + more.take(i as int)).push(more[i as int]) =~= base + more.take(i + 1));
                }
                let ok = merge_into(&mut self.total, c, Ghost(kind), Ghost(base + more.take(i as int)), Ghost(more[i as int]));
                if !ok {
                    proof {
                        let q = base + more.take(i + 1);
                        assert forall|d: Seq<Fill>|
                            s0.drawn_from(d) && #[trigger] c0.consistent(d) && sequence_numbers_identify(d) implies d.len()
                                > usize::MAX by {
                            assert(all_drawn_from(base, d) && all_drawn_from(more, d));
                            assert forall|j: int| 0 <= j < q.len() implies (#[trigger] q[j]).drawn_from(d) by {
                                if j < base.len() {
                                    assert(q[j] == base[j]);
                                } else {
                                    assert(q[j] == more[j - base.len()]);
                                }
                            }
                            assert forall|a: int, b: int| 0 <= a < q.len() && 0 <= b < q.len() && a != b
                                implies (#[trigger] q[a]).times().disjoint((#[trigger] q[b]).times()) by {
                                assert(q[a] == all[a] && q[b] == all[b]);
                            }
                            lemma_pieces_answer_whole(d, kind, q);
                            lemma_trade_ids_finite(d, kind, covered(q));
                            assert(q.drop_last() =~= base + more.take(i as int));
                        }
                    }
                    self.overflowed = true;
                    return Step::Overflowed;
                }
                i = i + 1;
            }
            proof {
                assert(more.take(n as int) =~= more);
                assert forall|d: Seq<Fill>| s0.drawn_from(d) && #[trigger] c0.consistent(d) implies all_drawn_from(all, d)
                    && cache.consistent(d) by {
                    assert(all_drawn_from(base, d) && c1.consistent(d));
                    assert(all_drawn_from(more, d));
                    assert forall|j: int| 0 <= j < all.len() implies (#[trigger] all[j]).drawn_from(d) by {
                        if j < base.len() {
                            assert(all[j] == base[j]);
                        } else {
                            assert(all[j] == more[j - base.len()]);
                        }
                    }
                }
            }
            self.parts = Ghost(all);
            self.gaps = gaps;
            self.next_gap = 0;
            self.slot = slot;
            self.cursor = nxt;
            proof {
                assert(self.pending() =~= self.gaps@);
            }
        }
    }
}

impl Resolution {
    /// Hands over the fills that the lookup of `next_gap` returned: they are
    /// counted and cached under the current span's slot. Without a gap to fill
    /// this does nothing.
    pub fn deliver(&mut self, cache: &mut RangeCache, fills: Vec<Fill>)
        requires
            old(self).wf(),
            old(cache).wf(),
        ensures
            final(self).wf(),
            final(cache).wf(),
            final(self).query() == old(self).query(),
            old(self).next_gap() is None ==> *final(self) == *old(self),
            final(self).overflowed() && !old(self).overflowed() ==> old(self).query().query_type != QueryType::TradingVolume,
            old(self).next_gap() is Some ==> final(self).work() < old(self).work(),
            old(self).next_gap() is Some && !final(self).overflowed() ==> final(self).parts()
                == old(self).parts().push(looked_up(old(self).next_gap()->0, fills@)),
            forall|d: Seq<Fill>|
                old(self).drawn_from(d) && #[trigger] old(cache).consistent(d) && (old(self).next_gap() matches Some(g)
                    ==> fills@ == within(d, g.times())) ==> final(self).drawn_from(d) && final(cache).consistent(d),
            !old(self).overflowed() && final(self).overflowed() ==> forall|d: Seq<Fill>|
                old(self).drawn_from(d) && #[trigger] old(cache).consistent(d) && (old(self).next_gap() matches Some(g)
                    ==> fills@ == within(d, g.times())) && sequence_numbers_identify(d) ==> d.len() > usize::MAX,
    {
        if self.overflowed || self.next_gap >= self.gaps.len() {
            proof {
                if !self.overflowed {
                    assert(self.pending() =~= Seq::<TimeRange>::empty());
                }
            }
            return;
        }
        let ghost s0 = *self;
        let ghost c0 = *cache;
        let kind = self.query.query_type;
        let g = self.gaps[self.next_gap];
        let ghost src = fills@;
        let ghost p = looked_up(g, src);
        let ghost parts = self.parts@;
        let ghost q = parts.push(p);
        let ghost whole = self.query.range.times();
        let ghost rest = window(self.cursor as int, self.query.range.hi());
        proof {
            assert(s0.pending()[0] == g);
            lemma_tiles_fill_gap(parts, s0.pending(), rest, whole, p);
            assert(s0.pending().drop_first() =~= self.gaps@.skip(self.next_gap + 1));
            assert(q.drop_last() =~= parts);
            assert forall|d: Seq<Fill>| s0.drawn_from(d) && fills@ == within(d, g.times()) implies #[trigger] all_drawn_from(q, d) by {
                assert forall|j: int| 0 <= j < q.len() implies (#[trigger] q[j]).drawn_from(d) by {
                    if j < parts.len() {
                        assert(q[j] == parts[j]);
                    }
                }
            }
        }
        let c = count_from_range(kind, fills.as_slice(), g);
        let ok = merge_into(&mut self.total, c, Ghost(kind), Ghost(parts), Ghost(p));
        cache.store(self.slot, g, fills);
        if !ok {
            self.overflowed = true;
            proof {
                assert forall|d: Seq<Fill>|
                    s0.drawn_from(d) && #[trigger] c0.consistent(d) && (s0.next_gap() matches Some(h) ==> src == within(d, h.times()))
                        && sequence_numbers_identify(d) implies d.len() > usize::MAX by {
                    assert(all_drawn_from(q, d));
                    lemma_pieces_answer_whole(d, kind, q);
                    lemma_trade_ids_finite(d, kind, covered(q));
                }
            }
            return;
        }
        self.parts = Ghost(q);
        self.next_gap = self.next_gap + 1;
        proof {
            assert(self.pending() =~= s0.pending().drop_first());
        }
    }

    /// The answer, once every span is resolved: `None` for an empty window.
    pub fn finish(self) -> (r: Option<Count>)
        requires
            self.wf(),
            self.complete(),
        ensures
            total_matches(r, self.query().query_type, self.parts()),
            covered(self.parts()) == self.query().range.times(),
            pairwise_disjoint(self.parts()),
    {
        proof {
            assert(window(self.cursor as int, self.query.range.hi()) =~= Set::<int>::empty());
            assert(gap_times(self.pending()) =~= Set::<int>::empty());
            assert(covered(self.parts@) =~= covered(self.parts@).union(gap_times(self.pending())).union(
                window(self.cursor as int, self.query.range.hi()),
            ));
        }
        self.total
    }
}

impl Query {
    /// Answers this query through `cache`, looking up what the cache lacks in
    /// the in-memory dataset `backend` and caching it. Where the cache agrees with
    /// `backend` (and, for numbers of trades, a sequence number identifies a
    /// fill), the answer is the one that `backend` gives directly.
    pub fn get_count(&self, cache: &mut RangeCache, backend: &Vec<Fill>) -> (r: Result<Option<Count>, ResolveError>)
        requires
            old(cache).wf(),
        ensures
            final(cache).wf(),
            old(cache).consistent(backend@) ==> final(cache).consistent(backend@),
            r matches Err(ResolveError::Backend(e)) ==> e == BackendError::InvalidTimestamp,
            r is Err && !(r matches Err(ResolveError::CountOverflow)) <==> self.range.lo() < self.range.hi() && !(
            valid_timestamp(self.range.lo()) && valid_timestamp(self.range.hi())),
            old(cache).consistent(backend@) && (self.query_type == QueryType::TradingVolume
                || sequence_numbers_identify(backend@)) ==> match r {
                Ok(c) => answers(c, self.query_type, backend@, self.range.lo(), self.range.hi()),
                Err(e) => e != ResolveError::CountOverflow,
            },
    {
        let ghost d = backend@;
        let ghost c0 = *cache;
        let ghost assumed = c0.consistent(d) && (self.query_type == QueryType::TradingVolume
            || sequence_numbers_identify(d));
        let n = backend.len();
        let mut res = match Resolution::new(self) {
            Ok(r) => r,
            Err(e) => return Err(ResolveError::Backend(e)),
        };
        proof {
            assert(covered(res.parts()) =~= Set::<int>::empty());
        }
        loop
            invariant
                res.wf(),
                cache.wf(),
                res.query() == *self,
                c0 == *old(cache),
                n == d.len(),
                d == backend@,
                assumed == (c0.consistent(d) && (self.query_type == QueryType::TradingVolume
                    || sequence_numbers_identify(d))),
                c0.consistent(d) ==> res.drawn_from(d) && cache.consistent(d),
                assumed ==> !res.overflowed(),
                !(self.range.lo() < self.range.hi() && !(valid_timestamp(self.range.lo())
                    && valid_timestamp(self.range.hi()))),
            decreases res.work(),
        {
            let ghost r0 = res;
            let ghost k0 = *cache;
            let step = res.advance(cache);
            proof {
                if c0.consistent(d) {
                    assert(k0.consistent(d));
                    assert(res.drawn_from(d) && cache.consistent(d));
                }
            }
            match step {
                Step::Fetch(g) => {
                    let fetched = get_fills_api(backend, g.start_timestamp_in_seconds, g.end_timestamp_in_seconds);
                    match fetched {
                        Ok(f) => {
                            let ghost r1 = res;
                            let ghost k1 = *cache;
                            proof {
                                assert(f@ == within(d, g.times()));
                            }
                            res.deliver(cache, f);
                            proof {
                                if c0.consistent(d) {
                                    assert(k1.consistent(d));
                                    assert(res.drawn_from(d) && cache.consistent(d));
                                }
                                if assumed && res.overflowed() {
                                    assert(k1.consistent(d));
                                    assert(r1.drawn_from(d));
                                    assert(self.query_type != QueryType::TradingVolume);
                                    assert(d.len() > usize::MAX);
                                }
                            }
                        },
                        Err(e) => {
                            return Err(ResolveError::Backend(e));
                        },
                    }
                },
                Step::Done => {
                    let ghost parts = res.parts();
                    let c = res.finish();
                    proof {
                        if c0.consistent(d) {
                            if self.query_type != QueryType::TradingVolume && sequence_numbers_identify(d) {
                                lemma_pieces_answer_whole(d, self.query_type, parts);
                            }
                            if self.query_type == QueryType::TradingVolume {
                                lemma_pieces_answer_whole(d, self.query_type, parts);
                            }
                        }
                        if self.range.lo() < self.range.hi() {
                            assert(self.range.times().contains(self.range.hi()));
                            assert(covered(parts).contains(self.range.hi()));
                        }
                    }
                    return Ok(c);
                },
                Step::Overflowed => {
                    proof {
                        if assumed {
                            assert(k0.consistent(d));
                            assert(r0.drawn_from(d));
                            assert(!r0.overflowed());
                            assert(self.query_type != QueryType::TradingVolume);
                            assert(d.len() > usize::MAX);
                        }
                    }
                    return Err(ResolveError::CountOverflow);
                },
            }
        }
    }
}

} // verus!
