//! A query answered piece by piece: the pieces, their running total, and the
//! laws that make the total equal to the answer over the whole window.

use vstd::prelude::*;
use vstd::seq_lib::lemma_multiset_commutative;
use vstd::set_lib::lemma_set_disjoint_lens;
use crate::aggregate::{trade_ids, volume_terms, counts_for, count_matches, Count, QueryType};
use crate::decimal::Dec;
use crate::fill::{within, Fill};
use crate::time_range::{window, TimeRange};

verus! {

/// A piece `(lo, hi]` of a query's window, counted from `source`, the fills
/// that a lookup of the window `(src_lo, src_hi]` gave.
pub struct Part {
    pub lo: int,
    pub hi: int,
    pub source: Seq<Fill>,
    pub src_lo: int,
    pub src_hi: int,
}

impl Part {
    pub open spec fn times(self) -> Set<int> {
        window(self.lo, self.hi)
    }

    /// The piece lies inside the window its fills were looked up for, and those
    /// fills are exactly the fills of `d` in that window.
    pub open spec fn drawn_from(self, d: Seq<Fill>) -> bool {
        &&& self.source == within(d, window(self.src_lo, self.src_hi))
        &&& self.times().subset_of(window(self.src_lo, self.src_hi))
    }
}

/// The instants that some part covers.
pub open spec fn covered(parts: Seq<Part>) -> Set<int> {
    Set::new(|t: int| exists|i: int| 0 <= i < parts.len() && (#[trigger] parts[i]).times().contains(t))
}

/// No instant lies in two parts.
pub open spec fn pairwise_disjoint(parts: Seq<Part>) -> bool {
    forall|i: int, j: int|
        0 <= i < parts.len() && 0 <= j < parts.len() && i != j ==> (#[trigger] parts[i]).times().disjoint(
            (#[trigger] parts[j]).times(),
        )
}

pub open spec fn all_drawn_from(parts: Seq<Part>, d: Seq<Fill>) -> bool {
    forall|i: int| 0 <= i < parts.len() ==> (#[trigger] parts[i]).drawn_from(d)
}

/// The trades of the parts, each counted from its own fills.
pub open spec fn parts_trades(parts: Seq<Part>, kind: QueryType) -> nat
    decreases parts.len(),
{
    if parts.len() == 0 {
        0
    } else {
        parts_trades(parts.drop_last(), kind) + trade_ids(parts.last().source, kind, parts.last().times()).len()
    }
}

/// The volume terms of the parts, each taken from its own fills, part after part.
pub open spec fn parts_terms(parts: Seq<Part>) -> Seq<Dec>
    decreases parts.len(),
{
    if parts.len() == 0 {
        Seq::empty()
    } else {
        parts_terms(parts.drop_last()) + volume_terms(parts.last().source, parts.last().times())
    }
}

/// The instants that some gap covers.
pub open spec fn gap_times(gaps: Seq<TimeRange>) -> Set<int> {
    Set::new(|t: int| exists|i: int| 0 <= i < gaps.len() && (#[trigger] gaps[i]).times().contains(t))
}

pub open spec fn gaps_disjoint(gaps: Seq<TimeRange>) -> bool {
    forall|i: int, j: int|
        0 <= i < gaps.len() && 0 <= j < gaps.len() && i != j ==> (#[trigger] gaps[i]).times().disjoint(
            (#[trigger] gaps[j]).times(),
        )
}

/// The parts already counted, the gaps still to look up and the instants `rest`
/// not yet considered split `whole` without overlap.
pub open spec fn tiles(parts: Seq<Part>, gaps: Seq<TimeRange>, rest: Set<int>, whole: Set<int>) -> bool {
    &&& pairwise_disjoint(parts)
    &&& gaps_disjoint(gaps)
    &&& covered(parts).disjoint(gap_times(gaps))
    &&& covered(parts).disjoint(rest)
    &&& gap_times(gaps).disjoint(rest)
    &&& covered(parts).union(gap_times(gaps)).union(rest) == whole
}

pub proof fn lemma_tiles_add_part(
    parts: Seq<Part>,
    gaps: Seq<TimeRange>,
    rest: Set<int>,
    whole: Set<int>,
    p: Part,
    rest2: Set<int>,
)
    requires
        tiles(parts, gaps, rest, whole),
        p.times().union(rest2) == rest,
        p.times().disjoint(rest2),
    ensures
        tiles(parts.push(p), gaps, rest2, whole),
{
    let q = parts.push(p);
    lemma_covered_push(parts, p);
    assert forall|i: int| 0 <= i < parts.len() implies q[i] == parts[i] by {}
    assert(q[parts.len() as int] == p);
    assert forall|i: int, j: int| 0 <= i < q.len() && 0 <= j < q.len() && i != j
        implies (#[trigger] q[i]).times().disjoint((#[trigger] q[j]).times()) by {
        if i < parts.len() && j < parts.len() {
            assert(parts[i].times().disjoint(parts[j].times()));
        } else if i < parts.len() {
            assert forall|t: int| q[i].times().contains(t) implies !q[j].times().contains(t) by {
                assert(covered(parts).contains(t));
            }
        } else {
            assert forall|t: int| q[j].times().contains(t) implies !q[i].times().contains(t) by {
                assert(covered(parts).contains(t));
            }
        }
    }
    assert(covered(q).union(gap_times(gaps)).union(rest2) =~= whole);
}

pub proof fn lemma_tiles_add_gap(
    parts: Seq<Part>,
    gaps: Seq<TimeRange>,
    rest: Set<int>,
    whole: Set<int>,
    g: TimeRange,
    rest2: Set<int>,
)
    requires
        tiles(parts, gaps, rest, whole),
        g.times().union(rest2) == rest,
        g.times().disjoint(rest2),
    ensures
        tiles(parts, gaps.push(g), rest2, whole),
{
    let q = gaps.push(g);
    assert forall|i: int| 0 <= i < gaps.len() implies q[i] == gaps[i] by {}
    assert(q[gaps.len() as int] == g);
    assert(gap_times(q) =~= gap_times(gaps).union(g.times()));
    assert forall|i: int, j: int| 0 <= i < q.len() && 0 <= j < q.len() && i != j
        implies (#[trigger] q[i]).times().disjoint((#[trigger] q[j]).times()) by {
        if i < gaps.len() && j < gaps.len() {
            assert(gaps[i].times().disjoint(gaps[j].times()));
        } else if i < gaps.len() {
            assert forall|t: int| q[i].times().contains(t) implies !q[j].times().contains(t) by {
                assert(gap_times(gaps).contains(t));
            }
        } else {
            assert forall|t: int| q[j].times().contains(t) implies !q[i].times().contains(t) by {
                assert(gap_times(gaps).contains(t));
            }
        }
    }
    assert(covered(parts).union(gap_times(q)).union(rest2) =~= whole);
}

pub proof fn lemma_tiles_fill_gap(parts: Seq<Part>, gaps: Seq<TimeRange>, rest: Set<int>, whole: Set<int>, p: Part)
    requires
        tiles(parts, gaps, rest, whole),
        gaps.len() > 0,
        p.times() == gaps[0].times(),
    ensures
        tiles(parts.push(p), gaps.drop_first(), rest, whole),
{
    let q = parts.push(p);
    let g = gaps.drop_first();
    lemma_covered_push(parts, p);
    assert forall|i: int| 0 <= i < parts.len() implies q[i] == parts[i] by {}
    assert(q[parts.len() as int] == p);
    assert forall|i: int| 0 <= i < g.len() implies g[i] == gaps[i + 1] by {}
    assert(gap_times(gaps) =~= gaps[0].times().union(gap_times(g))) by {
        assert forall|t: int| gap_times(gaps).contains(t) implies gaps[0].times().union(gap_times(g)).contains(t) by {
            let i = choose|i: int| 0 <= i < gaps.len() && (#[trigger] gaps[i]).times().contains(t);
            if i > 0 {
                assert(g[i - 1].times().contains(t));
            }
        }
        assert forall|t: int| gap_times(g).contains(t) implies gap_times(gaps).contains(t) by {
            let i = choose|i: int| 0 <= i < g.len() && (#[trigger] g[i]).times().contains(t);
            assert(gaps[i + 1].times().contains(t));
        }
    }
    assert(gaps[0].times().disjoint(gap_times(g))) by {
        assert forall|t: int| gap_times(g).contains(t) implies !gaps[0].times().contains(t) by {
            let i = choose|i: int| 0 <= i < g.len() && (#[trigger] g[i]).times().contains(t);
            assert(gaps[0].times().disjoint(gaps[i + 1].times()));
        }
    }
    assert forall|i: int, j: int| 0 <= i < g.len() && 0 <= j < g.len() && i != j
        implies (#[trigger] g[i]).times().disjoint((#[trigger] g[j]).times()) by {
        assert(gaps[i + 1].times().disjoint(gaps[j + 1].times()));
    }
    assert forall|i: int, j: int| 0 <= i < q.len() && 0 <= j < q.len() && i != j
        implies (#[trigger] q[i]).times().disjoint((#[trigger] q[j]).times()) by {
        if i < parts.len() && j < parts.len() {
            assert(parts[i].times().disjoint(parts[j].times()));
        } else if i < parts.len() {
            assert forall|t: int| q[i].times().contains(t) implies !q[j].times().contains(t) by {
                assert(covered(parts).contains(t));
                assert(gap_times(gaps).contains(t) ==> false);
            }
        } else {
            assert forall|t: int| q[j].times().contains(t) implies !q[i].times().contains(t) by {
                assert(covered(parts).contains(t));
            }
        }
    }
    assert(covered(q).union(gap_times(g)).union(rest) =~= whole);
}

/// Appending the parts and gaps that tile `(cur, nxt]` to a tiling whose rest is
/// `(cur, hi]` leaves `(nxt, hi]` as the rest.
pub proof fn lemma_tiles_extend(
    parts: Seq<Part>,
    more: Seq<Part>,
    gaps: Seq<TimeRange>,
    cur: int,
    nxt: int,
    hi: int,
    whole: Set<int>,
)
    requires
        tiles(parts, Seq::empty(), window(cur, hi), whole),
        tiles(more, gaps, Set::empty(), window(cur, nxt)),
        cur <= nxt <= hi,
    ensures
        tiles(parts + more, gaps, window(nxt, hi), whole),
{
    let q = parts + more;
    assert(gap_times(Seq::<TimeRange>::empty()) =~= Set::<int>::empty());
    assert forall|i: int| 0 <= i < more.len() implies (#[trigger] more[i]).times().subset_of(window(cur, nxt)) by {
        assert forall|t: int| more[i].times().contains(t) implies window(cur, nxt).contains(t) by {
            assert(covered(more).contains(t));
        }
    }
    assert(covered(q) =~= covered(parts).union(covered(more))) by {
        assert forall|t: int| covered(q).contains(t) implies covered(parts).union(covered(more)).contains(t) by {
            let i = choose|i: int| 0 <= i < q.len() && (#[trigger] q[i]).times().contains(t);
            if i < parts.len() {
                assert(parts[i] == q[i]);
            } else {
                assert(more[i - parts.len()] == q[i]);
            }
        }
        assert forall|t: int| covered(parts).union(covered(more)).contains(t) implies covered(q).contains(t) by {
            if covered(parts).contains(t) {
                let i = choose|i: int| 0 <= i < parts.len() && (#[trigger] parts[i]).times().contains(t);
                assert(q[i] == parts[i]);
            } else {
                let i = choose|i: int| 0 <= i < more.len() && (#[trigger] more[i]).times().contains(t);
                assert(q[i + parts.len()] == more[i]);
            }
        }
    }
    assert forall|i: int, j: int| 0 <= i < q.len() && 0 <= j < q.len() && i != j
        implies (#[trigger] q[i]).times().disjoint((#[trigger] q[j]).times()) by {
        if i < parts.len() && j < parts.len() {
            assert(parts[i] == q[i] && parts[j] == q[j]);
        } else if i >= parts.len() && j >= parts.len() {
            assert(more[i - parts.len()] == q[i] && more[j - parts.len()] == q[j]);
        } else if i < parts.len() {
            assert(parts[i] == q[i] && more[j - parts.len()] == q[j]);
            assert forall|t: int| q[i].times().contains(t) implies !q[j].times().contains(t) by {
                assert(covered(parts).contains(t));
            }
        } else {
            assert(parts[j] == q[j] && more[i - parts.len()] == q[i]);
            assert forall|t: int| q[j].times().contains(t) implies !q[i].times().contains(t) by {
                assert(covered(parts).contains(t));
            }
        }
    }
    assert(covered(more).union(gap_times(gaps)) =~= window(cur, nxt)) by {
        assert(covered(more).union(gap_times(gaps)).union(Set::empty()) =~= covered(more).union(gap_times(gaps)));
    }
    assert(window(cur, hi) =~= window(cur, nxt).union(window(nxt, hi)));
    assert(covered(parts).union(window(cur, hi)) =~= whole) by {
        assert(covered(parts).union(gap_times(Seq::<TimeRange>::empty())) =~= covered(parts));
    }
    assert(covered(q).disjoint(gap_times(gaps))) by {
        assert forall|t: int| gap_times(gaps).contains(t) implies !covered(q).contains(t) by {
            assert(window(cur, nxt).contains(t));
        }
    }
    assert(covered(q).disjoint(window(nxt, hi))) by {
        assert forall|t: int| window(nxt, hi).contains(t) implies !covered(q).contains(t) by {
            assert(window(cur, hi).contains(t));
            if covered(more).contains(t) {
                assert(window(cur, nxt).contains(t));
            }
        }
    }
    assert(gap_times(gaps).disjoint(window(nxt, hi))) by {
        assert forall|t: int| gap_times(gaps).contains(t) implies !window(nxt, hi).contains(t) by {
            assert(window(cur, nxt).contains(t));
        }
    }
    assert(covered(q).union(gap_times(gaps)).union(window(nxt, hi)) =~= whole);
}

/// `total` is the sum of the parts: `None` before the first part.
pub open spec fn total_matches(total: Option<Count>, kind: QueryType, parts: Seq<Part>) -> bool {
    match total {
        None => parts.len() == 0,
        Some(c) => parts.len() > 0 && if kind == QueryType::TradingVolume {
            !c.is_trades() && c.terms() == parts_terms(parts)
        } else {
            c.is_trades() && c.trades() == parts_trades(parts, kind)
        },
    }
}

/// Adds the count of one more part to a running total. Returns `false`, and
/// leaves the total as it was, where a number of trades would pass `usize::MAX`.
pub(crate) fn merge_into(total: &mut Option<Count>, c: Count, Ghost(kind): Ghost<QueryType>, Ghost(parts): Ghost<Seq<Part>>, Ghost(part): Ghost<Part>) -> (ok: bool)
    requires
        total_matches(*old(total), kind, parts),
        count_matches(c, kind, part.source, part.times()),
    ensures
        ok == (kind == QueryType::TradingVolume || parts_trades(parts, kind) + c.trades() <= usize::MAX),
        ok ==> total_matches(*final(total), kind, parts.push(part)),
        !ok ==> total_matches(*final(total), kind, parts),
{
    proof {
        assert(parts.push(part).drop_last() =~= parts);
    }
    match total {
        None => {
            proof {
                assert(parts_terms(parts) =~= Seq::<Dec>::empty());
                assert(Seq::<Dec>::empty() + volume_terms(part.source, part.times()) =~= volume_terms(part.source, part.times()));
            }
            *total = Some(c);
            true
        },
        Some(t) => {
            if let Count::Trades(a) = t {
                if let Count::Trades(b) = c {
                    if *a > usize::MAX - b {
                        return false;
                    }
                }
            }
            t.add(c);
            true
        },
    }
}

/// Fills whose sequence numbers agree were made at the same instant: a
/// sequence number identifies one fill.
pub open spec fn sequence_numbers_identify(d: Seq<Fill>) -> bool {
    forall|i: int, j: int|
        0 <= i < d.len() && 0 <= j < d.len() && d[i].sequence_number == d[j].sequence_number ==> d[i].time
            == d[j].time
}

proof fn lemma_trade_ids_push(d: Seq<Fill>, f: Fill, kind: QueryType, times: Set<int>)
    ensures
        trade_ids(d.push(f), kind, times) == if times.contains(f.time as int) && counts_for(kind, f) {
            trade_ids(d, kind, times).insert(f.sequence_number)
        } else {
            trade_ids(d, kind, times)
        },
{
    let e = d.push(f);
    assert forall|i: int| 0 <= i < d.len() implies e[i] == d[i] by {}
    assert(e[d.len() as int] == f);
    if times.contains(f.time as int) && counts_for(kind, f) {
        assert(trade_ids(e, kind, times) =~= trade_ids(d, kind, times).insert(f.sequence_number));
    } else {
        assert(trade_ids(e, kind, times) =~= trade_ids(d, kind, times));
    }
}

/// The distinct trades of a dataset are a finite set, no larger than the dataset.
pub proof fn lemma_trade_ids_finite(d: Seq<Fill>, kind: QueryType, times: Set<int>)
    ensures
        trade_ids(d, kind, times).finite(),
        trade_ids(d, kind, times).len() <= d.len(),
    decreases d.len(),
{
    if d.len() == 0 {
        assert(trade_ids(d, kind, times) =~= Set::<u64>::empty());
    } else {
        let e = d.drop_last();
        assert(e.push(d.last()) =~= d);
        lemma_trade_ids_finite(e, kind, times);
        lemma_trade_ids_push(e, d.last(), kind, times);
    }
}

proof fn lemma_trade_ids_within(d: Seq<Fill>, s: Set<int>, kind: QueryType, times: Set<int>)
    requires
        times.subset_of(s),
    ensures
        trade_ids(within(d, s), kind, times) == trade_ids(d, kind, times),
    decreases d.len(),
{
    if d.len() == 0 {
        assert(trade_ids(within(d, s), kind, times) =~= trade_ids(d, kind, times));
    } else {
        let e = d.drop_last();
        assert(e.push(d.last()) =~= d);
        lemma_trade_ids_within(e, s, kind, times);
        lemma_trade_ids_push(e, d.last(), kind, times);
        if s.contains(d.last().time as int) {
            lemma_trade_ids_push(within(e, s), d.last(), kind, times);
        }
    }
}

proof fn lemma_volume_terms_within(d: Seq<Fill>, s: Set<int>, times: Set<int>)
    requires
        times.subset_of(s),
    ensures
        volume_terms(within(d, s), times) == volume_terms(d, times),
    decreases d.len(),
{
    if d.len() > 0 {
        let e = d.drop_last();
        lemma_volume_terms_within(e, s, times);
        if s.contains(d.last().time as int) {
            assert(within(e, s).push(d.last()).drop_last() =~= within(e, s));
        }
    }
}

/// Counting the distinct trades of two disjoint sets of instants apart and
/// adding the counts gives the count over both: where a sequence number
/// identifies a fill, none is counted twice.
pub proof fn lemma_trade_count_additive(d: Seq<Fill>, kind: QueryType, a: Set<int>, b: Set<int>)
    requires
        sequence_numbers_identify(d),
        a.disjoint(b),
    ensures
        trade_ids(d, kind, a.union(b)).len() == trade_ids(d, kind, a).len() + trade_ids(d, kind, b).len(),
{
    let ia = trade_ids(d, kind, a);
    let ib = trade_ids(d, kind, b);
    lemma_trade_ids_finite(d, kind, a);
    lemma_trade_ids_finite(d, kind, b);
    assert(trade_ids(d, kind, a.union(b)) =~= ia.union(ib));
    assert(ia.disjoint(ib)) by {
        assert forall|n: u64| ia.contains(n) implies !ib.contains(n) by {
            let i = choose|i: int|
                0 <= i < d.len() && a.contains(#[trigger] d[i].time as int) && counts_for(kind, d[i])
                    && d[i].sequence_number == n;
            if ib.contains(n) {
                let j = choose|j: int|
                    0 <= j < d.len() && b.contains(#[trigger] d[j].time as int) && counts_for(kind, d[j])
                        && d[j].sequence_number == n;
                assert(d[i].time == d[j].time);
            }
        }
    }
    lemma_set_disjoint_lens(ia, ib);
}

/// The volume terms over two disjoint sets of instants, taken apart, are the
/// terms over both: no fill is left out or taken twice.
pub proof fn lemma_volume_additive(d: Seq<Fill>, a: Set<int>, b: Set<int>)
    requires
        a.disjoint(b),
    ensures
        volume_terms(d, a.union(b)).to_multiset() == volume_terms(d, a).to_multiset().add(
            volume_terms(d, b).to_multiset(),
        ),
    decreases d.len(),
{
    broadcast use vstd::seq_lib::group_to_multiset_ensures;

    if d.len() == 0 {
        assert(volume_terms(d, a.union(b)).to_multiset() =~= volume_terms(d, a).to_multiset().add(
            volume_terms(d, b).to_multiset(),
        ));
    } else {
        lemma_volume_additive(d.drop_last(), a, b);
        assert(volume_terms(d, a.union(b)).to_multiset() =~= volume_terms(d, a).to_multiset().add(
            volume_terms(d, b).to_multiset(),
        ));
    }
}

proof fn lemma_covered_push(parts: Seq<Part>, p: Part)
    ensures
        covered(parts.push(p)) == covered(parts).union(p.times()),
{
    let q = parts.push(p);
    assert forall|i: int| 0 <= i < parts.len() implies q[i] == parts[i] by {}
    assert(q[parts.len() as int] == p);
    assert(covered(q) =~= covered(parts).union(p.times()));
}

/// The answer assembled from pieces that tile a window, each counted from a
/// faithful lookup, equals the answer computed directly over the whole dataset:
/// the cache cannot be told apart from asking the backend for the whole window.
pub proof fn lemma_pieces_answer_whole(d: Seq<Fill>, kind: QueryType, parts: Seq<Part>)
    requires
        all_drawn_from(parts, d),
        pairwise_disjoint(parts),
        kind != QueryType::TradingVolume ==> sequence_numbers_identify(d),
    ensures
        kind != QueryType::TradingVolume ==> parts_trades(parts, kind) == trade_ids(d, kind, covered(parts)).len(),
        parts_terms(parts).to_multiset() == volume_terms(d, covered(parts)).to_multiset(),
    decreases parts.len(),
{
    broadcast use vstd::seq_lib::group_to_multiset_ensures;

    if parts.len() == 0 {
        assert(covered(parts) =~= Set::<int>::empty());
        assert(trade_ids(d, kind, covered(parts)) =~= Set::<u64>::empty());
        lemma_volume_empty(d, covered(parts));
        assert(parts_terms(parts).to_multiset() =~= volume_terms(d, covered(parts)).to_multiset());
    } else {
        let rest = parts.drop_last();
        let p = parts.last();
        assert(rest.push(p) =~= parts);
        assert forall|i: int| 0 <= i < rest.len() implies (#[trigger] rest[i]).drawn_from(d) by {
            assert(rest[i] == parts[i]);
        }
        assert forall|i: int, j: int| 0 <= i < rest.len() && 0 <= j < rest.len() && i != j
            implies (#[trigger] rest[i]).times().disjoint((#[trigger] rest[j]).times()) by {
            assert(rest[i] == parts[i] && rest[j] == parts[j]);
        }
        lemma_pieces_answer_whole(d, kind, rest);
        lemma_covered_push(rest, p);
        assert(covered(rest).disjoint(p.times())) by {
            assert forall|t: int| covered(rest).contains(t) implies !p.times().contains(t) by {
                let i = choose|i: int| 0 <= i < rest.len() && (#[trigger] rest[i]).times().contains(t);
                assert(rest[i] == parts[i]);
                assert(parts[i].times().disjoint(parts[parts.len() - 1].times()));
            }
        }
        assert(p.drawn_from(d)) by {
            assert(parts[parts.len() - 1] == p);
        }
        let src = window(p.src_lo, p.src_hi);
        lemma_trade_ids_within(d, src, kind, p.times());
        lemma_volume_terms_within(d, src, p.times());
        if kind != QueryType::TradingVolume {
            lemma_trade_count_additive(d, kind, covered(rest), p.times());
        }
        lemma_volume_additive(d, covered(rest), p.times());
        lemma_multiset_commutative(parts_terms(rest), volume_terms(p.source, p.times()));
    }
}

proof fn lemma_volume_empty(d: Seq<Fill>, times: Set<int>)
    requires
        times == Set::<int>::empty(),
    ensures
        volume_terms(d, times) == Seq::<Dec>::empty(),
    decreases d.len(),
{
    if d.len() > 0 {
        lemma_volume_empty(d.drop_last(), times);
    }
}

} // verus!
