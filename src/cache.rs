//! The range cache: fetched windows of fills, grouped in slot buckets that are
//! evicted whole, least recently used first.

use vstd::prelude::*;
use crate::aggregate::{count_from_range, count_matches, Count, QueryType};
use crate::fill::{within, Fill};
use crate::pieces::{covered, gap_times, lemma_tiles_add_gap, lemma_tiles_add_part, tiles, Part};
use crate::recency::{capacity, lru_new, lru_push, lru_touch, promote, recency};
use crate::time_range::{window, TimeRange};

verus! {

broadcast use vstd::std_specs::hash::group_hash_axioms;

/// The most slot buckets the cache holds at once.
pub const CACHE_SIZE: usize = 10000;

/// The fills of exactly `range`, as one lookup returned them.
pub struct Entry {
    pub range: TimeRange,
    pub fills: Vec<Fill>,
}

/// Cached lookups, keyed by slot, with the slots' order of last use.
pub struct RangeCache {
    order: lru::LruCache<i64, ()>,
    buckets: std::collections::HashMap<i64, Vec<Entry>>,
}

/// `entries` with `(range, fills)` in place of its first entry for `range`, or
/// appended where there is none.
pub open spec fn upsert(
    entries: Seq<(TimeRange, Seq<Fill>)>,
    range: TimeRange,
    fills: Seq<Fill>,
) -> Seq<(TimeRange, Seq<Fill>)> {
    if exists|i: int| 0 <= i < entries.len() && (#[trigger] entries[i]).0 == range {
        let i = choose|i: int|
            0 <= i < entries.len() && (#[trigger] entries[i]).0 == range && forall|j: int|
                0 <= j < i ==> (#[trigger] entries[j]).0 != range;
        entries.update(i, (range, fills))
    } else {
        entries.push((range, fills))
    }
}

impl RangeCache {
    /// The slots held, from the least recently used to the most recently used.
    pub closed spec fn slots(self) -> Seq<i64> {
        recency(self.order)
    }

    /// The cached windows of a slot, with their fills.
    pub closed spec fn entries(self, slot: i64) -> Seq<(TimeRange, Seq<Fill>)> {
        self.buckets@[slot]@.map_values(|e: Entry| (e.range, e.fills@))
    }

    pub closed spec fn wf(self) -> bool {
        &&& recency(self.order).no_duplicates()
        &&& recency(self.order).len() <= capacity(self.order)
        &&& capacity(self.order) == CACHE_SIZE
        &&& forall|k: i64| recency(self.order).contains(k) <==> self.buckets@.contains_key(k)
        &&& forall|k: i64, i: int|
            self.buckets@.contains_key(k) && 0 <= i < self.buckets@[k]@.len() ==> (
            #[trigger] self.buckets@[k]@[i]).range.lo() <= self.buckets@[k]@[i].range.hi()
    }

    /// Every cached window holds exactly the fills of `d` in it.
    pub open spec fn consistent(self, d: Seq<Fill>) -> bool {
        forall|k: i64, i: int|
            self.slots().contains(k) && 0 <= i < self.entries(k).len() ==> (#[trigger] self.entries(k)[i]).1
                == within(d, self.entries(k)[i].0.times())
    }

    /// The slot holds a cached window `(lo, hi]` whose fills are `fills`.
    pub open spec fn holds(self, slot: i64, lo: int, hi: int, fills: Seq<Fill>) -> bool {
        &&& self.slots().contains(slot)
        &&& exists|i: int|
            0 <= i < self.entries(slot).len() && (#[trigger] self.entries(slot)[i]).0.lo() == lo
                && self.entries(slot)[i].0.hi() == hi && self.entries(slot)[i].1 == fills
    }

    /// The cache never holds more than `CACHE_SIZE` slot buckets, each once.
    pub proof fn lemma_bounded(self)
        requires
            self.wf(),
        ensures
            self.slots().len() <= CACHE_SIZE,
            self.slots().no_duplicates(),
    {
    }

    /// A window that the cache holds under a consistent slot is the dataset's.
    pub proof fn lemma_holds_consistent(self, d: Seq<Fill>, slot: i64, lo: int, hi: int, fills: Seq<Fill>)
        requires
            self.consistent(d),
            self.holds(slot, lo, hi, fills),
        ensures
            fills == within(d, window(lo, hi)),
    {
        let i = choose|i: int|
            0 <= i < self.entries(slot).len() && (#[trigger] self.entries(slot)[i]).0.lo() == lo
                && self.entries(slot)[i].0.hi() == hi && self.entries(slot)[i].1 == fills;
        assert(self.entries(slot)[i].1 == within(d, self.entries(slot)[i].0.times()));
    }

    /// An empty cache for `CACHE_SIZE` slot buckets.
    pub fn new() -> (r: Self)
        ensures
            r.wf(),
            r.slots() == Seq::<i64>::empty(),
            forall|d: Seq<Fill>| r.consistent(d),
    {
        RangeCache { order: lru_new(CACHE_SIZE), buckets: std::collections::HashMap::new() }
    }

    /// Caches the fills of `range` under `slot`, replacing an entry for the same
    /// window. A slot not yet held gets a new bucket; when `CACHE_SIZE` buckets
    /// are held already, the least recently used one is evicted in full first.
    pub fn store(&mut self, slot: i64, range: TimeRange, fills: Vec<Fill>)
        requires
            old(self).wf(),
            range.lo() <= range.hi(),
        ensures
            final(self).wf(),
            old(self).slots().contains(slot) ==> final(self).slots() == promote(old(self).slots(), slot)
                && final(self).entries(slot) == upsert(old(self).entries(slot), range, fills@),
            !old(self).slots().contains(slot) ==> final(self).entries(slot) == seq![(range, fills@)],
            !old(self).slots().contains(slot) && old(self).slots().len() < CACHE_SIZE ==> final(self).slots()
                == old(self).slots().push(slot),
            !old(self).slots().contains(slot) && old(self).slots().len() >= CACHE_SIZE ==> final(self).slots()
                == old(self).slots().drop_first().push(slot),
            forall|k: i64| k != slot && #[trigger] final(self).slots().contains(k) ==> final(self).entries(k)
                == old(self).entries(k),
            forall|d: Seq<Fill>|
                old(self).consistent(d) && fills@ == within(d, range.times()) ==> #[trigger] final(self).consistent(d),
    {
        let ghost old_self = *self;
        let ghost new_entry = (range, fills@);
        let present = lru_touch(&mut self.order, slot);
        let entry = Entry { range, fills };
        if present {
            let mut bucket = self.buckets.remove(&slot).unwrap();
            let ghost old_bucket = bucket@;
            let ghost es = old_self.entries(slot);
            assert(es == old_bucket.map_values(|e: Entry| (e.range, e.fills@)));
            let mut i: usize = 0;
            let mut found = false;
            while i < bucket.len() && !found
                invariant
                    bucket@ == old_bucket,
                    es == old_bucket.map_values(|e: Entry| (e.range, e.fills@)),
                    i <= bucket@.len(),
                    forall|j: int| 0 <= j < i ==> (#[trigger] es[j]).0 != range,
                    found ==> i < bucket@.len() && es[i as int].0 == range,
                decreases bucket@.len() - i + (if found { 0int } else { 1int }),
            {
                if bucket[i].range == range {
                    found = true;
                } else {
                    i = i + 1;
                }
            }
            if found {
                bucket[i] = entry;
                proof {
                    assert(bucket@.map_values(|e: Entry| (e.range, e.fills@)) =~= es.update(i as int, new_entry));
                    assert(upsert(es, range, fills@) == es.update(i as int, new_entry));
                }
            } else {
                bucket.push(entry);
                proof {
                    assert(bucket@.map_values(|e: Entry| (e.range, e.fills@)) =~= es.push(new_entry));
                }
            }
            self.buckets.insert(slot, bucket);
            proof {
                promote_keeps_keys(old_self.slots(), slot);
                assert(recency(self.order) == promote(recency(old_self.order), slot));
                assert(self.buckets@.dom() =~= old_self.buckets@.dom());
                assert forall|k: i64| recency(self.order).contains(k) <==> self.buckets@.contains_key(k) by {
                    assert(recency(old_self.order).contains(k) <==> old_self.buckets@.contains_key(k));
                }
            }
        } else {
            let evicted = lru_push(&mut self.order, slot);
            if let Some(k) = evicted {
                self.buckets.remove(&k);
                proof {
                    assert(old_self.slots().contains(k)) by {
                        assert(old_self.slots()[0] == k);
                    }
                    assert forall|x: i64| old_self.slots().drop_first().contains(x) <==> old_self.slots().contains(x) && x != k by {
                        if old_self.slots().contains(x) && x != k {
                            let j = choose|j: int| 0 <= j < old_self.slots().len() && old_self.slots()[j] == x;
                            assert(old_self.slots().drop_first()[j - 1] == x);
                        }
                        if old_self.slots().drop_first().contains(x) {
                            let j = choose|j: int| 0 <= j < old_self.slots().drop_first().len() && old_self.slots().drop_first()[j] == x;
                            assert(old_self.slots()[j + 1] == x);
                        }
                    }
                }
            }
            self.buckets.insert(slot, vec![entry]);
            proof {
                assert(self.buckets@[slot]@.map_values(|e: Entry| (e.range, e.fills@)) =~= seq![new_entry]);
                let o = recency(old_self.order);
                assert forall|x: i64| recency(self.order).contains(x) <==> self.buckets@.contains_key(x) by {
                    assert(o.contains(x) <==> old_self.buckets@.contains_key(x));
                    if o.len() < CACHE_SIZE {
                        assert(recency(self.order) == o.push(slot));
                        if o.contains(x) {
                            let j = choose|j: int| 0 <= j < o.len() && o[j] == x;
                            assert(o.push(slot)[j] == x);
                        }
                        if o.push(slot).contains(x) && x != slot {
                            let j = choose|j: int| 0 <= j < o.len() + 1 && o.push(slot)[j] == x;
                            assert(o[j] == x);
                        }
                        assert(o.push(slot)[o.len() as int] == slot);
                    } else {
                        let p = o.drop_first();
                        assert(recency(self.order) == p.push(slot));
                        if p.contains(x) {
                            let j = choose|j: int| 0 <= j < p.len() && p[j] == x;
                            assert(p.push(slot)[j] == x);
                        }
                        if p.push(slot).contains(x) && x != slot {
                            let j = choose|j: int| 0 <= j < p.len() + 1 && p.push(slot)[j] == x;
                            assert(p[j] == x);
                        }
                        assert(p.push(slot)[p.len() as int] == slot);
                    }
                }
            }
        }
        proof {
            assert forall|k: i64, i: int|
                self.buckets@.contains_key(k) && 0 <= i < self.buckets@[k]@.len() implies (
                #[trigger] self.buckets@[k]@[i]).range.lo() <= self.buckets@[k]@[i].range.hi() by {
                if k != slot {
                    assert(old_self.buckets@[k] == self.buckets@[k]);
                }
            }
            assert forall|d: Seq<Fill>|
                old_self.consistent(d) && fills@ == within(d, range.times()) implies #[trigger] self.consistent(d) by {
                assert forall|k: i64, i: int|
                    self.slots().contains(k) && 0 <= i < self.entries(k).len() implies (#[trigger] self.entries(k)[i]).1
                        == within(d, self.entries(k)[i].0.times()) by {
                    if k != slot {
                        assert(old_self.slots().contains(k));
                        assert(self.entries(k) == old_self.entries(k));
                    } else if present {
                        let es = old_self.entries(slot);
                        if exists|j: int| 0 <= j < es.len() && (#[trigger] es[j]).0 == range {
                            let j = choose|j: int|
                                0 <= j < es.len() && (#[trigger] es[j]).0 == range && forall|m: int|
                                    0 <= m < j ==> (#[trigger] es[m]).0 != range;
                            if i != j {
                                assert(self.entries(k)[i] == es[i]);
                            }
                        } else {
                            if i < es.len() {
                                assert(self.entries(k)[i] == es[i]);
                            }
                        }
                    }
                }
            }
        }
    }

    /// Looks up the span `seg` of a query in the bucket of `slot`, which counts as
    /// a use of the slot. Each cached window that meets what is left of the span
    /// contributes the count of the overlap and narrows what is left; the
    /// returned gaps are what no cached window covers and must be looked up.
    pub(crate) fn plan_segment(&mut self, kind: QueryType, slot: i64, seg: TimeRange) -> (r: (
        Vec<Count>,
        Vec<TimeRange>,
        Ghost<Seq<Part>>,
    ))
        requires
            old(self).wf(),
            seg.lo() < seg.hi(),
        ensures
            final(self).wf(),
            final(self).slots() == if old(self).slots().contains(slot) {
                promote(old(self).slots(), slot)
            } else {
                old(self).slots()
            },
            forall|k: i64| #[trigger] final(self).entries(k) == old(self).entries(k),
            forall|d: Seq<Fill>| #[trigger] old(self).consistent(d) ==> final(self).consistent(d),
            r.0@.len() == r.2@.len(),
            forall|i: int|
                0 <= i < r.0@.len() ==> count_matches(#[trigger] r.0@[i], kind, r.2@[i].source, r.2@[i].times()),
            forall|i: int|
                0 <= i < r.2@.len() ==> old(self).holds(slot, (#[trigger] r.2@[i]).src_lo, r.2@[i].src_hi, r.2@[i].source)
                    && r.2@[i].times().subset_of(window(r.2@[i].src_lo, r.2@[i].src_hi)),
            tiles(r.2@, r.1@, Set::empty(), seg.times()),
            forall|i: int|
                0 <= i < r.1@.len() ==> seg.lo() <= (#[trigger] r.1@[i]).lo() <= r.1@[i].hi() <= seg.hi(),
            r.1@.len() <= 2,
    {
        let ghost old_self = *self;
        let present = lru_touch(&mut self.order, slot);
        proof {
            if present {
                promote_keeps_keys(old_self.slots(), slot);
            }
        }
        let mut counts: Vec<Count> = Vec::new();
        let mut gaps: Vec<TimeRange> = Vec::new();
        let ghost mut parts: Seq<Part> = Seq::empty();
        let ghost whole = seg.times();
        let mut qs = seg.start_timestamp_in_seconds;
        let mut qe = seg.end_timestamp_in_seconds;
        let mut done = false;
        let ghost mut rest = window(qs as int, qe as int);
        proof {
            assert(covered(parts) =~= Set::<int>::empty());
            assert(gap_times(gaps@) =~= Set::<int>::empty());
            assert(covered(parts).union(gap_times(gaps@)).union(rest) =~= whole);
        }
        if present {
            let bucket = self.buckets.get(&slot).unwrap();
            let ghost es = old_self.entries(slot);
            assert(es == bucket@.map_values(|e: Entry| (e.range, e.fills@)));
            let mut i: usize = 0;
            while i < bucket.len() && !done
                invariant
                    es == bucket@.map_values(|e: Entry| (e.range, e.fills@)),
                    es == old_self.entries(slot),
                    old_self.slots().contains(slot),
                    old_self.wf(),
                    bucket@ == old_self.buckets@[slot]@,
                    i <= bucket@.len(),
                    whole == seg.times(),
                    rest == if done { Set::<int>::empty() } else { window(qs as int, qe as int) },
                    !done ==> seg.lo() <= qs <= qe <= seg.hi(),
                    !done ==> gaps@.len() == 0,
                    gaps@.len() <= 2,
                    tiles(parts, gaps@, rest, whole),
                    counts@.len() == parts.len(),
                    forall|j: int|
                        0 <= j < counts@.len() ==> count_matches(#[trigger] counts@[j], kind, parts[j].source, parts[j].times()),
                    forall|j: int|
                        0 <= j < parts.len() ==> old_self.holds(slot, (#[trigger] parts[j]).src_lo, parts[j].src_hi, parts[j].source)
                            && parts[j].times().subset_of(window(parts[j].src_lo, parts[j].src_hi)),
                    forall|j: int|
                        0 <= j < gaps@.len() ==> seg.lo() <= (#[trigger] gaps@[j]).lo() <= gaps@[j].hi() <= seg.hi(),
                decreases bucket@.len() - i,
            {
                let cs = bucket[i].range.start_timestamp_in_seconds;
                let ce = bucket[i].range.end_timestamp_in_seconds;
                let ghost src = bucket@[i as int].fills@;
                proof {
                    assert(es[i as int] == (bucket@[i as int].range, src));
                    assert(cs <= ce);
                }
                if qs <= ce && qe >= cs {
                    let fills = bucket[i].fills.as_slice();
                    if qs >= cs && qe <= ce {
                        let c = count_from_range(kind, fills, TimeRange::new(qs, qe));
                        let ghost p = Part { lo: qs as int, hi: qe as int, source: src, src_lo: cs as int, src_hi: ce as int };
                        proof {
                            assert(p.times().union(Set::empty()) =~= rest);
                            lemma_tiles_add_part(parts, gaps@, rest, whole, p, Set::empty());
                            parts = parts.push(p);
                            rest = Set::empty();
                        }
                        counts.push(c);
                        done = true;
                    } else if qs <= cs && qe >= ce {
                        let c = count_from_range(kind, fills, TimeRange::new(cs, ce));
                        let ghost p = Part { lo: cs as int, hi: ce as int, source: src, src_lo: cs as int, src_hi: ce as int };
                        let before = TimeRange::new(qs, cs);
                        let after = TimeRange::new(ce, qe);
                        proof {
                            let r2 = window(qs as int, cs as int).union(window(ce as int, qe as int));
                            assert(p.times().union(r2) =~= rest);
                            assert(p.times().disjoint(r2));
                            lemma_tiles_add_part(parts, gaps@, rest, whole, p, r2);
                            parts = parts.push(p);
                            assert(before.times().union(window(ce as int, qe as int)) =~= r2);
                            lemma_tiles_add_gap(parts, gaps@, r2, whole, before, window(ce as int, qe as int));
                            assert(after.times().union(Set::empty()) =~= window(ce as int, qe as int));
                            lemma_tiles_add_gap(parts, gaps@.push(before), window(ce as int, qe as int), whole, after, Set::empty());
                            rest = Set::empty();
                        }
                        counts.push(c);
                        gaps.push(before);
                        gaps.push(after);
                        done = true;
                    } else if qs <= cs && qe <= ce {
                        let c = count_from_range(kind, fills, TimeRange::new(cs, qe));
                        let ghost p = Part { lo: cs as int, hi: qe as int, source: src, src_lo: cs as int, src_hi: ce as int };
                        proof {
                            let r2 = window(qs as int, cs as int);
                            assert(p.times().union(r2) =~= rest);
                            assert(p.times().disjoint(r2));
                            lemma_tiles_add_part(parts, gaps@, rest, whole, p, r2);
                            parts = parts.push(p);
                            rest = r2;
                        }
                        counts.push(c);
                        qe = cs;
                    } else if qs >= cs && qe >= ce {
                        let c = count_from_range(kind, fills, TimeRange::new(qs, ce));
                        let ghost p = Part { lo: qs as int, hi: ce as int, source: src, src_lo: cs as int, src_hi: ce as int };
                        proof {
                            let r2 = window(ce as int, qe as int);
                            assert(p.times().union(r2) =~= rest);
                            assert(p.times().disjoint(r2));
                            lemma_tiles_add_part(parts, gaps@, rest, whole, p, r2);
                            parts = parts.push(p);
                            rest = r2;
                        }
                        counts.push(c);
                        qs = ce;
                    }
                }
                i = i + 1;
            }
        }
        if !done {
            let g = TimeRange::new(qs, qe);
            proof {
                assert(g.times().union(Set::empty()) =~= rest);
                lemma_tiles_add_gap(parts, gaps@, rest, whole, g, Set::empty());
                rest = Set::empty();
            }
            gaps.push(g);
        }
        proof {
            assert forall|k: i64| #[trigger] self.entries(k) == old_self.entries(k) by {}
            assert forall|k: i64| recency(self.order).contains(k) <==> self.buckets@.contains_key(k) by {
                assert(recency(old_self.order).contains(k) <==> old_self.buckets@.contains_key(k));
            }
        }
        (counts, gaps, Ghost(parts))
    }

    /// The number of slot buckets held.
    pub fn len(&self) -> (r: usize)
        requires
            self.wf(),
        ensures
            r == self.slots().len(),
    {
        proof {
            recency(self.order).unique_seq_to_set();
            assert(recency(self.order).to_set() =~= self.buckets@.dom());
        }
        self.buckets.len()
    }

    /// Whether the bucket of `slot` is held; does not count as a use.
    pub fn contains_slot(&self, slot: i64) -> (r: bool)
        requires
            self.wf(),
        ensures
            r == self.slots().contains(slot),
    {
        self.buckets.contains_key(&slot)
    }
}

proof fn promote_keeps_keys(s: Seq<i64>, k: i64)
    requires
        s.contains(k),
        s.no_duplicates(),
    ensures
        forall|x: i64| promote(s, k).contains(x) <==> s.contains(x),
{
    let i = s.index_of(k);
    let r = s.remove(i);
    assert forall|x: i64| promote(s, k).contains(x) <==> s.contains(x) by {
        if s.contains(x) && x != k {
            let j = choose|j: int| 0 <= j < s.len() && s[j] == x;
            if j < i {
                assert(r[j] == x);
            } else {
                assert(j != i);
                assert(r[j - 1] == x);
            }
            assert(promote(s, k)[if j < i { j } else { j - 1 }] == x);
        }
        if x == k {
            assert(promote(s, k)[r.len() as int] == k);
        }
        if promote(s, k).contains(x) && x != k {
            let j = choose|j: int| 0 <= j < promote(s, k).len() && promote(s, k)[j] == x;
            assert(j < r.len());
            if j < i {
                assert(s[j] == x);
            } else {
                assert(s[j + 1] == x);
            }
        }
    }
}

} // verus!
