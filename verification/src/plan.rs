//! Indexed filter plans: trees of sorted key windows with optional
//! per-record residual predicates, walked by a k-way merging search.

use std::collections::HashMap;
use vstd::prelude::*;

use crate::bound::{le_at, lt_at, BoundSearch};
use crate::filter::{chain_of, resolved_value, DurationFilter};
use crate::filter::{BasicEventFilter, BasicSpanFilter};
use crate::index::{band_end, band_start, names_get, strictly_sorted, EventIndexes, SpanIndexes};
use crate::models::{Event, Order, Span, SpanKey, Timestamp};

verus! {

/// A window into a sorted vector of timestamps. Searches narrow the
/// window in place, so repeated searches with advancing cursors stay
/// cheap.
pub struct TsSlice {
    pub entries: Vec<Timestamp>,
    pub lo: usize,
    pub hi: usize,
}

impl TsSlice {
    pub open spec fn wf(self) -> bool {
        &&& self.lo <= self.hi <= self.entries@.len()
        &&& strictly_sorted(self.entries@)
    }

    /// The keys visible through the window.
    pub open spec fn view(self) -> Seq<Timestamp> {
        self.entries@.subrange(self.lo as int, self.hi as int)
    }

    pub open spec fn has(self, k: Timestamp) -> bool {
        self.view().contains(k)
    }

    pub fn from_vec(v: &Vec<Timestamp>) -> (r: TsSlice)
        requires
            strictly_sorted(v@),
        ensures
            r.wf(),
            r.view() == v@,
    {
        let entries = vstd::slice::slice_to_vec(v.as_slice());
        let hi = entries.len();
        let r = TsSlice { entries, lo: 0, hi };
        proof {
            assert(r.view() =~= v@);
        }
        r
    }

    pub fn empty() -> (r: TsSlice)
        ensures
            r.wf(),
            r.view().len() == 0,
    {
        TsSlice { entries: Vec::new(), lo: 0, hi: 0 }
    }

    pub fn window_len(&self) -> (r: usize)
        requires
            self.wf(),
        ensures
            r == self.view().len(),
    {
        self.hi - self.lo
    }

    /// The first key at or above `x` in the window, if any; drops the
    /// part of the window below `x`.
    pub fn advance_to(&mut self, x: Timestamp) -> (r: Option<Timestamp>)
        requires
            old(self).wf(),
        ensures
            final(self).wf(),
            final(self).entries == old(self).entries,
            final(self).hi == old(self).hi,
            old(self).lo <= final(self).lo,
            forall|k: Timestamp| final(self).has(k) <==> old(self).has(k) && k >= x,
            match r {
                Some(f) => final(self).has(f) && f >= x && (forall|k: Timestamp|
                    final(self).has(k) ==> f <= k),
                None => final(self).view().len() == 0,
            },
    {
        proof {
            assert forall|i: int, j: int|
                0 <= i <= j < self.entries@.len() && lt_at(#[trigger] self.entries@[j], x) implies
                lt_at(#[trigger] self.entries@[i], x) by {
                if i < j {
                    assert(self.entries@[i] < self.entries@[j]);
                }
            }
        }
        let sub = vstd::slice::slice_subrange(self.entries.as_slice(), self.lo, self.hi);
        let idx = sub.lower_bound(&x);
        proof {
            assert(sub@ == self.view());
            assert forall|i: int| 0 <= i < idx implies self.view()[i] < x by {
                assert(lt_at(sub@[i], x));
            }
            assert forall|i: int| idx <= i < self.view().len() implies self.view()[i] >= x by {
                assert(!lt_at(sub@[i], x));
            }
        }
        let ghost old_self = *self;
        self.lo = self.lo + idx;
        proof {
            let ov = old_self.view();
            let nv = self.view();
            assert(nv =~= ov.subrange(idx as int, ov.len() as int));
            assert forall|k: Timestamp| nv.contains(k) implies ov.contains(k) && k >= x by {
                let i = choose|i: int| 0 <= i < nv.len() && nv[i] == k;
                assert(ov[i + idx] == k);
            }
            assert forall|k: Timestamp| ov.contains(k) && k >= x implies nv.contains(k) by {
                let i = choose|i: int| 0 <= i < ov.len() && ov[i] == k;
                assert(i >= idx);
                assert(nv[i - idx] == k);
            }
        }
        if self.lo < self.hi {
            let f = self.entries[self.lo];
            proof {
                assert(self.view()[0] == f);
                assert forall|k: Timestamp| self.has(k) implies f <= k by {
                    let i = choose|i: int| 0 <= i < self.view().len() && self.view()[i] == k;
                    assert(self.view()[i] == self.entries@[self.lo + i]);
                    if i > 0 {
                        assert(self.entries@[self.lo as int] < self.entries@[self.lo + i]);
                    }
                }
            }
            Some(f)
        } else {
            proof {
                assert(self.view().len() == 0);
            }
            None
        }
    }

    /// The last key at or below `x` in the window, if any; drops the
    /// part of the window above `x`.
    pub fn retreat_to(&mut self, x: Timestamp) -> (r: Option<Timestamp>)
        requires
            old(self).wf(),
        ensures
            final(self).wf(),
            final(self).entries == old(self).entries,
            final(self).lo == old(self).lo,
            final(self).hi <= old(self).hi,
            forall|k: Timestamp| final(self).has(k) <==> old(self).has(k) && k <= x,
            match r {
                Some(f) => final(self).has(f) && f <= x && (forall|k: Timestamp|
                    final(self).has(k) ==> k <= f),
                None => final(self).view().len() == 0,
            },
    {
        proof {
            assert forall|i: int, j: int|
                0 <= i <= j < self.entries@.len() && le_at(#[trigger] self.entries@[j], x) implies
                le_at(#[trigger] self.entries@[i], x) by {
                if i < j {
                    assert(self.entries@[i] < self.entries@[j]);
                }
            }
        }
        let sub = vstd::slice::slice_subrange(self.entries.as_slice(), self.lo, self.hi);
        let idx = sub.upper_bound(&x);
        proof {
            assert(sub@ == self.view());
            assert forall|i: int| 0 <= i < idx implies self.view()[i] <= x by {
                assert(le_at(sub@[i], x));
            }
            assert forall|i: int| idx <= i < self.view().len() implies self.view()[i] > x by {
                assert(!le_at(sub@[i], x));
            }
        }
        let ghost old_self = *self;
        self.hi = self.lo + idx;
        proof {
            let ov = old_self.view();
            let nv = self.view();
            assert(nv =~= ov.subrange(0, idx as int));
            assert forall|k: Timestamp| nv.contains(k) implies ov.contains(k) && k <= x by {
                let i = choose|i: int| 0 <= i < nv.len() && nv[i] == k;
                assert(ov[i] == k);
            }
            assert forall|k: Timestamp| ov.contains(k) && k <= x implies nv.contains(k) by {
                let i = choose|i: int| 0 <= i < ov.len() && ov[i] == k;
                assert(i < idx);
                assert(nv[i] == k);
            }
        }
        if self.hi > self.lo {
            let f = self.entries[self.hi - 1];
            proof {
                assert(self.view()[self.view().len() - 1] == f);
                assert forall|k: Timestamp| self.has(k) implies k <= f by {
                    let i = choose|i: int| 0 <= i < self.view().len() && self.view()[i] == k;
                    assert(self.view()[i] == self.entries@[self.lo + i]);
                    if i < self.view().len() - 1 {
                        assert(self.entries@[self.lo + i] < self.entries@[self.hi - 1]);
                    }
                }
            }
            Some(f)
        } else {
            proof {
                assert(self.view().len() == 0);
            }
            None
        }
    }
}


/// A per-record predicate attached to an index leaf when the index
/// alone cannot decide membership.
pub enum NonIndexedEventFilter {
    Attribute(String, String),
}

impl NonIndexedEventFilter {
    /// Whether the event at a key passes the residual predicate.
    pub open spec fn spec_matches(
        self,
        events: Map<Timestamp, Event>,
        spans: Map<SpanKey, Span>,
        anc: Map<Timestamp, Vec<SpanKey>>,
        k: Timestamp,
    ) -> bool {
        match self {
            NonIndexedEventFilter::Attribute(attribute, value) => events.contains_key(k)
                && resolved_value(events[k].fields, chain_of(anc, k), spans, attribute@) == Some(
                value@,
            ),
        }
    }

    pub fn matches(
        &self,
        events: &HashMap<Timestamp, Event>,
        spans: &HashMap<SpanKey, Span>,
        ancestors: &HashMap<Timestamp, Vec<SpanKey>>,
        entry: Timestamp,
    ) -> (r: bool)
        ensures
            r == self.spec_matches(events@, spans@, ancestors@, entry),
    {
        match self {
            NonIndexedEventFilter::Attribute(attribute, value) => {
                match events.get(&entry) {
                    Some(event) => {
                        let empty_chain: Vec<SpanKey> = Vec::new();
                        let resolved = match ancestors.get(&entry) {
                            Some(chain) => crate::filter::resolve_attribute(
                                &event.fields,
                                chain,
                                spans,
                                attribute.as_str(),
                            ),
                            None => crate::filter::resolve_attribute(
                                &event.fields,
                                &empty_chain,
                                spans,
                                attribute.as_str(),
                            ),
                        };
                        match resolved {
                            Some(v) => v == *value,
                            None => false,
                        }
                    },
                    None => false,
                }
            },
        }
    }
}

/// An event filter lowered onto index windows.
pub enum IndexedEventFilter {
    Single(TsSlice, Option<NonIndexedEventFilter>),
    And(Vec<IndexedEventFilter>),
    Or(Vec<IndexedEventFilter>),
}

impl IndexedEventFilter {
    pub open spec fn wf(self) -> bool
        decreases self,
    {
        match self {
            IndexedEventFilter::Single(slice, _) => slice.wf(),
            IndexedEventFilter::And(fs) => fs@.len() >= 1 && (forall|i: int|
                0 <= i < fs@.len() ==> (#[trigger] fs@[i]).wf()),
            IndexedEventFilter::Or(fs) => forall|i: int|
                0 <= i < fs@.len() ==> (#[trigger] fs@[i]).wf(),
        }
    }

    /// Whether the plan can still yield a key: the key is in the leaf
    /// windows and passes the residuals, combined by the tree.
    pub open spec fn matchable(
        self,
        events: Map<Timestamp, Event>,
        spans: Map<SpanKey, Span>,
        anc: Map<Timestamp, Vec<SpanKey>>,
        k: Timestamp,
    ) -> bool
        decreases self,
    {
        match self {
            IndexedEventFilter::Single(slice, residual) => slice.has(k) && match residual {
                Some(res) => res.spec_matches(events, spans, anc, k),
                None => true,
            },
            IndexedEventFilter::And(fs) => forall|i: int|
                0 <= i < fs@.len() ==> (#[trigger] fs@[i]).matchable(events, spans, anc, k),
            IndexedEventFilter::Or(fs) => exists|i: int|
                0 <= i < fs@.len() && (#[trigger] fs@[i]).matchable(events, spans, anc, k),
        }
    }

    /// The number of nodes in the plan: the measure that recursion
    /// over a plan decreases, stable under window narrowing.
    pub open spec fn size(self) -> nat
        decreases self, 1int, 0int,
    {
        match self {
            IndexedEventFilter::Single(_, _) => 1,
            IndexedEventFilter::And(fs) => 1 + size_of_children(fs, fs@.len() as int),
            IndexedEventFilter::Or(fs) => 1 + size_of_children(fs, fs@.len() as int),
        }
    }
}

/// The summed size of the first `i` children.
pub open spec fn size_of_children(fs: Vec<IndexedEventFilter>, i: int) -> nat
    decreases fs, 0int, i,
    via size_of_children_decreases
{
    if i <= 0 || i > fs@.len() {
        0
    } else {
        size_of_children(fs, i - 1) + fs[i - 1].size()
    }
}

#[via_fn]
proof fn size_of_children_decreases(fs: Vec<IndexedEventFilter>, i: int) {
    if 0 < i <= fs@.len() {
        vstd::std_specs::vec::axiom_vec_index_decreases(fs, i - 1);
    }
}

/// A child weighs less than the whole list.
pub proof fn lemma_child_size_le(fs: Vec<IndexedEventFilter>, i: int, j: int)
    requires
        0 <= j < i <= fs@.len(),
    ensures
        fs[j].size() <= size_of_children(fs, i),
    decreases i,
{
    if j < i - 1 {
        lemma_child_size_le(fs, i - 1, j);
    }
}

/// Lists with pointwise equal sizes weigh the same.
pub proof fn lemma_size_of_children_congruent(
    fs1: Vec<IndexedEventFilter>,
    fs2: Vec<IndexedEventFilter>,
    i: int,
)
    requires
        fs1@.len() == fs2@.len(),
        forall|j: int| 0 <= j < i ==> (#[trigger] fs1[j]).size() == fs2[j].size(),
    ensures
        size_of_children(fs1, i) == size_of_children(fs2, i),
    decreases i,
{
    if i > 0 {
        lemma_size_of_children_congruent(fs1, fs2, i - 1);
    }
}

/// Walks one window upward from `entry` to the first key at or under
/// `bound` that passes the residual.
#[verifier::loop_isolation(false)]
fn search_leaf_asc(
    slice: &mut TsSlice,
    residual: &Option<NonIndexedEventFilter>,
    events: &HashMap<Timestamp, Event>,
    spans: &HashMap<SpanKey, Span>,
    ancestors: &HashMap<Timestamp, Vec<SpanKey>>,
    entry: Timestamp,
    bound: Timestamp,
) -> (r: Option<Timestamp>)
    requires
        old(slice).wf(),
    ensures
        final(slice).wf(),
        forall|k: Timestamp| #[trigger]
            IndexedEventFilter::Single(*final(slice), *residual).matchable(
                events@,
                spans@,
                ancestors@,
                k,
            ) ==> IndexedEventFilter::Single(*old(slice), *residual).matchable(
                events@,
                spans@,
                ancestors@,
                k,
            ),
        forall|k: Timestamp|
            k >= entry ==> ((#[trigger] IndexedEventFilter::Single(*final(slice), *residual).matchable(
                events@,
                spans@,
                ancestors@,
                k,
            )) == IndexedEventFilter::Single(*old(slice), *residual).matchable(
                events@,
                spans@,
                ancestors@,
                k,
            )),
        match r {
            Some(f) => {
                &&& entry <= f <= bound
                &&& IndexedEventFilter::Single(*old(slice), *residual).matchable(
                    events@,
                    spans@,
                    ancestors@,
                    f,
                )
                &&& forall|k: Timestamp|
                    entry <= k < f ==> !(#[trigger] IndexedEventFilter::Single(
                        *old(slice),
                        *residual,
                    ).matchable(events@, spans@, ancestors@, k))
            },
            None => forall|k: Timestamp|
                entry <= k <= bound ==> !(#[trigger] IndexedEventFilter::Single(
                    *old(slice),
                    *residual,
                ).matchable(events@, spans@, ancestors@, k)),
        },
{
    let ghost orig_slice = *old(slice);
    let ghost leaf = IndexedEventFilter::Single(orig_slice, *residual);
    let mut cursor = entry;
    loop
        invariant
            slice.wf(),
            cursor >= entry,
            forall|k: Timestamp| slice.has(k) ==> orig_slice.has(k),
            forall|k: Timestamp|
                k >= entry && orig_slice.has(k) && !(#[trigger] slice.has(k)) ==> k < cursor,
            forall|k: Timestamp|
                entry <= k < cursor ==> !(#[trigger] leaf.matchable(events@, spans@, ancestors@, k)),
        decreases bound + 1 - cursor,
    {
        let ghost pre = *slice;
        let found = match slice.advance_to(cursor) {
            Some(f) => f,
            None => {
                proof {
                    assert forall|k: Timestamp| entry <= k <= bound implies !(
                    #[trigger] leaf.matchable(events@, spans@, ancestors@, k)) by {
                        if k >= cursor && orig_slice.has(k) {
                            assert(pre.has(k));
                            assert(slice.has(k));
                        }
                    }
                    lemma_leaf_equiv(*slice, orig_slice, *residual, events@, spans@, ancestors@, entry, cursor, leaf);
                }
                return None;
            },
        };
        if found > bound {
            proof {
                assert forall|k: Timestamp| entry <= k <= bound implies !(#[trigger] leaf.matchable(
                    events@,
                    spans@,
                    ancestors@,
                    k,
                )) by {
                    if k >= cursor && orig_slice.has(k) {
                        assert(pre.has(k));
                        assert(slice.has(k));
                        assert(k >= found);
                    }
                }
                lemma_leaf_equiv(*slice, orig_slice, *residual, events@, spans@, ancestors@, entry, cursor, leaf);
            }
            return None;
        }
        let keep = match residual {
            Some(res) => res.matches(events, spans, ancestors, found),
            None => true,
        };
        if keep {
            proof {
                assert(orig_slice.has(found)) by {
                    assert(slice.has(found));
                }
                assert(leaf.matchable(events@, spans@, ancestors@, found));
                assert forall|k: Timestamp| entry <= k < found implies !(#[trigger] leaf.matchable(
                    events@,
                    spans@,
                    ancestors@,
                    k,
                )) by {
                    if k >= cursor && orig_slice.has(k) {
                        assert(pre.has(k));
                        assert(slice.has(k));
                    }
                }
                lemma_leaf_equiv(*slice, orig_slice, *residual, events@, spans@, ancestors@, entry, cursor, leaf);
            }
            return Some(found);
        }
        if found == u64::MAX {
            proof {
                assert forall|k: Timestamp| entry <= k <= bound implies !(#[trigger] leaf.matchable(
                    events@,
                    spans@,
                    ancestors@,
                    k,
                )) by {
                    if k >= cursor && orig_slice.has(k) {
                        assert(pre.has(k));
                        assert(slice.has(k));
                        assert(k >= found);
                        assert(k == found);
                    }
                }
                lemma_leaf_equiv(*slice, orig_slice, *residual, events@, spans@, ancestors@, entry, cursor, leaf);
            }
            return None;
        }
        proof {
            assert forall|k: Timestamp| entry <= k < found + 1 implies !(#[trigger] leaf.matchable(
                events@,
                spans@,
                ancestors@,
                k,
            )) by {
                if k >= cursor && orig_slice.has(k) {
                    assert(pre.has(k));
                    assert(slice.has(k));
                    assert(k >= found);
                }
            }
        }
        cursor = found + 1;
    }
}

/// Connects a narrowed window back to the original leaf: beyond
/// `entry` the two leaves can yield the same keys, and the narrowed one
/// never yields a new key.
proof fn lemma_leaf_equiv(
    cur: TsSlice,
    orig_slice: TsSlice,
    residual: Option<NonIndexedEventFilter>,
    events: Map<Timestamp, Event>,
    spans: Map<SpanKey, Span>,
    anc: Map<Timestamp, Vec<SpanKey>>,
    entry: Timestamp,
    cursor: Timestamp,
    leaf: IndexedEventFilter,
)
    requires
        leaf == IndexedEventFilter::Single(orig_slice, residual),
        cursor >= entry,
        forall|k: Timestamp| cur.has(k) ==> orig_slice.has(k),
        forall|k: Timestamp|
            k >= entry && orig_slice.has(k) && !(#[trigger] cur.has(k)) ==> k < cursor,
        forall|k: Timestamp|
            entry <= k < cursor ==> !(#[trigger] leaf.matchable(events, spans, anc, k)),
    ensures
        forall|k: Timestamp| #[trigger]
            IndexedEventFilter::Single(cur, residual).matchable(events, spans, anc, k)
                ==> leaf.matchable(events, spans, anc, k),
        forall|k: Timestamp|
            k >= entry ==> ((#[trigger] IndexedEventFilter::Single(cur, residual).matchable(
                events,
                spans,
                anc,
                k,
            )) == leaf.matchable(events, spans, anc, k)),
{
    assert forall|k: Timestamp| #[trigger]
        IndexedEventFilter::Single(cur, residual).matchable(events, spans, anc, k) implies
        leaf.matchable(events, spans, anc, k) by {
        assert(cur.has(k));
    }
    assert forall|k: Timestamp| k >= entry implies ((#[trigger] IndexedEventFilter::Single(
        cur,
        residual,
    ).matchable(events, spans, anc, k)) == leaf.matchable(events, spans, anc, k)) by {
        if leaf.matchable(events, spans, anc, k) {
            assert(orig_slice.has(k));
            assert(k >= cursor || k < cursor);
            if k < cursor {
                assert(!leaf.matchable(events, spans, anc, k));
            } else {
                assert(cur.has(k));
            }
        }
    }
}

/// As `search_leaf_asc`, walking downward.
#[verifier::loop_isolation(false)]
fn search_leaf_desc(
    slice: &mut TsSlice,
    residual: &Option<NonIndexedEventFilter>,
    events: &HashMap<Timestamp, Event>,
    spans: &HashMap<SpanKey, Span>,
    ancestors: &HashMap<Timestamp, Vec<SpanKey>>,
    entry: Timestamp,
    bound: Timestamp,
) -> (r: Option<Timestamp>)
    requires
        old(slice).wf(),
    ensures
        final(slice).wf(),
        forall|k: Timestamp| #[trigger]
            IndexedEventFilter::Single(*final(slice), *residual).matchable(
                events@,
                spans@,
                ancestors@,
                k,
            ) ==> IndexedEventFilter::Single(*old(slice), *residual).matchable(
                events@,
                spans@,
                ancestors@,
                k,
            ),
        forall|k: Timestamp|
            k <= entry ==> ((#[trigger] IndexedEventFilter::Single(*final(slice), *residual).matchable(
                events@,
                spans@,
                ancestors@,
                k,
            )) == IndexedEventFilter::Single(*old(slice), *residual).matchable(
                events@,
                spans@,
                ancestors@,
                k,
            )),
        match r {
            Some(f) => {
                &&& bound <= f <= entry
                &&& IndexedEventFilter::Single(*old(slice), *residual).matchable(
                    events@,
                    spans@,
                    ancestors@,
                    f,
                )
                &&& forall|k: Timestamp|
                    f < k <= entry ==> !(#[trigger] IndexedEventFilter::Single(
                        *old(slice),
                        *residual,
                    ).matchable(events@, spans@, ancestors@, k))
            },
            None => forall|k: Timestamp|
                bound <= k <= entry ==> !(#[trigger] IndexedEventFilter::Single(
                    *old(slice),
                    *residual,
                ).matchable(events@, spans@, ancestors@, k)),
        },
{
    let ghost orig_slice = *old(slice);
    let ghost leaf = IndexedEventFilter::Single(orig_slice, *residual);
    let mut cursor = entry;
    loop
        invariant
            slice.wf(),
            cursor <= entry,
            forall|k: Timestamp| slice.has(k) ==> orig_slice.has(k),
            forall|k: Timestamp|
                k <= entry && orig_slice.has(k) && !(#[trigger] slice.has(k)) ==> k > cursor,
            forall|k: Timestamp|
                cursor < k <= entry ==> !(#[trigger] leaf.matchable(events@, spans@, ancestors@, k)),
        decreases cursor,
    {
        let ghost pre = *slice;
        let found = match slice.retreat_to(cursor) {
            Some(f) => f,
            None => {
                proof {
                    assert forall|k: Timestamp| bound <= k <= entry implies !(
                    #[trigger] leaf.matchable(events@, spans@, ancestors@, k)) by {
                        if k <= cursor && orig_slice.has(k) {
                            assert(pre.has(k));
                            assert(slice.has(k));
                        }
                    }
                    lemma_leaf_equiv_desc(*slice, orig_slice, *residual, events@, spans@, ancestors@, entry, cursor, leaf);
                }
                return None;
            },
        };
        if found < bound {
            proof {
                assert forall|k: Timestamp| bound <= k <= entry implies !(#[trigger] leaf.matchable(
                    events@,
                    spans@,
                    ancestors@,
                    k,
                )) by {
                    if k <= cursor && orig_slice.has(k) {
                        assert(pre.has(k));
                        assert(slice.has(k));
                        assert(k <= found);
                    }
                }
                lemma_leaf_equiv_desc(*slice, orig_slice, *residual, events@, spans@, ancestors@, entry, cursor, leaf);
            }
            return None;
        }
        let keep = match residual {
            Some(res) => res.matches(events, spans, ancestors, found),
            None => true,
        };
        if keep {
            proof {
                assert(orig_slice.has(found)) by {
                    assert(slice.has(found));
                }
                assert(leaf.matchable(events@, spans@, ancestors@, found));
                assert forall|k: Timestamp| found < k <= entry implies !(#[trigger] leaf.matchable(
                    events@,
                    spans@,
                    ancestors@,
                    k,
                )) by {
                    if k <= cursor && orig_slice.has(k) {
                        assert(pre.has(k));
                        assert(slice.has(k));
                    }
                }
                lemma_leaf_equiv_desc(*slice, orig_slice, *residual, events@, spans@, ancestors@, entry, cursor, leaf);
            }
            return Some(found);
        }
        if found == 0 {
            proof {
                assert forall|k: Timestamp| bound <= k <= entry implies !(#[trigger] leaf.matchable(
                    events@,
                    spans@,
                    ancestors@,
                    k,
                )) by {
                    if k <= cursor && orig_slice.has(k) {
                        assert(pre.has(k));
                        assert(slice.has(k));
                        assert(k <= found);
                    }
                }
                lemma_leaf_equiv_desc(*slice, orig_slice, *residual, events@, spans@, ancestors@, entry, cursor, leaf);
            }
            return None;
        }
        proof {
            assert forall|k: Timestamp| found - 1 < k <= entry implies !(#[trigger] leaf.matchable(
                events@,
                spans@,
                ancestors@,
                k,
            )) by {
                if k <= cursor && orig_slice.has(k) {
                    assert(pre.has(k));
                    assert(slice.has(k));
                    assert(k <= found);
                }
            }
        }
        cursor = found - 1;
    }
}

/// As `lemma_leaf_equiv`, for the downward walk.
proof fn lemma_leaf_equiv_desc(
    cur: TsSlice,
    orig_slice: TsSlice,
    residual: Option<NonIndexedEventFilter>,
    events: Map<Timestamp, Event>,
    spans: Map<SpanKey, Span>,
    anc: Map<Timestamp, Vec<SpanKey>>,
    entry: Timestamp,
    cursor: Timestamp,
    leaf: IndexedEventFilter,
)
    requires
        leaf == IndexedEventFilter::Single(orig_slice, residual),
        cursor <= entry,
        forall|k: Timestamp| cur.has(k) ==> orig_slice.has(k),
        forall|k: Timestamp|
            k <= entry && orig_slice.has(k) && !(#[trigger] cur.has(k)) ==> k > cursor,
        forall|k: Timestamp|
            cursor < k <= entry ==> !(#[trigger] leaf.matchable(events, spans, anc, k)),
    ensures
        forall|k: Timestamp| #[trigger]
            IndexedEventFilter::Single(cur, residual).matchable(events, spans, anc, k)
                ==> leaf.matchable(events, spans, anc, k),
        forall|k: Timestamp|
            k <= entry ==> ((#[trigger] IndexedEventFilter::Single(cur, residual).matchable(
                events,
                spans,
                anc,
                k,
            )) == leaf.matchable(events, spans, anc, k)),
{
    assert forall|k: Timestamp| #[trigger]
        IndexedEventFilter::Single(cur, residual).matchable(events, spans, anc, k) implies
        leaf.matchable(events, spans, anc, k) by {
        assert(cur.has(k));
    }
    assert forall|k: Timestamp| k <= entry implies ((#[trigger] IndexedEventFilter::Single(
        cur,
        residual,
    ).matchable(events, spans, anc, k)) == leaf.matchable(events, spans, anc, k)) by {
        if leaf.matchable(events, spans, anc, k) {
            assert(orig_slice.has(k));
            if k > cursor {
                assert(!leaf.matchable(events, spans, anc, k));
            } else {
                assert(cur.has(k));
            }
        }
    }
}

impl IndexedEventFilter {
    /// Searches for the first key from `entry` towards `bound`
    /// (inclusive on both sides) that the plan can yield, narrowing the
    /// leaf windows as it goes: what the plan can yield from `entry`
    /// onward is unchanged, and nothing new ever becomes reachable.
    #[verifier::loop_isolation(false)]
    #[verifier::rlimit(100)]
    pub fn search(
        &mut self,
        events: &HashMap<Timestamp, Event>,
        spans: &HashMap<SpanKey, Span>,
        ancestors: &HashMap<Timestamp, Vec<SpanKey>>,
        entry: Timestamp,
        order: Order,
        bound: Timestamp,
    ) -> (r: Option<Timestamp>)
        requires
            old(self).wf(),
        ensures
            final(self).wf(),
            final(self).size() == old(self).size(),
            forall|k: Timestamp| #[trigger]
                final(self).matchable(events@, spans@, ancestors@, k) ==> old(self).matchable(
                    events@,
                    spans@,
                    ancestors@,
                    k,
                ),
            forall|k: Timestamp|
                (if order == Order::Asc {
                    k >= entry
                } else {
                    k <= entry
                }) ==> ((#[trigger] final(self).matchable(events@, spans@, ancestors@, k)) == old(
                    self,
                ).matchable(events@, spans@, ancestors@, k)),
            match r {
                Some(f) => {
                    &&& old(self).matchable(events@, spans@, ancestors@, f)
                    &&& if order == Order::Asc {
                        entry <= f <= bound && (forall|k: Timestamp|
                            entry <= k < f ==> !(#[trigger] old(self).matchable(
                                events@,
                                spans@,
                                ancestors@,
                                k,
                            )))
                    } else {
                        bound <= f <= entry && (forall|k: Timestamp|
                            f < k <= entry ==> !(#[trigger] old(self).matchable(
                                events@,
                                spans@,
                                ancestors@,
                                k,
                            )))
                    }
                },
                None => if order == Order::Asc {
                    forall|k: Timestamp|
                        entry <= k <= bound ==> !(#[trigger] old(self).matchable(
                            events@,
                            spans@,
                            ancestors@,
                            k,
                        ))
                } else {
                    forall|k: Timestamp|
                        bound <= k <= entry ==> !(#[trigger] old(self).matchable(
                            events@,
                            spans@,
                            ancestors@,
                            k,
                        ))
                },
            },
        decreases old(self).size(),
    {
        let ghost orig = *old(self);
        match self {
            IndexedEventFilter::Single(slice, residual) => {
                let r = match order {
                    Order::Asc => search_leaf_asc(slice, residual, events, spans, ancestors, entry, bound),
                    Order::Desc => search_leaf_desc(slice, residual, events, spans, ancestors, entry, bound),
                };
                proof {
                    assert(IndexedEventFilter::Single(*slice, *residual).size() == 1);
                    assert(orig.size() == 1);
                }
                r
            },
            IndexedEventFilter::And(filters) => {
                let ghost orig_vec = *filters;
                let ghost orig_children = filters@;
                proof {
                    assert(orig == IndexedEventFilter::And(orig_vec));
                }
                let n = filters.len();
                let mut current = entry;
                loop
                    invariant
                        n == filters@.len(),
                        n >= 1,
                        forall|j: int| 0 <= j < n ==> (#[trigger] filters@[j]).wf(),
                        forall|j: int|
                            0 <= j < n ==> (#[trigger] filters@[j]).size() == orig_children[j].size(),
                        if order == Order::Asc {
                            current >= entry
                        } else {
                            current <= entry
                        },
                        forall|j: int, k: Timestamp|
                            0 <= j < n ==> ((#[trigger] filters@[j].matchable(
                                events@,
                                spans@,
                                ancestors@,
                                k,
                            )) ==> orig_children[j].matchable(events@, spans@, ancestors@, k)),
                        forall|j: int, k: Timestamp|
                            0 <= j < n && (if order == Order::Asc {
                                k >= current
                            } else {
                                k <= current
                            }) ==> ((#[trigger] filters@[j].matchable(
                                events@,
                                spans@,
                                ancestors@,
                                k,
                            )) == orig_children[j].matchable(events@, spans@, ancestors@, k)),
                        forall|k: Timestamp|
                            (if order == Order::Asc {
                                entry <= k < current
                            } else {
                                current < k <= entry
                            }) ==> !(#[trigger] orig.matchable(events@, spans@, ancestors@, k)),
                    decreases (if order == Order::Asc {
                        bound + 1 - current
                    } else {
                        current + 1 - bound
                    }),
                {
                    let ghost loop_children = filters@;
                    let ghost pre_current = current;
                    proof {
                        assert(decreases_to!(orig_vec => orig_vec[0]));
                        lemma_child_size_le(orig_vec, n as int, 0);
                    }
                    let first = filters[0].search(events, spans, ancestors, current, order, bound);
                    current = match first {
                        Some(c) => c,
                        None => {
                            proof {
                                assert forall|k: Timestamp|
                                    (if order == Order::Asc {
                                        entry <= k <= bound
                                    } else {
                                        bound <= k <= entry
                                    }) implies !(#[trigger] orig.matchable(
                                    events@,
                                    spans@,
                                    ancestors@,
                                    k,
                                )) by {
                                    let in_gap = if order == Order::Asc {
                                        pre_current <= k
                                    } else {
                                        k <= pre_current
                                    };
                                    if in_gap {
                                        if orig.matchable(events@, spans@, ancestors@, k) {
                                            lemma_ievent_and_elim(
                                                orig_vec,
                                                events@,
                                                spans@,
                                                ancestors@,
                                                k,
                                                0,
                                            );
                                            assert(loop_children[0].matchable(
                                                events@,
                                                spans@,
                                                ancestors@,
                                                k,
                                            ));
                                        }
                                    }
                                }
                                lemma_ievent_and_exit(
                                    *filters,
                                    orig_vec,
                                    events@,
                                    spans@,
                                    ancestors@,
                                    entry,
                                    pre_current,
                                    order,
                                );
                            }
                            return None;
                        },
                    };
                    proof {
                        assert(loop_children[0].matchable(events@, spans@, ancestors@, current));
                        assert forall|k: Timestamp|
                            (if order == Order::Asc {
                                entry <= k < current
                            } else {
                                current < k <= entry
                            }) implies !(#[trigger] orig.matchable(events@, spans@, ancestors@, k)) by {
                            let in_gap = if order == Order::Asc {
                                pre_current <= k
                            } else {
                                k <= pre_current
                            };
                            if in_gap {
                                if orig.matchable(events@, spans@, ancestors@, k) {
                                    lemma_ievent_and_elim(
                                        orig_vec,
                                        events@,
                                        spans@,
                                        ancestors@,
                                        k,
                                        0,
                                    );
                                    assert(loop_children[0].matchable(events@, spans@, ancestors@, k));
                                }
                            }
                        }
                    }
                    let mut all_agree = true;
                    let mut j: usize = 1;
                    let ghost agreed_current = current;
                    while j < n && all_agree
                        invariant
                            n == filters@.len(),
                            n >= 1,
                            1 <= j <= n,
                            if order == Order::Asc {
                                pre_current <= agreed_current <= bound
                            } else {
                                bound <= agreed_current <= pre_current
                            },
                            all_agree ==> current == agreed_current,
                            !all_agree ==> current == (if order == Order::Asc {
                                agreed_current + 1
                            } else {
                                agreed_current - 1
                            }),
                            forall|jj: int| 0 <= jj < n ==> (#[trigger] filters@[jj]).wf(),
                            forall|jj: int|
                                0 <= jj < n ==> (#[trigger] filters@[jj]).size()
                                    == orig_children[jj].size(),
                            if order == Order::Asc {
                                entry <= current
                            } else {
                                current <= entry
                            },
                            all_agree ==> (if order == Order::Asc {
                                current <= bound
                            } else {
                                bound <= current
                            }),
                            forall|jj: int, k: Timestamp|
                                0 <= jj < n ==> ((#[trigger] filters@[jj].matchable(
                                    events@,
                                    spans@,
                                    ancestors@,
                                    k,
                                )) ==> orig_children[jj].matchable(events@, spans@, ancestors@, k)),
                            forall|jj: int, k: Timestamp|
                                0 <= jj < n && (if order == Order::Asc {
                                    k >= current
                                } else {
                                    k <= current
                                }) ==> ((#[trigger] filters@[jj].matchable(
                                    events@,
                                    spans@,
                                    ancestors@,
                                    k,
                                )) == orig_children[jj].matchable(events@, spans@, ancestors@, k)),
                            forall|k: Timestamp|
                                (if order == Order::Asc {
                                    entry <= k < current
                                } else {
                                    current < k <= entry
                                }) ==> !(#[trigger] orig.matchable(events@, spans@, ancestors@, k)),
                            all_agree ==> forall|jj: int|
                                0 <= jj < j ==> (#[trigger] orig_children[jj]).matchable(
                                    events@,
                                    spans@,
                                    ancestors@,
                                    current,
                                ),
                        decreases n - j,
                    {
                        proof {
                            lemma_child_size_le(orig_vec, n as int, j as int);
                        }
                        let ghost pre_filters = filters@;
                        let sub = filters[j].search(events, spans, ancestors, current, order, current);
                        match sub {
                            Some(f) => {
                                proof {
                                    assert(if order == Order::Asc {
                                        current <= f <= current
                                    } else {
                                        current <= f <= current
                                    });
                                    assert(f == current);
                                    assert(pre_filters[j as int].matchable(
                                        events@,
                                        spans@,
                                        ancestors@,
                                        f,
                                    ));
                                    assert(orig_children[j as int].matchable(
                                        events@,
                                        spans@,
                                        ancestors@,
                                        current,
                                    ));
                                }
                            },
                            None => {
                                proof {
                                    assert(!pre_filters[j as int].matchable(
                                        events@,
                                        spans@,
                                        ancestors@,
                                        current,
                                    ));
                                    assert forall|k: Timestamp| k == current implies !(
                                    #[trigger] orig.matchable(events@, spans@, ancestors@, k)) by {
                                        if orig.matchable(events@, spans@, ancestors@, k) {
                                            lemma_ievent_and_elim(
                                                orig_vec,
                                                events@,
                                                spans@,
                                                ancestors@,
                                                k,
                                                j as int,
                                            );
                                            assert(orig_children[j as int].matchable(
                                                events@,
                                                spans@,
                                                ancestors@,
                                                k,
                                            ));
                                        }
                                    }
                                }
                                if order == Order::Asc {
                                    if current == u64::MAX {
                                        proof {
                                            lemma_ievent_and_exit(
                                                *filters,
                                                orig_vec,
                                                events@,
                                                spans@,
                                                ancestors@,
                                                entry,
                                                current,
                                                order,
                                            );
                                        }
                                        return None;
                                    }
                                    current = current + 1;
                                } else {
                                    if current == 0 {
                                        proof {
                                            lemma_ievent_and_exit(
                                                *filters,
                                                orig_vec,
                                                events@,
                                                spans@,
                                                ancestors@,
                                                entry,
                                                current,
                                                order,
                                            );
                                        }
                                        return None;
                                    }
                                    current = current - 1;
                                }
                                all_agree = false;
                            },
                        }
                        j = j + 1;
                    }
                    if all_agree {
                        proof {
                            assert forall|jj: int| 0 <= jj < n implies (
                            #[trigger] orig_children[jj]).matchable(
                                events@,
                                spans@,
                                ancestors@,
                                current,
                            ) by {}
                            lemma_ievent_and_intro(orig_vec, events@, spans@, ancestors@, current);
                            lemma_ievent_and_exit(
                                *filters,
                                orig_vec,
                                events@,
                                spans@,
                                ancestors@,
                                entry,
                                current,
                                order,
                            );
                        }
                        return Some(current);
                    }
                }
            },
            IndexedEventFilter::Or(filters) => {
                let ghost orig_vec = *filters;
                let ghost orig_children = filters@;
                proof {
                    assert(orig == IndexedEventFilter::Or(orig_vec));
                }
                let n = filters.len();
                let mut best: Option<Timestamp> = None;
                let mut j: usize = 0;
                while j < n
                    invariant
                        n == filters@.len(),
                        0 <= j <= n,
                        forall|jj: int| 0 <= jj < n ==> (#[trigger] filters@[jj]).wf(),
                        forall|jj: int|
                            0 <= jj < n ==> (#[trigger] filters@[jj]).size()
                                == orig_children[jj].size(),
                        forall|jj: int, k: Timestamp|
                            0 <= jj < n ==> ((#[trigger] filters@[jj].matchable(
                                events@,
                                spans@,
                                ancestors@,
                                k,
                            )) ==> orig_children[jj].matchable(events@, spans@, ancestors@, k)),
                        forall|jj: int, k: Timestamp|
                            0 <= jj < n && (if order == Order::Asc {
                                k >= entry
                            } else {
                                k <= entry
                            }) ==> ((#[trigger] filters@[jj].matchable(
                                events@,
                                spans@,
                                ancestors@,
                                k,
                            )) == orig_children[jj].matchable(events@, spans@, ancestors@, k)),
                        match best {
                            Some(b) => {
                                &&& if order == Order::Asc {
                                    entry <= b <= bound
                                } else {
                                    bound <= b <= entry
                                }
                                &&& exists|jj: int|
                                    0 <= jj < j && (#[trigger] orig_children[jj]).matchable(
                                        events@,
                                        spans@,
                                        ancestors@,
                                        b,
                                    )
                                &&& forall|jj: int, k: Timestamp|
                                    0 <= jj < j && (if order == Order::Asc {
                                        entry <= k < b
                                    } else {
                                        b < k <= entry
                                    }) ==> !(#[trigger] orig_children[jj].matchable(
                                        events@,
                                        spans@,
                                        ancestors@,
                                        k,
                                    ))
                            },
                            None => forall|jj: int, k: Timestamp|
                                0 <= jj < j && (if order == Order::Asc {
                                    entry <= k <= bound
                                } else {
                                    bound <= k <= entry
                                }) ==> !(#[trigger] orig_children[jj].matchable(
                                    events@,
                                    spans@,
                                    ancestors@,
                                    k,
                                )),
                        },
                    decreases n - j,
                {
                    let b = match best {
                        Some(bb) => bb,
                        None => bound,
                    };
                    proof {
                        lemma_child_size_le(orig_vec, n as int, j as int);
                    }
                    let ghost pre_filters = filters@;
                    let ghost pre_best = best;
                    let sub = filters[j].search(events, spans, ancestors, entry, order, b);
                    match sub {
                        Some(f) => {
                            proof {
                                assert(pre_filters[j as int].matchable(
                                    events@,
                                    spans@,
                                    ancestors@,
                                    f,
                                ));
                                assert(orig_children[j as int].matchable(
                                    events@,
                                    spans@,
                                    ancestors@,
                                    f,
                                ));
                                assert forall|k: Timestamp|
                                    (if order == Order::Asc {
                                        entry <= k < f
                                    } else {
                                        f < k <= entry
                                    }) implies !(#[trigger] orig_children[j as int].matchable(
                                    events@,
                                    spans@,
                                    ancestors@,
                                    k,
                                )) by {
                                    assert(!pre_filters[j as int].matchable(
                                        events@,
                                        spans@,
                                        ancestors@,
                                        k,
                                    ));
                                }
                            }
                            best = Some(f);
                        },
                        None => {
                            proof {
                                assert forall|k: Timestamp|
                                    (if order == Order::Asc {
                                        entry <= k <= b
                                    } else {
                                        b <= k <= entry
                                    }) implies !(#[trigger] orig_children[j as int].matchable(
                                    events@,
                                    spans@,
                                    ancestors@,
                                    k,
                                )) by {
                                    assert(!pre_filters[j as int].matchable(
                                        events@,
                                        spans@,
                                        ancestors@,
                                        k,
                                    ));
                                }
                            }
                        },
                    }
                    j = j + 1;
                }
                proof {
                    match best {
                        Some(b) => {
                            let jj = choose|jj: int|
                                0 <= jj < n && (#[trigger] orig_children[jj]).matchable(
                                    events@,
                                    spans@,
                                    ancestors@,
                                    b,
                                );
                            lemma_ievent_or_intro(orig_vec, events@, spans@, ancestors@, b, jj);
                            assert forall|k: Timestamp|
                                (if order == Order::Asc {
                                    entry <= k < b
                                } else {
                                    b < k <= entry
                                }) implies !(#[trigger] orig.matchable(
                                events@,
                                spans@,
                                ancestors@,
                                k,
                            )) by {
                                if orig.matchable(events@, spans@, ancestors@, k) {
                                    let w = lemma_ievent_or_elim(
                                        orig_vec,
                                        events@,
                                        spans@,
                                        ancestors@,
                                        k,
                                    );
                                }
                            }
                        },
                        None => {
                            assert forall|k: Timestamp|
                                (if order == Order::Asc {
                                    entry <= k <= bound
                                } else {
                                    bound <= k <= entry
                                }) implies !(#[trigger] orig.matchable(
                                events@,
                                spans@,
                                ancestors@,
                                k,
                            )) by {
                                if orig.matchable(events@, spans@, ancestors@, k) {
                                    let w = lemma_ievent_or_elim(
                                        orig_vec,
                                        events@,
                                        spans@,
                                        ancestors@,
                                        k,
                                    );
                                }
                            }
                        },
                    }
                    lemma_ievent_or_exit(
                        *filters,
                        orig_vec,
                        events@,
                        spans@,
                        ancestors@,
                        entry,
                        order,
                    );
                }
                best
            },
        }
    }
}


/// At the end of a conjunction search: the narrowed conjunction still
/// yields only keys the original could, agrees with it from `entry`
/// onward, and keeps its shape.
proof fn lemma_ievent_and_exit(
    cur: Vec<IndexedEventFilter>,
    orig_vec: Vec<IndexedEventFilter>,
    events: Map<Timestamp, Event>,
    spans: Map<SpanKey, Span>,
    anc: Map<Timestamp, Vec<SpanKey>>,
    entry: Timestamp,
    current: Timestamp,
    order: Order,
)
    requires
        cur@.len() == orig_vec@.len(),
        cur@.len() >= 1,
        forall|j: int| 0 <= j < cur@.len() ==> (#[trigger] cur@[j]).wf(),
        forall|j: int| 0 <= j < cur@.len() ==> (#[trigger] cur@[j]).size() == orig_vec@[j].size(),
        forall|j: int, k: Timestamp|
            0 <= j < cur@.len() ==> ((#[trigger] cur@[j].matchable(events, spans, anc, k))
                ==> orig_vec@[j].matchable(events, spans, anc, k)),
        forall|j: int, k: Timestamp|
            0 <= j < cur@.len() && (if order == Order::Asc {
                k >= current
            } else {
                k <= current
            }) ==> ((#[trigger] cur@[j].matchable(events, spans, anc, k)) == orig_vec@[j].matchable(
                events,
                spans,
                anc,
                k,
            )),
        forall|k: Timestamp|
            (if order == Order::Asc {
                entry <= k < current
            } else {
                current < k <= entry
            }) ==> !(#[trigger] IndexedEventFilter::And(orig_vec).matchable(events, spans, anc, k)),
        if order == Order::Asc {
            current >= entry
        } else {
            current <= entry
        },
    ensures
        IndexedEventFilter::And(cur).wf(),
        IndexedEventFilter::And(cur).size() == IndexedEventFilter::And(orig_vec).size(),
        forall|k: Timestamp| #[trigger]
            IndexedEventFilter::And(cur).matchable(events, spans, anc, k)
                ==> IndexedEventFilter::And(orig_vec).matchable(events, spans, anc, k),
        forall|k: Timestamp|
            (if order == Order::Asc {
                k >= entry
            } else {
                k <= entry
            }) ==> ((#[trigger] IndexedEventFilter::And(cur).matchable(events, spans, anc, k))
                == IndexedEventFilter::And(orig_vec).matchable(events, spans, anc, k)),
{
    lemma_size_of_children_congruent(cur, orig_vec, cur@.len() as int);
    assert forall|k: Timestamp| #[trigger]
        IndexedEventFilter::And(cur).matchable(events, spans, anc, k) implies
        IndexedEventFilter::And(orig_vec).matchable(events, spans, anc, k) by {
        assert forall|j: int| 0 <= j < orig_vec@.len() implies (
        #[trigger] orig_vec@[j]).matchable(events, spans, anc, k) by {
            lemma_ievent_and_elim(cur, events, spans, anc, k, j);
        }
        lemma_ievent_and_intro(orig_vec, events, spans, anc, k);
    }
    assert forall|k: Timestamp|
        (if order == Order::Asc {
            k >= entry
        } else {
            k <= entry
        }) implies ((#[trigger] IndexedEventFilter::And(cur).matchable(events, spans, anc, k))
        == IndexedEventFilter::And(orig_vec).matchable(events, spans, anc, k)) by {
        let in_gap = if order == Order::Asc {
            entry <= k < current
        } else {
            current < k <= entry
        };
        if IndexedEventFilter::And(orig_vec).matchable(events, spans, anc, k) {
            assert(!in_gap);
            assert forall|j: int| 0 <= j < cur@.len() implies (#[trigger] cur@[j]).matchable(
                events,
                spans,
                anc,
                k,
            ) by {
                lemma_ievent_and_elim(orig_vec, events, spans, anc, k, j);
            }
            lemma_ievent_and_intro(cur, events, spans, anc, k);
        }
    }
}

/// As `lemma_ievent_and_exit`, for a disjunction searched once per
/// child from `entry`.
proof fn lemma_ievent_or_exit(
    cur: Vec<IndexedEventFilter>,
    orig_vec: Vec<IndexedEventFilter>,
    events: Map<Timestamp, Event>,
    spans: Map<SpanKey, Span>,
    anc: Map<Timestamp, Vec<SpanKey>>,
    entry: Timestamp,
    order: Order,
)
    requires
        cur@.len() == orig_vec@.len(),
        forall|j: int| 0 <= j < cur@.len() ==> (#[trigger] cur@[j]).wf(),
        forall|j: int| 0 <= j < cur@.len() ==> (#[trigger] cur@[j]).size() == orig_vec@[j].size(),
        forall|j: int, k: Timestamp|
            0 <= j < cur@.len() ==> ((#[trigger] cur@[j].matchable(events, spans, anc, k))
                ==> orig_vec@[j].matchable(events, spans, anc, k)),
        forall|j: int, k: Timestamp|
            0 <= j < cur@.len() && (if order == Order::Asc {
                k >= entry
            } else {
                k <= entry
            }) ==> ((#[trigger] cur@[j].matchable(events, spans, anc, k)) == orig_vec@[j].matchable(
                events,
                spans,
                anc,
                k,
            )),
    ensures
        IndexedEventFilter::Or(cur).wf(),
        IndexedEventFilter::Or(cur).size() == IndexedEventFilter::Or(orig_vec).size(),
        forall|k: Timestamp| #[trigger]
            IndexedEventFilter::Or(cur).matchable(events, spans, anc, k)
                ==> IndexedEventFilter::Or(orig_vec).matchable(events, spans, anc, k),
        forall|k: Timestamp|
            (if order == Order::Asc {
                k >= entry
            } else {
                k <= entry
            }) ==> ((#[trigger] IndexedEventFilter::Or(cur).matchable(events, spans, anc, k))
                == IndexedEventFilter::Or(orig_vec).matchable(events, spans, anc, k)),
{
    lemma_size_of_children_congruent(cur, orig_vec, cur@.len() as int);
    assert forall|k: Timestamp| #[trigger]
        IndexedEventFilter::Or(cur).matchable(events, spans, anc, k) implies
        IndexedEventFilter::Or(orig_vec).matchable(events, spans, anc, k) by {
        let j = lemma_ievent_or_elim(cur, events, spans, anc, k);
        lemma_ievent_or_intro(orig_vec, events, spans, anc, k, j);
    }
    assert forall|k: Timestamp|
        (if order == Order::Asc {
            k >= entry
        } else {
            k <= entry
        }) implies ((#[trigger] IndexedEventFilter::Or(cur).matchable(events, spans, anc, k))
        == IndexedEventFilter::Or(orig_vec).matchable(events, spans, anc, k)) by {
        if IndexedEventFilter::Or(orig_vec).matchable(events, spans, anc, k) {
            let j = lemma_ievent_or_elim(orig_vec, events, spans, anc, k);
            lemma_ievent_or_intro(cur, events, spans, anc, k, j);
        }
    }
}

/// Each conjunct of the plan can yield any key the conjunction can.
pub proof fn lemma_ievent_and_elim(
    v: Vec<IndexedEventFilter>,
    events: Map<Timestamp, Event>,
    spans: Map<SpanKey, Span>,
    anc: Map<Timestamp, Vec<SpanKey>>,
    k: Timestamp,
    j: int,
)
    requires
        IndexedEventFilter::And(v).matchable(events, spans, anc, k),
        0 <= j < v@.len(),
    ensures
        v@[j].matchable(events, spans, anc, k),
{
    let f = IndexedEventFilter::And(v);
    assert(f->And_0 == v);
    assert(f->And_0@[j].matchable(events, spans, anc, k));
}

/// A key every conjunct can yield, the conjunction can yield.
pub proof fn lemma_ievent_and_intro(
    v: Vec<IndexedEventFilter>,
    events: Map<Timestamp, Event>,
    spans: Map<SpanKey, Span>,
    anc: Map<Timestamp, Vec<SpanKey>>,
    k: Timestamp,
)
    requires
        forall|i: int| 0 <= i < v@.len() ==> (#[trigger] v@[i]).matchable(events, spans, anc, k),
    ensures
        IndexedEventFilter::And(v).matchable(events, spans, anc, k),
{
}

/// A key a disjunction can yield, some disjunct can yield.
pub proof fn lemma_ievent_or_elim(
    v: Vec<IndexedEventFilter>,
    events: Map<Timestamp, Event>,
    spans: Map<SpanKey, Span>,
    anc: Map<Timestamp, Vec<SpanKey>>,
    k: Timestamp,
) -> (j: int)
    requires
        IndexedEventFilter::Or(v).matchable(events, spans, anc, k),
    ensures
        0 <= j < v@.len(),
        v@[j].matchable(events, spans, anc, k),
{
    let f = IndexedEventFilter::Or(v);
    assert(f->Or_0 == v);
    assert(exists|i: int|
        0 <= i < f->Or_0@.len() && (#[trigger] f->Or_0@[i]).matchable(events, spans, anc, k));
    let j = choose|i: int|
        0 <= i < v@.len() && (#[trigger] v@[i]).matchable(events, spans, anc, k);
    j
}

/// A key some disjunct can yield, the disjunction can yield.
pub proof fn lemma_ievent_or_intro(
    v: Vec<IndexedEventFilter>,
    events: Map<Timestamp, Event>,
    spans: Map<SpanKey, Span>,
    anc: Map<Timestamp, Vec<SpanKey>>,
    k: Timestamp,
    j: int,
)
    requires
        0 <= j < v@.len(),
        v@[j].matchable(events, spans, anc, k),
    ensures
        IndexedEventFilter::Or(v).matchable(events, spans, anc, k),
{
    let f = IndexedEventFilter::Or(v);
    assert(f->Or_0 == v);
    assert(0 <= j < f->Or_0@.len() && f->Or_0@[j].matchable(events, spans, anc, k));
}


/// A per-record predicate attached to a span index leaf.
pub enum NonIndexedSpanFilter {
    Duration(DurationFilter),
    Attribute(String, String),
}

impl NonIndexedSpanFilter {
    /// Whether the span at a key passes the residual predicate.
    pub open spec fn spec_matches(
        self,
        spans: Map<SpanKey, Span>,
        anc: Map<Timestamp, Vec<SpanKey>>,
        k: Timestamp,
    ) -> bool {
        match self {
            NonIndexedSpanFilter::Duration(df) => spans.contains_key(k)
                && crate::filter::duration_filter_matches(df, spans[k].spec_duration()),
            NonIndexedSpanFilter::Attribute(attribute, value) => spans.contains_key(k)
                && resolved_value(spans[k].fields, chain_of(anc, k), spans, attribute@) == Some(
                value@,
            ),
        }
    }

    pub fn matches(
        &self,
        spans: &HashMap<SpanKey, Span>,
        ancestors: &HashMap<Timestamp, Vec<SpanKey>>,
        entry: Timestamp,
    ) -> (r: bool)
        ensures
            r == self.spec_matches(spans@, ancestors@, entry),
    {
        match self {
            NonIndexedSpanFilter::Duration(df) => match spans.get(&entry) {
                Some(span) => df.matches(span.duration()),
                None => false,
            },
            NonIndexedSpanFilter::Attribute(attribute, value) => {
                match spans.get(&entry) {
                    Some(span) => {
                        let empty_chain: Vec<SpanKey> = Vec::new();
                        let resolved = match ancestors.get(&entry) {
                            Some(chain) => crate::filter::resolve_attribute(
                                &span.fields,
                                chain,
                                spans,
                                attribute.as_str(),
                            ),
                            None => crate::filter::resolve_attribute(
                                &span.fields,
                                &empty_chain,
                                spans,
                                attribute.as_str(),
                            ),
                        };
                        match resolved {
                            Some(v) => v == *value,
                            None => false,
                        }
                    },
                    None => false,
                }
            },
        }
    }
}

/// Whether the span at a key can still be alive at the original query
/// start: a span created before the window that already closed at or
/// before the window start cannot intersect it.
pub open spec fn span_live_at(spans: Map<SpanKey, Span>, k: Timestamp, start: Timestamp) -> bool {
    !(k < start && spans.contains_key(k) && match spans[k].closed_at {
        Some(c) => c <= start,
        None => false,
    })
}

/// Checks `span_live_at` against the store.
fn span_live(spans: &HashMap<SpanKey, Span>, k: Timestamp, start: Timestamp) -> (r: bool)
    ensures
        r == span_live_at(spans@, k, start),
{
    if k >= start {
        return true;
    }
    match spans.get(&k) {
        Some(span) => match span.closed_at {
            Some(c) => c > start,
            None => true,
        },
        None => true,
    }
}

/// A span filter lowered onto index windows. A `Stratified` leaf is a
/// duration band; its range steers window trimming.
pub enum IndexedSpanFilter {
    Single(TsSlice, Option<NonIndexedSpanFilter>),
    Stratified(TsSlice, core::ops::Range<u64>, Option<NonIndexedSpanFilter>),
    And(Vec<IndexedSpanFilter>),
    Or(Vec<IndexedSpanFilter>),
}

impl IndexedSpanFilter {
    pub open spec fn wf(self) -> bool
        decreases self,
    {
        match self {
            IndexedSpanFilter::Single(slice, _) => slice.wf(),
            IndexedSpanFilter::Stratified(slice, _, _) => slice.wf(),
            IndexedSpanFilter::And(fs) => fs@.len() >= 1 && (forall|i: int|
                0 <= i < fs@.len() ==> (#[trigger] fs@[i]).wf()),
            IndexedSpanFilter::Or(fs) => forall|i: int|
                0 <= i < fs@.len() ==> (#[trigger] fs@[i]).wf(),
        }
    }

    /// Whether the plan can still yield a key, for a query whose
    /// original start is `start`.
    pub open spec fn matchable(
        self,
        spans: Map<SpanKey, Span>,
        anc: Map<Timestamp, Vec<SpanKey>>,
        k: Timestamp,
        start: Timestamp,
    ) -> bool
        decreases self,
    {
        match self {
            IndexedSpanFilter::Single(slice, residual) => slice.has(k) && span_live_at(
                spans,
                k,
                start,
            ) && match residual {
                Some(res) => res.spec_matches(spans, anc, k),
                None => true,
            },
            IndexedSpanFilter::Stratified(slice, _, residual) => slice.has(k) && span_live_at(
                spans,
                k,
                start,
            ) && match residual {
                Some(res) => res.spec_matches(spans, anc, k),
                None => true,
            },
            IndexedSpanFilter::And(fs) => forall|i: int|
                0 <= i < fs@.len() ==> (#[trigger] fs@[i]).matchable(spans, anc, k, start),
            IndexedSpanFilter::Or(fs) => exists|i: int|
                0 <= i < fs@.len() && (#[trigger] fs@[i]).matchable(spans, anc, k, start),
        }
    }

    /// The number of nodes in the plan.
    pub open spec fn size(self) -> nat
        decreases self, 1int, 0int,
    {
        match self {
            IndexedSpanFilter::Single(_, _) => 1,
            IndexedSpanFilter::Stratified(_, _, _) => 1,
            IndexedSpanFilter::And(fs) => 1 + span_size_of_children(fs, fs@.len() as int),
            IndexedSpanFilter::Or(fs) => 1 + span_size_of_children(fs, fs@.len() as int),
        }
    }
}

/// The summed size of the first `i` children.
pub open spec fn span_size_of_children(fs: Vec<IndexedSpanFilter>, i: int) -> nat
    decreases fs, 0int, i,
    via span_size_of_children_decreases
{
    if i <= 0 || i > fs@.len() {
        0
    } else {
        span_size_of_children(fs, i - 1) + fs[i - 1].size()
    }
}

#[via_fn]
proof fn span_size_of_children_decreases(fs: Vec<IndexedSpanFilter>, i: int) {
    if 0 < i <= fs@.len() {
        vstd::std_specs::vec::axiom_vec_index_decreases(fs, i - 1);
    }
}

/// A child weighs less than the whole list.
pub proof fn lemma_span_child_size_le(fs: Vec<IndexedSpanFilter>, i: int, j: int)
    requires
        0 <= j < i <= fs@.len(),
    ensures
        fs[j].size() <= span_size_of_children(fs, i),
    decreases i,
{
    if j < i - 1 {
        lemma_span_child_size_le(fs, i - 1, j);
    }
}

/// Lists with pointwise equal sizes weigh the same.
pub proof fn lemma_span_size_of_children_congruent(
    fs1: Vec<IndexedSpanFilter>,
    fs2: Vec<IndexedSpanFilter>,
    i: int,
)
    requires
        fs1@.len() == fs2@.len(),
        forall|j: int| 0 <= j < i ==> (#[trigger] fs1[j]).size() == fs2[j].size(),
    ensures
        span_size_of_children(fs1, i) == span_size_of_children(fs2, i),
    decreases i,
{
    if i > 0 {
        lemma_span_size_of_children_congruent(fs1, fs2, i - 1);
    }
}

/// Each conjunct of the plan can yield any key the conjunction can.
pub proof fn lemma_ispan_and_elim(
    v: Vec<IndexedSpanFilter>,
    spans: Map<SpanKey, Span>,
    anc: Map<Timestamp, Vec<SpanKey>>,
    k: Timestamp,
    start: Timestamp,
    j: int,
)
    requires
        IndexedSpanFilter::And(v).matchable(spans, anc, k, start),
        0 <= j < v@.len(),
    ensures
        v@[j].matchable(spans, anc, k, start),
{
    let f = IndexedSpanFilter::And(v);
    assert(f->And_0 == v);
    assert(f->And_0@[j].matchable(spans, anc, k, start));
}

/// A key every conjunct can yield, the conjunction can yield.
pub proof fn lemma_ispan_and_intro(
    v: Vec<IndexedSpanFilter>,
    spans: Map<SpanKey, Span>,
    anc: Map<Timestamp, Vec<SpanKey>>,
    k: Timestamp,
    start: Timestamp,
)
    requires
        forall|i: int| 0 <= i < v@.len() ==> (#[trigger] v@[i]).matchable(spans, anc, k, start),
    ensures
        IndexedSpanFilter::And(v).matchable(spans, anc, k, start),
{
}

/// A key a disjunction can yield, some disjunct can yield.
pub proof fn lemma_ispan_or_elim(
    v: Vec<IndexedSpanFilter>,
    spans: Map<SpanKey, Span>,
    anc: Map<Timestamp, Vec<SpanKey>>,
    k: Timestamp,
    start: Timestamp,
) -> (j: int)
    requires
        IndexedSpanFilter::Or(v).matchable(spans, anc, k, start),
    ensures
        0 <= j < v@.len(),
        v@[j].matchable(spans, anc, k, start),
{
    let f = IndexedSpanFilter::Or(v);
    assert(f->Or_0 == v);
    assert(exists|i: int|
        0 <= i < f->Or_0@.len() && (#[trigger] f->Or_0@[i]).matchable(spans, anc, k, start));
    let j = choose|i: int|
        0 <= i < v@.len() && (#[trigger] v@[i]).matchable(spans, anc, k, start);
    j
}

/// A key some disjunct can yield, the disjunction can yield.
pub proof fn lemma_ispan_or_intro(
    v: Vec<IndexedSpanFilter>,
    spans: Map<SpanKey, Span>,
    anc: Map<Timestamp, Vec<SpanKey>>,
    k: Timestamp,
    start: Timestamp,
    j: int,
)
    requires
        0 <= j < v@.len(),
        v@[j].matchable(spans, anc, k, start),
    ensures
        IndexedSpanFilter::Or(v).matchable(spans, anc, k, start),
{
    let f = IndexedSpanFilter::Or(v);
    assert(f->Or_0 == v);
    assert(0 <= j < f->Or_0@.len() && f->Or_0@[j].matchable(spans, anc, k, start));
}


/// What a span leaf can yield.
pub open spec fn span_leaf_matchable(
    slice: TsSlice,
    residual: Option<NonIndexedSpanFilter>,
    spans: Map<SpanKey, Span>,
    anc: Map<Timestamp, Vec<SpanKey>>,
    k: Timestamp,
    start: Timestamp,
) -> bool {
    slice.has(k) && span_live_at(spans, k, start) && match residual {
        Some(res) => res.spec_matches(spans, anc, k),
        None => true,
    }
}

/// Walks one span window upward from `entry` to the first key at or
/// under `bound` that is still relevant at `start` and passes the
/// residual.
#[verifier::loop_isolation(false)]
fn span_search_leaf_asc(
    slice: &mut TsSlice,
    residual: &Option<NonIndexedSpanFilter>,
    spans: &HashMap<SpanKey, Span>,
    ancestors: &HashMap<Timestamp, Vec<SpanKey>>,
    entry: Timestamp,
    bound: Timestamp,
    start: Timestamp,
) -> (r: Option<Timestamp>)
    requires
        old(slice).wf(),
    ensures
        final(slice).wf(),
        forall|k: Timestamp| #[trigger]
            span_leaf_matchable(*final(slice), *residual, spans@, ancestors@, k, start)
                ==> span_leaf_matchable(*old(slice), *residual, spans@, ancestors@, k, start),
        forall|k: Timestamp|
            k >= entry ==> ((#[trigger] span_leaf_matchable(
                *final(slice),
                *residual,
                spans@,
                ancestors@,
                k,
                start,
            )) == span_leaf_matchable(*old(slice), *residual, spans@, ancestors@, k, start)),
        match r {
            Some(f) => {
                &&& entry <= f <= bound
                &&& span_leaf_matchable(*old(slice), *residual, spans@, ancestors@, f, start)
                &&& forall|k: Timestamp|
                    entry <= k < f ==> !(#[trigger] span_leaf_matchable(
                        *old(slice),
                        *residual,
                        spans@,
                        ancestors@,
                        k,
                        start,
                    ))
            },
            None => forall|k: Timestamp|
                entry <= k <= bound ==> !(#[trigger] span_leaf_matchable(
                    *old(slice),
                    *residual,
                    spans@,
                    ancestors@,
                    k,
                    start,
                )),
        },
{
    let ghost orig_slice = *old(slice);
    let mut cursor = entry;
    loop
        invariant
            slice.wf(),
            cursor >= entry,
            forall|k: Timestamp| slice.has(k) ==> orig_slice.has(k),
            forall|k: Timestamp|
                k >= entry && orig_slice.has(k) && !(#[trigger] slice.has(k)) ==> k < cursor,
            forall|k: Timestamp|
                entry <= k < cursor ==> !(#[trigger] span_leaf_matchable(
                    orig_slice,
                    *residual,
                    spans@,
                    ancestors@,
                    k,
                    start,
                )),
        decreases bound + 1 - cursor,
    {
        let ghost pre = *slice;
        let found = match slice.advance_to(cursor) {
            Some(f) => f,
            None => {
                proof {
                    assert forall|k: Timestamp| entry <= k <= bound implies !(
                    #[trigger] span_leaf_matchable(
                        orig_slice,
                        *residual,
                        spans@,
                        ancestors@,
                        k,
                        start,
                    )) by {
                        if k >= cursor && orig_slice.has(k) {
                            assert(pre.has(k));
                            assert(slice.has(k));
                        }
                    }
                    lemma_span_leaf_equiv(*slice, orig_slice, *residual, spans@, ancestors@, entry, cursor, start);
                }
                return None;
            },
        };
        if found > bound {
            proof {
                assert forall|k: Timestamp| entry <= k <= bound implies !(
                #[trigger] span_leaf_matchable(
                    orig_slice,
                    *residual,
                    spans@,
                    ancestors@,
                    k,
                    start,
                )) by {
                    if k >= cursor && orig_slice.has(k) {
                        assert(pre.has(k));
                        assert(slice.has(k));
                        assert(k >= found);
                    }
                }
                lemma_span_leaf_equiv(*slice, orig_slice, *residual, spans@, ancestors@, entry, cursor, start);
            }
            return None;
        }
        let keep = span_live(spans, found, start) && match residual {
            Some(res) => res.matches(spans, ancestors, found),
            None => true,
        };
        if keep {
            proof {
                assert(orig_slice.has(found)) by {
                    assert(slice.has(found));
                }
                assert(span_leaf_matchable(orig_slice, *residual, spans@, ancestors@, found, start));
                assert forall|k: Timestamp| entry <= k < found implies !(
                #[trigger] span_leaf_matchable(
                    orig_slice,
                    *residual,
                    spans@,
                    ancestors@,
                    k,
                    start,
                )) by {
                    if k >= cursor && orig_slice.has(k) {
                        assert(pre.has(k));
                        assert(slice.has(k));
                    }
                }
                lemma_span_leaf_equiv(*slice, orig_slice, *residual, spans@, ancestors@, entry, cursor, start);
            }
            return Some(found);
        }
        if found == u64::MAX {
            proof {
                assert forall|k: Timestamp| entry <= k <= bound implies !(
                #[trigger] span_leaf_matchable(
                    orig_slice,
                    *residual,
                    spans@,
                    ancestors@,
                    k,
                    start,
                )) by {
                    if k >= cursor && orig_slice.has(k) {
                        assert(pre.has(k));
                        assert(slice.has(k));
                        assert(k == found);
                    }
                }
                lemma_span_leaf_equiv(*slice, orig_slice, *residual, spans@, ancestors@, entry, cursor, start);
            }
            return None;
        }
        proof {
            assert forall|k: Timestamp| entry <= k < found + 1 implies !(
            #[trigger] span_leaf_matchable(
                orig_slice,
                *residual,
                spans@,
                ancestors@,
                k,
                start,
            )) by {
                if k >= cursor && orig_slice.has(k) {
                    assert(pre.has(k));
                    assert(slice.has(k));
                    assert(k >= found);
                }
            }
        }
        cursor = found + 1;
    }
}

/// Connects a narrowed span window back to the original leaf.
proof fn lemma_span_leaf_equiv(
    cur: TsSlice,
    orig_slice: TsSlice,
    residual: Option<NonIndexedSpanFilter>,
    spans: Map<SpanKey, Span>,
    anc: Map<Timestamp, Vec<SpanKey>>,
    entry: Timestamp,
    cursor: Timestamp,
    start: Timestamp,
)
    requires
        cursor >= entry,
        forall|k: Timestamp| cur.has(k) ==> orig_slice.has(k),
        forall|k: Timestamp|
            k >= entry && orig_slice.has(k) && !(#[trigger] cur.has(k)) ==> k < cursor,
        forall|k: Timestamp|
            entry <= k < cursor ==> !(#[trigger] span_leaf_matchable(
                orig_slice,
                residual,
                spans,
                anc,
                k,
                start,
            )),
    ensures
        forall|k: Timestamp| #[trigger]
            span_leaf_matchable(cur, residual, spans, anc, k, start) ==> span_leaf_matchable(
                orig_slice,
                residual,
                spans,
                anc,
                k,
                start,
            ),
        forall|k: Timestamp|
            k >= entry ==> ((#[trigger] span_leaf_matchable(cur, residual, spans, anc, k, start))
                == span_leaf_matchable(orig_slice, residual, spans, anc, k, start)),
{
    assert forall|k: Timestamp|
        k >= entry implies ((#[trigger] span_leaf_matchable(cur, residual, spans, anc, k, start))
        == span_leaf_matchable(orig_slice, residual, spans, anc, k, start)) by {
        if span_leaf_matchable(orig_slice, residual, spans, anc, k, start) {
            if k < cursor {
                assert(!span_leaf_matchable(orig_slice, residual, spans, anc, k, start));
            } else {
                assert(cur.has(k));
            }
        }
    }
}

/// As `span_search_leaf_asc`, walking downward.
#[verifier::loop_isolation(false)]
fn span_search_leaf_desc(
    slice: &mut TsSlice,
    residual: &Option<NonIndexedSpanFilter>,
    spans: &HashMap<SpanKey, Span>,
    ancestors: &HashMap<Timestamp, Vec<SpanKey>>,
    entry: Timestamp,
    bound: Timestamp,
    start: Timestamp,
) -> (r: Option<Timestamp>)
    requires
        old(slice).wf(),
    ensures
        final(slice).wf(),
        forall|k: Timestamp| #[trigger]
            span_leaf_matchable(*final(slice), *residual, spans@, ancestors@, k, start)
                ==> span_leaf_matchable(*old(slice), *residual, spans@, ancestors@, k, start),
        forall|k: Timestamp|
            k <= entry ==> ((#[trigger] span_leaf_matchable(
                *final(slice),
                *residual,
                spans@,
                ancestors@,
                k,
                start,
            )) == span_leaf_matchable(*old(slice), *residual, spans@, ancestors@, k, start)),
        match r {
            Some(f) => {
                &&& bound <= f <= entry
                &&& span_leaf_matchable(*old(slice), *residual, spans@, ancestors@, f, start)
                &&& forall|k: Timestamp|
                    f < k <= entry ==> !(#[trigger] span_leaf_matchable(
                        *old(slice),
                        *residual,
                        spans@,
                        ancestors@,
                        k,
                        start,
                    ))
            },
            None => forall|k: Timestamp|
                bound <= k <= entry ==> !(#[trigger] span_leaf_matchable(
                    *old(slice),
                    *residual,
                    spans@,
                    ancestors@,
                    k,
                    start,
                )),
        },
{
    let ghost orig_slice = *old(slice);
    let mut cursor = entry;
    loop
        invariant
            slice.wf(),
            cursor <= entry,
            forall|k: Timestamp| slice.has(k) ==> orig_slice.has(k),
            forall|k: Timestamp|
                k <= entry && orig_slice.has(k) && !(#[trigger] slice.has(k)) ==> k > cursor,
            forall|k: Timestamp|
                cursor < k <= entry ==> !(#[trigger] span_leaf_matchable(
                    orig_slice,
                    *residual,
                    spans@,
                    ancestors@,
                    k,
                    start,
                )),
        decreases cursor,
    {
        let ghost pre = *slice;
        let found = match slice.retreat_to(cursor) {
            Some(f) => f,
            None => {
                proof {
                    assert forall|k: Timestamp| bound <= k <= entry implies !(
                    #[trigger] span_leaf_matchable(
                        orig_slice,
                        *residual,
                        spans@,
                        ancestors@,
                        k,
                        start,
                    )) by {
                        if k <= cursor && orig_slice.has(k) {
                            assert(pre.has(k));
                            assert(slice.has(k));
                        }
                    }
                    lemma_span_leaf_equiv_desc(*slice, orig_slice, *residual, spans@, ancestors@, entry, cursor, start);
                }
                return None;
            },
        };
        if found < bound {
            proof {
                assert forall|k: Timestamp| bound <= k <= entry implies !(
                #[trigger] span_leaf_matchable(
                    orig_slice,
                    *residual,
                    spans@,
                    ancestors@,
                    k,
                    start,
                )) by {
                    if k <= cursor && orig_slice.has(k) {
                        assert(pre.has(k));
                        assert(slice.has(k));
                        assert(k <= found);
                    }
                }
                lemma_span_leaf_equiv_desc(*slice, orig_slice, *residual, spans@, ancestors@, entry, cursor, start);
            }
            return None;
        }
        let keep = span_live(spans, found, start) && match residual {
            Some(res) => res.matches(spans, ancestors, found),
            None => true,
        };
        if keep {
            proof {
                assert(orig_slice.has(found)) by {
                    assert(slice.has(found));
                }
                assert(span_leaf_matchable(orig_slice, *residual, spans@, ancestors@, found, start));
                assert forall|k: Timestamp| found < k <= entry implies !(
                #[trigger] span_leaf_matchable(
                    orig_slice,
                    *residual,
                    spans@,
                    ancestors@,
                    k,
                    start,
                )) by {
                    if k <= cursor && orig_slice.has(k) {
                        assert(pre.has(k));
                        assert(slice.has(k));
                    }
                }
                lemma_span_leaf_equiv_desc(*slice, orig_slice, *residual, spans@, ancestors@, entry, cursor, start);
            }
            return Some(found);
        }
        if found == 0 {
            proof {
                assert forall|k: Timestamp| bound <= k <= entry implies !(
                #[trigger] span_leaf_matchable(
                    orig_slice,
                    *residual,
                    spans@,
                    ancestors@,
                    k,
                    start,
                )) by {
                    if k <= cursor && orig_slice.has(k) {
                        assert(pre.has(k));
                        assert(slice.has(k));
                        assert(k <= found);
                    }
                }
                lemma_span_leaf_equiv_desc(*slice, orig_slice, *residual, spans@, ancestors@, entry, cursor, start);
            }
            return None;
        }
        proof {
            assert forall|k: Timestamp| found - 1 < k <= entry implies !(
            #[trigger] span_leaf_matchable(
                orig_slice,
                *residual,
                spans@,
                ancestors@,
                k,
                start,
            )) by {
                if k <= cursor && orig_slice.has(k) {
                    assert(pre.has(k));
                    assert(slice.has(k));
                    assert(k <= found);
                }
            }
        }
        cursor = found - 1;
    }
}

/// As `lemma_span_leaf_equiv`, for the downward walk.
proof fn lemma_span_leaf_equiv_desc(
    cur: TsSlice,
    orig_slice: TsSlice,
    residual: Option<NonIndexedSpanFilter>,
    spans: Map<SpanKey, Span>,
    anc: Map<Timestamp, Vec<SpanKey>>,
    entry: Timestamp,
    cursor: Timestamp,
    start: Timestamp,
)
    requires
        cursor <= entry,
        forall|k: Timestamp| cur.has(k) ==> orig_slice.has(k),
        forall|k: Timestamp|
            k <= entry && orig_slice.has(k) && !(#[trigger] cur.has(k)) ==> k > cursor,
        forall|k: Timestamp|
            cursor < k <= entry ==> !(#[trigger] span_leaf_matchable(
                orig_slice,
                residual,
                spans,
                anc,
                k,
                start,
            )),
    ensures
        forall|k: Timestamp| #[trigger]
            span_leaf_matchable(cur, residual, spans, anc, k, start) ==> span_leaf_matchable(
                orig_slice,
                residual,
                spans,
                anc,
                k,
                start,
            ),
        forall|k: Timestamp|
            k <= entry ==> ((#[trigger] span_leaf_matchable(cur, residual, spans, anc, k, start))
                == span_leaf_matchable(orig_slice, residual, spans, anc, k, start)),
{
    assert forall|k: Timestamp|
        k <= entry implies ((#[trigger] span_leaf_matchable(cur, residual, spans, anc, k, start))
        == span_leaf_matchable(orig_slice, residual, spans, anc, k, start)) by {
        if span_leaf_matchable(orig_slice, residual, spans, anc, k, start) {
            if k > cursor {
                assert(!span_leaf_matchable(orig_slice, residual, spans, anc, k, start));
            } else {
                assert(cur.has(k));
            }
        }
    }
}


/// At the end of a span conjunction search.
proof fn lemma_ispan_and_exit(
    cur: Vec<IndexedSpanFilter>,
    orig_vec: Vec<IndexedSpanFilter>,
    spans: Map<SpanKey, Span>,
    anc: Map<Timestamp, Vec<SpanKey>>,
    entry: Timestamp,
    current: Timestamp,
    order: Order,
    start: Timestamp,
)
    requires
        cur@.len() == orig_vec@.len(),
        cur@.len() >= 1,
        forall|j: int| 0 <= j < cur@.len() ==> (#[trigger] cur@[j]).wf(),
        forall|j: int| 0 <= j < cur@.len() ==> (#[trigger] cur@[j]).size() == orig_vec@[j].size(),
        forall|j: int, k: Timestamp|
            0 <= j < cur@.len() ==> ((#[trigger] cur@[j].matchable(spans, anc, k, start))
                ==> orig_vec@[j].matchable(spans, anc, k, start)),
        forall|j: int, k: Timestamp|
            0 <= j < cur@.len() && (if order == Order::Asc {
                k >= current
            } else {
                k <= current
            }) ==> ((#[trigger] cur@[j].matchable(spans, anc, k, start)) == orig_vec@[j].matchable(
                spans,
                anc,
                k,
                start,
            )),
        forall|k: Timestamp|
            (if order == Order::Asc {
                entry <= k < current
            } else {
                current < k <= entry
            }) ==> !(#[trigger] IndexedSpanFilter::And(orig_vec).matchable(spans, anc, k, start)),
        if order == Order::Asc {
            current >= entry
        } else {
            current <= entry
        },
    ensures
        IndexedSpanFilter::And(cur).wf(),
        IndexedSpanFilter::And(cur).size() == IndexedSpanFilter::And(orig_vec).size(),
        forall|k: Timestamp| #[trigger]
            IndexedSpanFilter::And(cur).matchable(spans, anc, k, start)
                ==> IndexedSpanFilter::And(orig_vec).matchable(spans, anc, k, start),
        forall|k: Timestamp|
            (if order == Order::Asc {
                k >= entry
            } else {
                k <= entry
            }) ==> ((#[trigger] IndexedSpanFilter::And(cur).matchable(spans, anc, k, start))
                == IndexedSpanFilter::And(orig_vec).matchable(spans, anc, k, start)),
{
    lemma_span_size_of_children_congruent(cur, orig_vec, cur@.len() as int);
    assert forall|k: Timestamp| #[trigger]
        IndexedSpanFilter::And(cur).matchable(spans, anc, k, start) implies
        IndexedSpanFilter::And(orig_vec).matchable(spans, anc, k, start) by {
        assert forall|j: int| 0 <= j < orig_vec@.len() implies (
        #[trigger] orig_vec@[j]).matchable(spans, anc, k, start) by {
            lemma_ispan_and_elim(cur, spans, anc, k, start, j);
        }
        lemma_ispan_and_intro(orig_vec, spans, anc, k, start);
    }
    assert forall|k: Timestamp|
        (if order == Order::Asc {
            k >= entry
        } else {
            k <= entry
        }) implies ((#[trigger] IndexedSpanFilter::And(cur).matchable(spans, anc, k, start))
        == IndexedSpanFilter::And(orig_vec).matchable(spans, anc, k, start)) by {
        let in_gap = if order == Order::Asc {
            entry <= k < current
        } else {
            current < k <= entry
        };
        if IndexedSpanFilter::And(orig_vec).matchable(spans, anc, k, start) {
            assert(!in_gap);
            assert forall|j: int| 0 <= j < cur@.len() implies (#[trigger] cur@[j]).matchable(
                spans,
                anc,
                k,
                start,
            ) by {
                lemma_ispan_and_elim(orig_vec, spans, anc, k, start, j);
            }
            lemma_ispan_and_intro(cur, spans, anc, k, start);
        }
    }
}

/// At the end of a span disjunction search.
proof fn lemma_ispan_or_exit(
    cur: Vec<IndexedSpanFilter>,
    orig_vec: Vec<IndexedSpanFilter>,
    spans: Map<SpanKey, Span>,
    anc: Map<Timestamp, Vec<SpanKey>>,
    entry: Timestamp,
    order: Order,
    start: Timestamp,
)
    requires
        cur@.len() == orig_vec@.len(),
        forall|j: int| 0 <= j < cur@.len() ==> (#[trigger] cur@[j]).wf(),
        forall|j: int| 0 <= j < cur@.len() ==> (#[trigger] cur@[j]).size() == orig_vec@[j].size(),
        forall|j: int, k: Timestamp|
            0 <= j < cur@.len() ==> ((#[trigger] cur@[j].matchable(spans, anc, k, start))
                ==> orig_vec@[j].matchable(spans, anc, k, start)),
        forall|j: int, k: Timestamp|
            0 <= j < cur@.len() && (if order == Order::Asc {
                k >= entry
            } else {
                k <= entry
            }) ==> ((#[trigger] cur@[j].matchable(spans, anc, k, start)) == orig_vec@[j].matchable(
                spans,
                anc,
                k,
                start,
            )),
    ensures
        IndexedSpanFilter::Or(cur).wf(),
        IndexedSpanFilter::Or(cur).size() == IndexedSpanFilter::Or(orig_vec).size(),
        forall|k: Timestamp| #[trigger]
            IndexedSpanFilter::Or(cur).matchable(spans, anc, k, start)
                ==> IndexedSpanFilter::Or(orig_vec).matchable(spans, anc, k, start),
        forall|k: Timestamp|
            (if order == Order::Asc {
                k >= entry
            } else {
                k <= entry
            }) ==> ((#[trigger] IndexedSpanFilter::Or(cur).matchable(spans, anc, k, start))
                == IndexedSpanFilter::Or(orig_vec).matchable(spans, anc, k, start)),
{
    lemma_span_size_of_children_congruent(cur, orig_vec, cur@.len() as int);
    assert forall|k: Timestamp| #[trigger]
        IndexedSpanFilter::Or(cur).matchable(spans, anc, k, start) implies
        IndexedSpanFilter::Or(orig_vec).matchable(spans, anc, k, start) by {
        let j = lemma_ispan_or_elim(cur, spans, anc, k, start);
        lemma_ispan_or_intro(orig_vec, spans, anc, k, start, j);
    }
    assert forall|k: Timestamp|
        (if order == Order::Asc {
            k >= entry
        } else {
            k <= entry
        }) implies ((#[trigger] IndexedSpanFilter::Or(cur).matchable(spans, anc, k, start))
        == IndexedSpanFilter::Or(orig_vec).matchable(spans, anc, k, start)) by {
        if IndexedSpanFilter::Or(orig_vec).matchable(spans, anc, k, start) {
            let j = lemma_ispan_or_elim(orig_vec, spans, anc, k, start);
            lemma_ispan_or_intro(cur, spans, anc, k, start, j);
        }
    }
}

impl IndexedSpanFilter {
    /// Searches for the first key from `entry` towards `bound`
    /// (inclusive on both sides) that the plan can yield for a query
    /// whose original start is `start`, narrowing the leaf windows as
    /// it goes.
    #[verifier::loop_isolation(false)]
    #[verifier::rlimit(100)]
    pub fn search(
        &mut self,
        spans: &HashMap<SpanKey, Span>,
        ancestors: &HashMap<Timestamp, Vec<SpanKey>>,
        entry: Timestamp,
        order: Order,
        bound: Timestamp,
        start: Timestamp,
    ) -> (r: Option<Timestamp>)
        requires
            old(self).wf(),
        ensures
            final(self).wf(),
            final(self).size() == old(self).size(),
            forall|k: Timestamp| #[trigger]
                final(self).matchable(spans@, ancestors@, k, start) ==> old(self).matchable(
                    spans@,
                    ancestors@,
                    k,
                    start,
                ),
            forall|k: Timestamp|
                (if order == Order::Asc {
                    k >= entry
                } else {
                    k <= entry
                }) ==> ((#[trigger] final(self).matchable(spans@, ancestors@, k, start)) == old(
                    self,
                ).matchable(spans@, ancestors@, k, start)),
            match r {
                Some(f) => {
                    &&& old(self).matchable(spans@, ancestors@, f, start)
                    &&& if order == Order::Asc {
                        entry <= f <= bound && (forall|k: Timestamp|
                            entry <= k < f ==> !(#[trigger] old(self).matchable(
                                spans@,
                                ancestors@,
                                k,
                                start,
                            )))
                    } else {
                        bound <= f <= entry && (forall|k: Timestamp|
                            f < k <= entry ==> !(#[trigger] old(self).matchable(
                                spans@,
                                ancestors@,
                                k,
                                start,
                            )))
                    }
                },
                None => if order == Order::Asc {
                    forall|k: Timestamp|
                        entry <= k <= bound ==> !(#[trigger] old(self).matchable(
                            spans@,
                            ancestors@,
                            k,
                            start,
                        ))
                } else {
                    forall|k: Timestamp|
                        bound <= k <= entry ==> !(#[trigger] old(self).matchable(
                            spans@,
                            ancestors@,
                            k,
                            start,
                        ))
                },
            },
        decreases old(self).size(),
    {
        let ghost orig = *old(self);
        match self {
            IndexedSpanFilter::Single(slice, residual) => {
                let ghost pre_slice = *slice;
                let r = match order {
                    Order::Asc => span_search_leaf_asc(slice, residual, spans, ancestors, entry, bound, start),
                    Order::Desc => span_search_leaf_desc(slice, residual, spans, ancestors, entry, bound, start),
                };
                proof {
                    assert(IndexedSpanFilter::Single(*slice, *residual).size() == 1);
                    assert(orig.size() == 1);
                    assert forall|k: Timestamp| #[trigger]
                        IndexedSpanFilter::Single(*slice, *residual).matchable(
                            spans@,
                            ancestors@,
                            k,
                            start,
                        ) == span_leaf_matchable(
                            *slice,
                            *residual,
                            spans@,
                            ancestors@,
                            k,
                            start,
                        ) by {}
                    assert forall|k: Timestamp| #[trigger]
                        orig.matchable(spans@, ancestors@, k, start) == span_leaf_matchable(
                            pre_slice,
                            *residual,
                            spans@,
                            ancestors@,
                            k,
                            start,
                        ) by {}
                }
                r
            },
            IndexedSpanFilter::Stratified(slice, range, residual) => {
                let ghost pre_slice = *slice;
                let r = match order {
                    Order::Asc => span_search_leaf_asc(slice, residual, spans, ancestors, entry, bound, start),
                    Order::Desc => span_search_leaf_desc(slice, residual, spans, ancestors, entry, bound, start),
                };
                proof {
                    assert(IndexedSpanFilter::Stratified(*slice, *range, *residual).size() == 1);
                    assert(orig.size() == 1);
                    assert forall|k: Timestamp| #[trigger]
                        IndexedSpanFilter::Stratified(*slice, *range, *residual).matchable(
                            spans@,
                            ancestors@,
                            k,
                            start,
                        ) == span_leaf_matchable(
                            *slice,
                            *residual,
                            spans@,
                            ancestors@,
                            k,
                            start,
                        ) by {}
                    assert forall|k: Timestamp| #[trigger]
                        orig.matchable(spans@, ancestors@, k, start) == span_leaf_matchable(
                            pre_slice,
                            *residual,
                            spans@,
                            ancestors@,
                            k,
                            start,
                        ) by {}
                }
                r
            },
            IndexedSpanFilter::And(filters) => {
                let ghost orig_vec = *filters;
                let ghost orig_children = filters@;
                proof {
                    assert(orig == IndexedSpanFilter::And(orig_vec));
                }
                let n = filters.len();
                let mut current = entry;
                loop
                    invariant
                        n == filters@.len(),
                        n >= 1,
                        forall|j: int| 0 <= j < n ==> (#[trigger] filters@[j]).wf(),
                        forall|j: int|
                            0 <= j < n ==> (#[trigger] filters@[j]).size() == orig_children[j].size(),
                        if order == Order::Asc {
                            current >= entry
                        } else {
                            current <= entry
                        },
                        forall|j: int, k: Timestamp|
                            0 <= j < n ==> ((#[trigger] filters@[j].matchable(
                                spans@,
                                ancestors@,
                                k,
                                start,
                            )) ==> orig_children[j].matchable(spans@, ancestors@, k, start)),
                        forall|j: int, k: Timestamp|
                            0 <= j < n && (if order == Order::Asc {
                                k >= current
                            } else {
                                k <= current
                            }) ==> ((#[trigger] filters@[j].matchable(
                                spans@,
                                ancestors@,
                                k,
                                start,
                            )) == orig_children[j].matchable(spans@, ancestors@, k, start)),
                        forall|k: Timestamp|
                            (if order == Order::Asc {
                                entry <= k < current
                            } else {
                                current < k <= entry
                            }) ==> !(#[trigger] orig.matchable(spans@, ancestors@, k, start)),
                    decreases (if order == Order::Asc {
                        bound + 1 - current
                    } else {
                        current + 1 - bound
                    }),
                {
                    let ghost loop_children = filters@;
                    let ghost pre_current = current;
                    proof {
                        lemma_span_child_size_le(orig_vec, n as int, 0);
                    }
                    let first = filters[0].search(spans, ancestors, current, order, bound, start);
                    current = match first {
                        Some(c) => c,
                        None => {
                            proof {
                                assert forall|k: Timestamp|
                                    (if order == Order::Asc {
                                        entry <= k <= bound
                                    } else {
                                        bound <= k <= entry
                                    }) implies !(#[trigger] orig.matchable(
                                    spans@,
                                    ancestors@,
                                    k,
                                    start,
                                )) by {
                                    let in_gap = if order == Order::Asc {
                                        pre_current <= k
                                    } else {
                                        k <= pre_current
                                    };
                                    if in_gap {
                                        if orig.matchable(spans@, ancestors@, k, start) {
                                            lemma_ispan_and_elim(
                                                orig_vec,
                                                spans@,
                                                ancestors@,
                                                k,
                                                start,
                                                0,
                                            );
                                            assert(loop_children[0].matchable(
                                                spans@,
                                                ancestors@,
                                                k,
                                                start,
                                            ));
                                        }
                                    }
                                }
                                lemma_ispan_and_exit(
                                    *filters,
                                    orig_vec,
                                    spans@,
                                    ancestors@,
                                    entry,
                                    pre_current,
                                    order,
                                    start,
                                );
                            }
                            return None;
                        },
                    };
                    proof {
                        assert(loop_children[0].matchable(spans@, ancestors@, current, start));
                        assert forall|k: Timestamp|
                            (if order == Order::Asc {
                                entry <= k < current
                            } else {
                                current < k <= entry
                            }) implies !(#[trigger] orig.matchable(spans@, ancestors@, k, start)) by {
                            let in_gap = if order == Order::Asc {
                                pre_current <= k
                            } else {
                                k <= pre_current
                            };
                            if in_gap {
                                if orig.matchable(spans@, ancestors@, k, start) {
                                    lemma_ispan_and_elim(
                                        orig_vec,
                                        spans@,
                                        ancestors@,
                                        k,
                                        start,
                                        0,
                                    );
                                    assert(loop_children[0].matchable(spans@, ancestors@, k, start));
                                }
                            }
                        }
                    }
                    let mut all_agree = true;
                    let mut j: usize = 1;
                    let ghost agreed_current = current;
                    while j < n && all_agree
                        invariant
                            n == filters@.len(),
                            n >= 1,
                            1 <= j <= n,
                            if order == Order::Asc {
                                pre_current <= agreed_current <= bound
                            } else {
                                bound <= agreed_current <= pre_current
                            },
                            all_agree ==> current == agreed_current,
                            !all_agree ==> current == (if order == Order::Asc {
                                agreed_current + 1
                            } else {
                                agreed_current - 1
                            }),
                            forall|jj: int| 0 <= jj < n ==> (#[trigger] filters@[jj]).wf(),
                            forall|jj: int|
                                0 <= jj < n ==> (#[trigger] filters@[jj]).size()
                                    == orig_children[jj].size(),
                            if order == Order::Asc {
                                entry <= current
                            } else {
                                current <= entry
                            },
                            all_agree ==> (if order == Order::Asc {
                                current <= bound
                            } else {
                                bound <= current
                            }),
                            forall|jj: int, k: Timestamp|
                                0 <= jj < n ==> ((#[trigger] filters@[jj].matchable(
                                    spans@,
                                    ancestors@,
                                    k,
                                    start,
                                )) ==> orig_children[jj].matchable(spans@, ancestors@, k, start)),
                            forall|jj: int, k: Timestamp|
                                0 <= jj < n && (if order == Order::Asc {
                                    k >= current
                                } else {
                                    k <= current
                                }) ==> ((#[trigger] filters@[jj].matchable(
                                    spans@,
                                    ancestors@,
                                    k,
                                    start,
                                )) == orig_children[jj].matchable(spans@, ancestors@, k, start)),
                            forall|k: Timestamp|
                                (if order == Order::Asc {
                                    entry <= k < current
                                } else {
                                    current < k <= entry
                                }) ==> !(#[trigger] orig.matchable(spans@, ancestors@, k, start)),
                            all_agree ==> forall|jj: int|
                                0 <= jj < j ==> (#[trigger] orig_children[jj]).matchable(
                                    spans@,
                                    ancestors@,
                                    current,
                                    start,
                                ),
                        decreases n - j,
                    {
                        proof {
                            lemma_span_child_size_le(orig_vec, n as int, j as int);
                        }
                        let ghost pre_filters = filters@;
                        let sub = filters[j].search(spans, ancestors, current, order, current, start);
                        match sub {
                            Some(f) => {
                                proof {
                                    assert(f == current);
                                    assert(pre_filters[j as int].matchable(
                                        spans@,
                                        ancestors@,
                                        f,
                                        start,
                                    ));
                                    assert(orig_children[j as int].matchable(
                                        spans@,
                                        ancestors@,
                                        current,
                                        start,
                                    ));
                                }
                            },
                            None => {
                                proof {
                                    assert(!pre_filters[j as int].matchable(
                                        spans@,
                                        ancestors@,
                                        current,
                                        start,
                                    ));
                                    assert forall|k: Timestamp| k == current implies !(
                                    #[trigger] orig.matchable(spans@, ancestors@, k, start)) by {
                                        if orig.matchable(spans@, ancestors@, k, start) {
                                            lemma_ispan_and_elim(
                                                orig_vec,
                                                spans@,
                                                ancestors@,
                                                k,
                                                start,
                                                j as int,
                                            );
                                            assert(orig_children[j as int].matchable(
                                                spans@,
                                                ancestors@,
                                                k,
                                                start,
                                            ));
                                        }
                                    }
                                }
                                if order == Order::Asc {
                                    if current == u64::MAX {
                                        proof {
                                            lemma_ispan_and_exit(
                                                *filters,
                                                orig_vec,
                                                spans@,
                                                ancestors@,
                                                entry,
                                                current,
                                                order,
                                                start,
                                            );
                                        }
                                        return None;
                                    }
                                    current = current + 1;
                                } else {
                                    if current == 0 {
                                        proof {
                                            lemma_ispan_and_exit(
                                                *filters,
                                                orig_vec,
                                                spans@,
                                                ancestors@,
                                                entry,
                                                current,
                                                order,
                                                start,
                                            );
                                        }
                                        return None;
                                    }
                                    current = current - 1;
                                }
                                all_agree = false;
                            },
                        }
                        j = j + 1;
                    }
                    if all_agree {
                        proof {
                            assert forall|jj: int| 0 <= jj < n implies (
                            #[trigger] orig_children[jj]).matchable(
                                spans@,
                                ancestors@,
                                current,
                                start,
                            ) by {}
                            lemma_ispan_and_intro(orig_vec, spans@, ancestors@, current, start);
                            lemma_ispan_and_exit(
                                *filters,
                                orig_vec,
                                spans@,
                                ancestors@,
                                entry,
                                current,
                                order,
                                start,
                            );
                        }
                        return Some(current);
                    }
                }
            },
            IndexedSpanFilter::Or(filters) => {
                let ghost orig_vec = *filters;
                let ghost orig_children = filters@;
                proof {
                    assert(orig == IndexedSpanFilter::Or(orig_vec));
                }
                let n = filters.len();
                let mut best: Option<Timestamp> = None;
                let mut j: usize = 0;
                while j < n
                    invariant
                        n == filters@.len(),
                        0 <= j <= n,
                        forall|jj: int| 0 <= jj < n ==> (#[trigger] filters@[jj]).wf(),
                        forall|jj: int|
                            0 <= jj < n ==> (#[trigger] filters@[jj]).size()
                                == orig_children[jj].size(),
                        forall|jj: int, k: Timestamp|
                            0 <= jj < n ==> ((#[trigger] filters@[jj].matchable(
                                spans@,
                                ancestors@,
                                k,
                                start,
                            )) ==> orig_children[jj].matchable(spans@, ancestors@, k, start)),
                        forall|jj: int, k: Timestamp|
                            0 <= jj < n && (if order == Order::Asc {
                                k >= entry
                            } else {
                                k <= entry
                            }) ==> ((#[trigger] filters@[jj].matchable(
                                spans@,
                                ancestors@,
                                k,
                                start,
                            )) == orig_children[jj].matchable(spans@, ancestors@, k, start)),
                        match best {
                            Some(b) => {
                                &&& if order == Order::Asc {
                                    entry <= b <= bound
                                } else {
                                    bound <= b <= entry
                                }
                                &&& exists|jj: int|
                                    0 <= jj < j && (#[trigger] orig_children[jj]).matchable(
                                        spans@,
                                        ancestors@,
                                        b,
                                        start,
                                    )
                                &&& forall|jj: int, k: Timestamp|
                                    0 <= jj < j && (if order == Order::Asc {
                                        entry <= k < b
                                    } else {
                                        b < k <= entry
                                    }) ==> !(#[trigger] orig_children[jj].matchable(
                                        spans@,
                                        ancestors@,
                                        k,
                                        start,
                                    ))
                            },
                            None => forall|jj: int, k: Timestamp|
                                0 <= jj < j && (if order == Order::Asc {
                                    entry <= k <= bound
                                } else {
                                    bound <= k <= entry
                                }) ==> !(#[trigger] orig_children[jj].matchable(
                                    spans@,
                                    ancestors@,
                                    k,
                                    start,
                                )),
                        },
                    decreases n - j,
                {
                    let b = match best {
                        Some(bb) => bb,
                        None => bound,
                    };
                    proof {
                        lemma_span_child_size_le(orig_vec, n as int, j as int);
                    }
                    let ghost pre_filters = filters@;
                    let sub = filters[j].search(spans, ancestors, entry, order, b, start);
                    match sub {
                        Some(f) => {
                            proof {
                                assert(pre_filters[j as int].matchable(
                                    spans@,
                                    ancestors@,
                                    f,
                                    start,
                                ));
                                assert(orig_children[j as int].matchable(
                                    spans@,
                                    ancestors@,
                                    f,
                                    start,
                                ));
                                assert forall|k: Timestamp|
                                    (if order == Order::Asc {
                                        entry <= k < f
                                    } else {
                                        f < k <= entry
                                    }) implies !(#[trigger] orig_children[j as int].matchable(
                                    spans@,
                                    ancestors@,
                                    k,
                                    start,
                                )) by {
                                    assert(!pre_filters[j as int].matchable(
                                        spans@,
                                        ancestors@,
                                        k,
                                        start,
                                    ));
                                }
                            }
                            best = Some(f);
                        },
                        None => {
                            proof {
                                assert forall|k: Timestamp|
                                    (if order == Order::Asc {
                                        entry <= k <= b
                                    } else {
                                        b <= k <= entry
                                    }) implies !(#[trigger] orig_children[j as int].matchable(
                                    spans@,
                                    ancestors@,
                                    k,
                                    start,
                                )) by {
                                    assert(!pre_filters[j as int].matchable(
                                        spans@,
                                        ancestors@,
                                        k,
                                        start,
                                    ));
                                }
                            }
                        },
                    }
                    j = j + 1;
                }
                proof {
                    match best {
                        Some(b) => {
                            let jj = choose|jj: int|
                                0 <= jj < n && (#[trigger] orig_children[jj]).matchable(
                                    spans@,
                                    ancestors@,
                                    b,
                                    start,
                                );
                            lemma_ispan_or_intro(orig_vec, spans@, ancestors@, b, start, jj);
                            assert forall|k: Timestamp|
                                (if order == Order::Asc {
                                    entry <= k < b
                                } else {
                                    b < k <= entry
                                }) implies !(#[trigger] orig.matchable(
                                spans@,
                                ancestors@,
                                k,
                                start,
                            )) by {
                                if orig.matchable(spans@, ancestors@, k, start) {
                                    let w = lemma_ispan_or_elim(
                                        orig_vec,
                                        spans@,
                                        ancestors@,
                                        k,
                                        start,
                                    );
                                }
                            }
                        },
                        None => {
                            assert forall|k: Timestamp|
                                (if order == Order::Asc {
                                    entry <= k <= bound
                                } else {
                                    bound <= k <= entry
                                }) implies !(#[trigger] orig.matchable(
                                spans@,
                                ancestors@,
                                k,
                                start,
                            )) by {
                                if orig.matchable(spans@, ancestors@, k, start) {
                                    let w = lemma_ispan_or_elim(
                                        orig_vec,
                                        spans@,
                                        ancestors@,
                                        k,
                                        start,
                                    );
                                }
                            }
                        },
                    }
                    lemma_ispan_or_exit(
                        *filters,
                        orig_vec,
                        spans@,
                        ancestors@,
                        entry,
                        order,
                        start,
                    );
                }
                best
            },
        }
    }
}


/// The index slices are exactly right for the stored events: `all`
/// holds every event key, `levels` and `instances` partition them, and
/// `descendents` lists each key under every span of its chain. Every
/// stored event sits at its own timestamp.
pub open spec fn event_indexes_exact(
    idx: EventIndexes,
    events: Map<Timestamp, Event>,
    anc: Map<Timestamp, Vec<SpanKey>>,
) -> bool {
    &&& (forall|k: Timestamp| idx.all@.contains(k) <==> #[trigger] events.contains_key(k))
    &&& (forall|k: Timestamp| #[trigger] events.contains_key(k) ==> events[k].timestamp == k)
    &&& (forall|l: int, k: Timestamp|
        0 <= l < 5 ==> ((#[trigger] idx.levels@[l]@.contains(k)) <==> events.contains_key(k)
            && events[k].level.spec_index() == l))
    &&& (forall|ik: u64, k: Timestamp|
        #[trigger] idx.instances@.contains_key(ik) ==> ((#[trigger] idx.instances@[ik]@.contains(
            k,
        )) <==> events.contains_key(k) && events[k].instance_key == ik))
    &&& (forall|k: Timestamp| #[trigger]
        events.contains_key(k) ==> idx.instances@.contains_key(events[k].instance_key))
    &&& (forall|sk: SpanKey, k: Timestamp|
        #[trigger] idx.descendents@.contains_key(sk) ==> ((
        #[trigger] idx.descendents@[sk]@.contains(k)) <==> events.contains_key(k) && chain_of(
            anc,
            k,
        ).contains(sk)))
    &&& (forall|k: Timestamp, sk: SpanKey|
        events.contains_key(k) && #[trigger] chain_of(anc, k).contains(sk)
            ==> idx.descendents@.contains_key(sk))
}

impl IndexedEventFilter {
    /// Lowers a basic event filter onto the indexes. Under exact
    /// indexes, the plan can yield exactly the stored events the basic
    /// filter accepts. An absent filter, like an empty conjunction,
    /// scans everything.
    #[verifier::loop_isolation(false)]
    #[verifier::rlimit(100)]
    pub fn build(filter: Option<BasicEventFilter>, event_indexes: &EventIndexes) -> (r:
        IndexedEventFilter)
        requires
            event_indexes.wf(),
        ensures
            r.wf(),
            forall|events: Map<Timestamp, Event>, spans: Map<SpanKey, Span>, anc: Map<
                Timestamp,
                Vec<SpanKey>,
            >, k: Timestamp|
                event_indexes_exact(*event_indexes, events, anc) ==> ((#[trigger] r.matchable(
                    events,
                    spans,
                    anc,
                    k,
                )) == (events.contains_key(k) && match filter {
                    Some(f) => f.spec_matches(spans, anc, events[k]),
                    None => true,
                })),
            filter matches Some(BasicEventFilter::Attribute(a, v)) ==> (r matches
                IndexedEventFilter::Single(s, res) && s.view() == event_indexes.all@ && (
            res matches Some(NonIndexedEventFilter::Attribute(a2, v2)) && a2@ == a@ && v2@ == v@)),
            (filter matches Some(BasicEventFilter::Instance(ik))
                && !event_indexes.instances@.contains_key(ik)) ==> (r matches
                IndexedEventFilter::Single(s, res) && s.view().len() == 0 && res is None),
    {
        match filter {
            Some(f) => build_event_filter(f, event_indexes),
            None => {
                let r = IndexedEventFilter::Single(TsSlice::from_vec(&event_indexes.all), None);
                proof {
                    assert forall|events: Map<Timestamp, Event>, spans: Map<SpanKey, Span>, anc:
                        Map<Timestamp, Vec<SpanKey>>, k: Timestamp|
                        event_indexes_exact(*event_indexes, events, anc) implies ((
                    #[trigger] r.matchable(events, spans, anc, k)) == events.contains_key(k)) by {
                        assert(r.matchable(events, spans, anc, k) == r->Single_0.has(k));
                    }
                }
                r
            },
        }
    }
}

/// Lowers one basic event filter node.
#[verifier::loop_isolation(false)]
#[verifier::rlimit(100)]
fn build_event_filter(filter: BasicEventFilter, event_indexes: &EventIndexes) -> (r:
    IndexedEventFilter)
    requires
        event_indexes.wf(),
    ensures
        r.wf(),
        forall|events: Map<Timestamp, Event>, spans: Map<SpanKey, Span>, anc: Map<
            Timestamp,
            Vec<SpanKey>,
        >, k: Timestamp|
            event_indexes_exact(*event_indexes, events, anc) ==> ((#[trigger] r.matchable(
                events,
                spans,
                anc,
                k,
            )) == (events.contains_key(k) && filter.spec_matches(spans, anc, events[k]))),
        filter matches BasicEventFilter::Attribute(a, v) ==> (r matches IndexedEventFilter::Single(
            s,
            res,
        ) && s.view() == event_indexes.all@ && (res matches Some(
            NonIndexedEventFilter::Attribute(a2, v2),
        ) && a2@ == a@ && v2@ == v@)),
        (filter matches BasicEventFilter::Instance(ik)
            && !event_indexes.instances@.contains_key(ik)) ==> (r matches
            IndexedEventFilter::Single(s, res) && s.view().len() == 0 && res is None),
    decreases filter,
{
    let ghost orig = filter;
    match filter {
        BasicEventFilter::Level(level) => {
            let idx = level.index();
            let r = IndexedEventFilter::Single(TsSlice::from_vec(&event_indexes.levels[idx]), None);
            proof {
                assert forall|events: Map<Timestamp, Event>, spans: Map<SpanKey, Span>, anc: Map<
                    Timestamp,
                    Vec<SpanKey>,
                >, k: Timestamp|
                    event_indexes_exact(*event_indexes, events, anc) implies ((
                #[trigger] r.matchable(events, spans, anc, k)) == (events.contains_key(k)
                    && orig.spec_matches(spans, anc, events[k]))) by {
                    assert(r.matchable(events, spans, anc, k) == r->Single_0.has(k));
                    assert(event_indexes.levels@[idx as int]@.contains(k) == (events.contains_key(k)
                        && events[k].level.spec_index() == idx));
                }
            }
            r
        },
        BasicEventFilter::Instance(instance_key) => {
            let slice = match event_indexes.instances.get(&instance_key) {
                Some(v) => TsSlice::from_vec(v),
                None => TsSlice::empty(),
            };
            let r = IndexedEventFilter::Single(slice, None);
            proof {
                assert forall|events: Map<Timestamp, Event>, spans: Map<SpanKey, Span>, anc: Map<
                    Timestamp,
                    Vec<SpanKey>,
                >, k: Timestamp|
                    event_indexes_exact(*event_indexes, events, anc) implies ((
                #[trigger] r.matchable(events, spans, anc, k)) == (events.contains_key(k)
                    && orig.spec_matches(spans, anc, events[k]))) by {
                    assert(r.matchable(events, spans, anc, k) == r->Single_0.has(k));
                    if !event_indexes.instances@.contains_key(instance_key) {
                        if events.contains_key(k) && events[k].instance_key == instance_key {
                            assert(event_indexes.instances@.contains_key(events[k].instance_key));
                        }
                    }
                }
            }
            r
        },
        BasicEventFilter::Ancestor(ancestor_key) => {
            let slice = match event_indexes.descendents.get(&ancestor_key) {
                Some(v) => TsSlice::from_vec(v),
                None => TsSlice::empty(),
            };
            let r = IndexedEventFilter::Single(slice, None);
            proof {
                assert forall|events: Map<Timestamp, Event>, spans: Map<SpanKey, Span>, anc: Map<
                    Timestamp,
                    Vec<SpanKey>,
                >, k: Timestamp|
                    event_indexes_exact(*event_indexes, events, anc) implies ((
                #[trigger] r.matchable(events, spans, anc, k)) == (events.contains_key(k)
                    && orig.spec_matches(spans, anc, events[k]))) by {
                    assert(r.matchable(events, spans, anc, k) == r->Single_0.has(k));
                    if !event_indexes.descendents@.contains_key(ancestor_key) {
                        if events.contains_key(k) && chain_of(anc, k).contains(ancestor_key) {
                            assert(event_indexes.descendents@.contains_key(ancestor_key));
                        }
                    }
                    if events.contains_key(k) {
                        assert(events[k].timestamp == k);
                    }
                }
            }
            r
        },
        BasicEventFilter::Attribute(attribute, value) => {
            let ghost a = attribute@;
            let ghost v = value@;
            let r = IndexedEventFilter::Single(
                TsSlice::from_vec(&event_indexes.all),
                Some(NonIndexedEventFilter::Attribute(attribute, value)),
            );
            proof {
                assert forall|events: Map<Timestamp, Event>, spans: Map<SpanKey, Span>, anc: Map<
                    Timestamp,
                    Vec<SpanKey>,
                >, k: Timestamp|
                    event_indexes_exact(*event_indexes, events, anc) implies ((
                #[trigger] r.matchable(events, spans, anc, k)) == (events.contains_key(k)
                    && orig.spec_matches(spans, anc, events[k]))) by {
                    assert(r.matchable(events, spans, anc, k) == (r->Single_0.has(k)
                        && r->Single_1->Some_0.spec_matches(events, spans, anc, k)));
                    if events.contains_key(k) {
                        assert(events[k].timestamp == k);
                    }
                }
            }
            r
        },
        BasicEventFilter::And(filters) => {
            let ghost orig_vec = filters;
            let ghost orig_children = filters@;
            let mut filters = filters;
            let mut out: Vec<IndexedEventFilter> = Vec::new();
            let ghost n = orig_children.len();
            while filters.len() > 0
                invariant
                    filters@.len() + out@.len() == n,
                    filters@ =~= orig_children.skip(out@.len() as int),
                    forall|j: int| 0 <= j < out@.len() ==> (#[trigger] out@[j]).wf(),
                    forall|j: int, events: Map<Timestamp, Event>, spans: Map<SpanKey, Span>, anc:
                        Map<Timestamp, Vec<SpanKey>>, k: Timestamp|
                        0 <= j < out@.len() && event_indexes_exact(*event_indexes, events, anc)
                            ==> ((#[trigger] out@[j].matchable(events, spans, anc, k)) == (
                        events.contains_key(k) && orig_children[j].spec_matches(
                            spans,
                            anc,
                            events[k],
                        ))),
                decreases filters@.len(),
            {
                let ghost done = out@.len() as int;
                let f = filters.remove(0);
                proof {
                    assert(f == orig_children[done]);
                    assert(decreases_to!(orig => orig_vec));
                    assert(decreases_to!(orig_vec => orig_vec[done]));
                    assert(filters@ =~= orig_children.skip(done + 1));
                }
                let built = build_event_filter(f, event_indexes);
                out.push(built);
            }
            if out.len() == 0 {
                let r = IndexedEventFilter::Single(TsSlice::from_vec(&event_indexes.all), None);
                proof {
                    assert forall|events: Map<Timestamp, Event>, spans: Map<SpanKey, Span>, anc:
                        Map<Timestamp, Vec<SpanKey>>, k: Timestamp|
                        event_indexes_exact(*event_indexes, events, anc) implies ((
                    #[trigger] r.matchable(events, spans, anc, k)) == (events.contains_key(k)
                        && orig.spec_matches(spans, anc, events[k]))) by {
                        assert(r.matchable(events, spans, anc, k) == r->Single_0.has(k));
                        if events.contains_key(k) {
                            assert(orig.spec_matches(spans, anc, events[k])) by {
                                crate::filter::lemma_event_and_intro(
                                    orig_vec,
                                    spans,
                                    anc,
                                    events[k],
                                );
                            }
                        }
                    }
                }
                r
            } else {
                let ghost out_vec = out;
                let r = IndexedEventFilter::And(out);
                proof {
                    assert forall|events: Map<Timestamp, Event>, spans: Map<SpanKey, Span>, anc:
                        Map<Timestamp, Vec<SpanKey>>, k: Timestamp|
                        event_indexes_exact(*event_indexes, events, anc) implies ((
                    #[trigger] r.matchable(events, spans, anc, k)) == (events.contains_key(k)
                        && orig.spec_matches(spans, anc, events[k]))) by {
                        if r.matchable(events, spans, anc, k) {
                            lemma_ievent_and_elim(out_vec, events, spans, anc, k, 0);
                            assert(events.contains_key(k));
                            assert forall|j: int|
                                0 <= j < orig_children.len() implies (
                            #[trigger] orig_children[j]).spec_matches(spans, anc, events[k]) by {
                                lemma_ievent_and_elim(out_vec, events, spans, anc, k, j);
                            }
                            crate::filter::lemma_event_and_intro(orig_vec, spans, anc, events[k]);
                        }
                        if events.contains_key(k) && orig.spec_matches(spans, anc, events[k]) {
                            assert forall|j: int| 0 <= j < out_vec@.len() implies (
                            #[trigger] out_vec@[j]).matchable(events, spans, anc, k) by {
                                crate::filter::lemma_event_and_elim(
                                    orig_vec,
                                    spans,
                                    anc,
                                    events[k],
                                    j,
                                );
                            }
                            lemma_ievent_and_intro(out_vec, events, spans, anc, k);
                        }
                    }
                }
                r
            }
        },
        BasicEventFilter::Or(filters) => {
            let ghost orig_vec = filters;
            let ghost orig_children = filters@;
            let mut filters = filters;
            let mut out: Vec<IndexedEventFilter> = Vec::new();
            let ghost n = orig_children.len();
            while filters.len() > 0
                invariant
                    filters@.len() + out@.len() == n,
                    filters@ =~= orig_children.skip(out@.len() as int),
                    forall|j: int| 0 <= j < out@.len() ==> (#[trigger] out@[j]).wf(),
                    forall|j: int, events: Map<Timestamp, Event>, spans: Map<SpanKey, Span>, anc:
                        Map<Timestamp, Vec<SpanKey>>, k: Timestamp|
                        0 <= j < out@.len() && event_indexes_exact(*event_indexes, events, anc)
                            ==> ((#[trigger] out@[j].matchable(events, spans, anc, k)) == (
                        events.contains_key(k) && orig_children[j].spec_matches(
                            spans,
                            anc,
                            events[k],
                        ))),
                decreases filters@.len(),
            {
                let ghost done = out@.len() as int;
                let f = filters.remove(0);
                proof {
                    assert(f == orig_children[done]);
                    assert(decreases_to!(orig => orig_vec));
                    assert(decreases_to!(orig_vec => orig_vec[done]));
                    assert(filters@ =~= orig_children.skip(done + 1));
                }
                let built = build_event_filter(f, event_indexes);
                out.push(built);
            }
            let ghost out_vec = out;
            let r = IndexedEventFilter::Or(out);
            proof {
                assert forall|events: Map<Timestamp, Event>, spans: Map<SpanKey, Span>, anc: Map<
                    Timestamp,
                    Vec<SpanKey>,
                >, k: Timestamp|
                    event_indexes_exact(*event_indexes, events, anc) implies ((
                #[trigger] r.matchable(events, spans, anc, k)) == (events.contains_key(k)
                    && orig.spec_matches(spans, anc, events[k]))) by {
                    if r.matchable(events, spans, anc, k) {
                        let j = lemma_ievent_or_elim(out_vec, events, spans, anc, k);
                        assert(events.contains_key(k));
                        crate::filter::lemma_event_or_intro(orig_vec, spans, anc, events[k], j);
                    }
                    if events.contains_key(k) && orig.spec_matches(spans, anc, events[k]) {
                        let j = crate::filter::lemma_event_or_elim(orig_vec, spans, anc, events[k]);
                        lemma_ievent_or_intro(out_vec, events, spans, anc, k, j);
                    }
                }
            }
            r
        },
    }
}


/// Whether a name's slice holds a key.
pub open spec fn name_slice_has(
    names: Seq<(String, Vec<Timestamp>)>,
    nm: Seq<char>,
    k: Timestamp,
) -> bool {
    match names_get(names, nm) {
        Some(v) => v@.contains(k),
        None => false,
    }
}

/// Whether a duration band holds a key.
pub open spec fn band_has(idx: SpanIndexes, b: int, k: Timestamp) -> bool {
    0 <= b < 64 && idx.durations.bands@[b]@.contains(k)
}

/// The index slices are exactly right for the stored spans.
pub open spec fn span_indexes_exact(
    idx: SpanIndexes,
    spans: Map<SpanKey, Span>,
    anc: Map<Timestamp, Vec<SpanKey>>,
) -> bool {
    &&& (forall|k: Timestamp| idx.all@.contains(k) <==> #[trigger] spans.contains_key(k))
    &&& (forall|k: Timestamp| #[trigger] spans.contains_key(k) ==> spans[k].created_at == k)
    &&& (forall|l: int, k: Timestamp|
        0 <= l < 5 ==> ((#[trigger] idx.levels@[l]@.contains(k)) <==> spans.contains_key(k)
            && spans[k].level.spec_index() == l))
    &&& (forall|ik: u64, k: Timestamp|
        #[trigger] idx.instances@.contains_key(ik) ==> ((#[trigger] idx.instances@[ik]@.contains(
            k,
        )) <==> spans.contains_key(k) && spans[k].instance_key == ik))
    &&& (forall|k: Timestamp| #[trigger]
        spans.contains_key(k) ==> idx.instances@.contains_key(spans[k].instance_key))
    &&& (forall|sk: SpanKey, k: Timestamp|
        #[trigger] idx.descendents@.contains_key(sk) ==> ((
        #[trigger] idx.descendents@[sk]@.contains(k)) <==> spans.contains_key(k) && chain_of(
            anc,
            k,
        ).contains(sk)))
    &&& (forall|k: Timestamp, sk: SpanKey|
        spans.contains_key(k) && #[trigger] chain_of(anc, k).contains(sk)
            ==> idx.descendents@.contains_key(sk))
    &&& (forall|nm: Seq<char>, k: Timestamp|
        #[trigger] name_slice_has(idx.names@, nm, k) ==> spans.contains_key(k) && spans[k].name@
            == nm)
    &&& (forall|k: Timestamp| #[trigger]
        spans.contains_key(k) ==> name_slice_has(idx.names@, spans[k].name@, k))
    &&& (forall|k: Timestamp|
        idx.roots@.contains(k) <==> #[trigger] spans.contains_key(k) && spans[k].parent_key
            is None)
    &&& (forall|b: int, k: Timestamp|
        #[trigger] band_has(idx, b, k) ==> spans.contains_key(k) && (match spans[k].spec_duration() {
            Some(d) => band_start(b) <= d && (d < band_end(b) || b == 63),
            None => b == 63,
        }))
    &&& (forall|k: Timestamp| #[trigger]
        spans.contains_key(k) ==> exists|b: int| band_has(idx, b, k))
}


impl IndexedSpanFilter {
    /// Lowers a basic span filter onto the indexes. Under exact
    /// indexes, the plan can yield exactly the stored spans the basic
    /// filter accepts that can still be alive at the query start.
    #[verifier::loop_isolation(false)]
    #[verifier::rlimit(100)]
    pub fn build(filter: Option<BasicSpanFilter>, span_indexes: &SpanIndexes) -> (r:
        IndexedSpanFilter)
        requires
            span_indexes.wf(),
        ensures
            r.wf(),
            forall|spans: Map<SpanKey, Span>, anc: Map<Timestamp, Vec<SpanKey>>, k: Timestamp,
                start: Timestamp|
                span_indexes_exact(*span_indexes, spans, anc) ==> ((#[trigger] r.matchable(
                    spans,
                    anc,
                    k,
                    start,
                )) == (spans.contains_key(k) && span_live_at(spans, k, start) && match filter {
                    Some(f) => f.spec_matches(spans, anc, spans[k]),
                    None => true,
                })),
            forall|spans: Map<SpanKey, Span>, anc: Map<Timestamp, Vec<SpanKey>>|
                #![trigger span_indexes_exact(*span_indexes, spans, anc)]
                span_indexes_exact(*span_indexes, spans, anc) ==> r.keys_stored(spans)
                    && span_plan_sound(r, spans),
            filter matches Some(BasicSpanFilter::Duration(df)) ==> (r matches
                IndexedSpanFilter::Or(fs) && (forall|j: int|
                0 <= j < fs@.len() ==> ((#[trigger] fs@[j]) matches IndexedSpanFilter::Stratified(
                    sl,
                    rg,
                    res,
                ) && crate::filter::spec_band_decision(df, rg.start, rg.end) != Some::<bool>(false)
                    && (res is None <==> crate::filter::spec_band_decision(df, rg.start, rg.end)
                    == Some::<bool>(true)) && (res matches Some(nf) ==> nf
                    == NonIndexedSpanFilter::Duration(df))))),
    {
        match filter {
            Some(f) => build_span_filter(f, span_indexes),
            None => {
                let r = IndexedSpanFilter::Single(TsSlice::from_vec(&span_indexes.all), None);
                proof {
                    assert forall|spans: Map<SpanKey, Span>, anc: Map<Timestamp, Vec<SpanKey>>, k:
                        Timestamp, start: Timestamp|
                        span_indexes_exact(*span_indexes, spans, anc) implies ((
                    #[trigger] r.matchable(spans, anc, k, start)) == (spans.contains_key(k)
                        && span_live_at(spans, k, start))) by {
                        assert(r.matchable(spans, anc, k, start) == (r->Single_0.has(k)
                            && span_live_at(spans, k, start)));
                    }
                    assert forall|spans: Map<SpanKey, Span>, anc: Map<Timestamp, Vec<SpanKey>>|
                        #![trigger span_indexes_exact(*span_indexes, spans, anc)]
                        span_indexes_exact(*span_indexes, spans, anc) implies r.keys_stored(spans)
                        && span_plan_sound(r, spans) by {
                        assert forall|i: int|
                            0 <= i < r->Single_0.view().len() implies spans.contains_key(
                            #[trigger] r->Single_0.view()[i],
                        ) by {
                            let kk = r->Single_0.view()[i];
                            assert(r->Single_0.has(kk));
                            assert(span_indexes.all@.contains(kk));
                        }
                    }
                }
                r
            },
        }
    }
}

/// Lowers one basic span filter node.
#[verifier::loop_isolation(false)]
#[verifier::rlimit(100)]
fn build_span_filter(filter: BasicSpanFilter, span_indexes: &SpanIndexes) -> (r: IndexedSpanFilter)
    requires
        span_indexes.wf(),
    ensures
        r.wf(),
        filter matches BasicSpanFilter::Duration(df) ==> (r matches IndexedSpanFilter::Or(fs) && (
        forall|j: int|
            0 <= j < fs@.len() ==> ((#[trigger] fs@[j]) matches IndexedSpanFilter::Stratified(
                sl,
                rg,
                res,
            ) && crate::filter::spec_band_decision(df, rg.start, rg.end) != Some::<bool>(false)
                && (res is None <==> crate::filter::spec_band_decision(df, rg.start, rg.end)
                == Some::<bool>(true)) && (res matches Some(nf) ==> nf
                == NonIndexedSpanFilter::Duration(df))))),
        forall|spans: Map<SpanKey, Span>, anc: Map<Timestamp, Vec<SpanKey>>, k: Timestamp, start:
            Timestamp|
            span_indexes_exact(*span_indexes, spans, anc) ==> ((#[trigger] r.matchable(
                spans,
                anc,
                k,
                start,
            )) == (spans.contains_key(k) && span_live_at(spans, k, start) && filter.spec_matches(
                spans,
                anc,
                spans[k],
            ))),
        forall|spans: Map<SpanKey, Span>, anc: Map<Timestamp, Vec<SpanKey>>|
            #![trigger span_indexes_exact(*span_indexes, spans, anc)]
            span_indexes_exact(*span_indexes, spans, anc) ==> r.keys_stored(spans)
                && span_plan_sound(r, spans),
    decreases filter,
{
    let ghost orig = filter;
    match filter {
        BasicSpanFilter::Level(level) => {
            let idx = level.index();
            let r = IndexedSpanFilter::Single(TsSlice::from_vec(&span_indexes.levels[idx]), None);
            proof {
                assert forall|spans: Map<SpanKey, Span>, anc: Map<Timestamp, Vec<SpanKey>>, k:
                    Timestamp, start: Timestamp|
                    span_indexes_exact(*span_indexes, spans, anc) implies ((#[trigger] r.matchable(
                    spans,
                    anc,
                    k,
                    start,
                )) == (spans.contains_key(k) && span_live_at(spans, k, start) && orig.spec_matches(
                    spans,
                    anc,
                    spans[k],
                ))) by {
                    assert(r.matchable(spans, anc, k, start) == (r->Single_0.has(k) && span_live_at(
                        spans,
                        k,
                        start,
                    )));
                    assert(span_indexes.levels@[idx as int]@.contains(k) == (spans.contains_key(k)
                        && spans[k].level.spec_index() == idx));
                }
                assert forall|spans: Map<SpanKey, Span>, anc: Map<Timestamp, Vec<SpanKey>>|
                    #![trigger span_indexes_exact(*span_indexes, spans, anc)]
                    span_indexes_exact(*span_indexes, spans, anc) implies r.keys_stored(spans)
                    && span_plan_sound(r, spans) by {
                    assert forall|i: int|
                        0 <= i < r->Single_0.view().len() implies spans.contains_key(
                        #[trigger] r->Single_0.view()[i],
                    ) by {
                        let kk = r->Single_0.view()[i];
                        assert(r->Single_0.has(kk));
                        assert(span_indexes.levels@[idx as int]@.contains(kk));
                    }
                }
            }
            r
        },
        BasicSpanFilter::Duration(duration_filter) => {
            let bands = span_indexes.durations.to_stratified_indexes();
            let mut out: Vec<IndexedSpanFilter> = Vec::new();
            let mut b: usize = 0;
            while b < 64
                invariant
                    bands@.len() == 64,
                    forall|i: int|
                        0 <= i < 64 ==> (#[trigger] bands@[i]).0@ == span_indexes.durations.bands@[i]@
                            && bands@[i].1.start == band_start(i) && bands@[i].1.end == band_end(i),
                    span_indexes.wf(),
                    0 <= b <= 64,
                    forall|j: int| 0 <= j < out@.len() ==> (#[trigger] out@[j]).wf(),
                    forall|j: int|
                        0 <= j < out@.len() ==> ((#[trigger] out@[j]) matches
                            IndexedSpanFilter::Stratified(sl, rg, res)
                            && crate::filter::spec_band_decision(duration_filter, rg.start, rg.end)
                            != Some::<bool>(false) && (res is None
                            <==> crate::filter::spec_band_decision(
                            duration_filter,
                            rg.start,
                            rg.end,
                        ) == Some::<bool>(true)) && (res matches Some(nf) ==> nf
                            == NonIndexedSpanFilter::Duration(duration_filter))),
                    forall|j: int, spans: Map<SpanKey, Span>, anc: Map<Timestamp, Vec<SpanKey>>|
                        #![trigger span_indexes_exact(*span_indexes, spans, anc), out@[j].keys_stored(spans)]
                        0 <= j < out@.len() && span_indexes_exact(*span_indexes, spans, anc) ==> (
                        out@[j].keys_stored(spans)) && span_plan_sound(out@[j], spans),
                    forall|spans: Map<SpanKey, Span>, anc: Map<Timestamp, Vec<SpanKey>>, k:
                        Timestamp, start: Timestamp|
                        #![trigger span_indexes_exact(*span_indexes, spans, anc), span_live_at(spans, k, start)]
                        span_indexes_exact(*span_indexes, spans, anc) ==> ((exists|j: int|
                            0 <= j < out@.len() && (#[trigger] out@[j].matchable(
                                spans,
                                anc,
                                k,
                                start,
                            ))) == (exists|bb: int|
                            0 <= bb < b && band_has(*span_indexes, bb, k) && span_live_at(
                                spans,
                                k,
                                start,
                            ) && crate::filter::duration_filter_matches(
                                duration_filter,
                                spans[k].spec_duration(),
                            ))),
                decreases 64 - b,
            {
                let band_vec = &bands[b].0;
                let slice = TsSlice::from_vec(band_vec);
                let ghost pre_out = out@;
                match duration_filter.matches_duration_range(&bands[b].1) {
                    Some(true) => {
                        out.push(IndexedSpanFilter::Stratified(slice, bands[b].1.start..bands[b].1.end, None));
                    },
                    None => {
                        out.push(
                            IndexedSpanFilter::Stratified(
                                slice,
                                bands[b].1.start..bands[b].1.end,
                                Some(NonIndexedSpanFilter::Duration(duration_filter)),
                            ),
                        );
                    },
                    Some(false) => {},
                }
                proof {
                    let bi = b as int;
                    assert forall|j: int, spans: Map<SpanKey, Span>, anc: Map<Timestamp, Vec<SpanKey>>|
                        #![trigger span_indexes_exact(*span_indexes, spans, anc), out@[j].keys_stored(spans)]
                        0 <= j < out@.len() && span_indexes_exact(*span_indexes, spans, anc)
                        implies (out@[j].keys_stored(spans)) && span_plan_sound(out@[j], spans) by {
                        if j < pre_out.len() {
                            assert(pre_out[j].keys_stored(spans) && span_plan_sound(
                                pre_out[j],
                                spans,
                            ));
                        } else {
                            let child = out@[j];
                            assert forall|i: int|
                                0 <= i < child->Stratified_0.view().len() implies {
                                let kk = #[trigger] child->Stratified_0.view()[i];
                                spans.contains_key(kk) && spans[kk].created_at == kk && (
                                match spans[kk].spec_duration() {
                                    Some(d) => d < child->Stratified_1.end
                                        || child->Stratified_1.end == u64::MAX,
                                    None => child->Stratified_1.end == u64::MAX,
                                })
                            } by {
                                let kk = child->Stratified_0.view()[i];
                                assert(child->Stratified_0.has(kk));
                                assert(span_indexes.durations.bands@[bi]@.contains(kk));
                                assert(band_has(*span_indexes, bi, kk));
                                if bi == 63 {
                                    assert(child->Stratified_1.end == band_end(63));
                                }
                            }
                        }
                    }
                    assert forall|spans: Map<SpanKey, Span>, anc: Map<Timestamp, Vec<SpanKey>>, k:
                        Timestamp, start: Timestamp|
                        #![trigger span_indexes_exact(*span_indexes, spans, anc), span_live_at(spans, k, start)]
                        span_indexes_exact(*span_indexes, spans, anc) implies ((exists|j: int|
                            0 <= j < out@.len() && (#[trigger] out@[j].matchable(
                                spans,
                                anc,
                                k,
                                start,
                            ))) == (exists|bb: int|
                            0 <= bb < bi + 1 && band_has(*span_indexes, bb, k) && span_live_at(
                                spans,
                                k,
                                start,
                            ) && crate::filter::duration_filter_matches(
                                duration_filter,
                                spans[k].spec_duration(),
                            ))) by {
                        let dfm = crate::filter::duration_filter_matches(
                            duration_filter,
                            spans[k].spec_duration(),
                        );
                        if exists|j: int|
                            0 <= j < out@.len() && (#[trigger] out@[j].matchable(
                                spans,
                                anc,
                                k,
                                start,
                            )) {
                            let j = choose|j: int|
                                0 <= j < out@.len() && (#[trigger] out@[j].matchable(
                                    spans,
                                    anc,
                                    k,
                                    start,
                                ));
                            if j < pre_out.len() {
                                assert(pre_out[j].matchable(spans, anc, k, start));
                                let bb = choose|bb: int|
                                    0 <= bb < bi && band_has(*span_indexes, bb, k) && span_live_at(
                                        spans,
                                        k,
                                        start,
                                    ) && dfm;
                                assert(0 <= bb < bi + 1 && band_has(*span_indexes, bb, k)
                                    && span_live_at(spans, k, start) && dfm);
                            } else {
                                assert(out@[j].matchable(spans, anc, k, start));
                                assert(band_has(*span_indexes, bi, k));
                                assert(spans.contains_key(k));
                                assert(dfm) by {
                                    assert(crate::filter::band_member(
                                        band_start(bi),
                                        band_end(bi),
                                        spans[k].spec_duration(),
                                    ));
                                }
                            }
                        }
                        if exists|bb: int|
                            0 <= bb < bi + 1 && band_has(*span_indexes, bb, k) && span_live_at(
                                spans,
                                k,
                                start,
                            ) && dfm {
                            let bb = choose|bb: int|
                                0 <= bb < bi + 1 && band_has(*span_indexes, bb, k) && span_live_at(
                                    spans,
                                    k,
                                    start,
                                ) && dfm;
                            if bb < bi {
                                let j = choose|j: int|
                                    0 <= j < pre_out.len() && (#[trigger] pre_out[j].matchable(
                                        spans,
                                        anc,
                                        k,
                                        start,
                                    ));
                                assert(out@[j].matchable(spans, anc, k, start));
                            } else {
                                assert(band_has(*span_indexes, bi, k));
                                assert(spans.contains_key(k));
                                assert(crate::filter::band_member(
                                    band_start(bi),
                                    band_end(bi),
                                    spans[k].spec_duration(),
                                ));
                                let last = out@.len() - 1;
                                if out@.len() > pre_out.len() {
                                    assert(out@[last].matchable(spans, anc, k, start));
                                } else {
                                    assert(!dfm);
                                }
                            }
                        }
                    }
                }
                b = b + 1;
            }
            let ghost out_vec = out;
            let r = IndexedSpanFilter::Or(out);
            proof {
                assert forall|spans: Map<SpanKey, Span>, anc: Map<Timestamp, Vec<SpanKey>>, k:
                    Timestamp, start: Timestamp|
                    span_indexes_exact(*span_indexes, spans, anc) implies ((#[trigger] r.matchable(
                    spans,
                    anc,
                    k,
                    start,
                )) == (spans.contains_key(k) && span_live_at(spans, k, start) && orig.spec_matches(
                    spans,
                    anc,
                    spans[k],
                ))) by {
                    if r.matchable(spans, anc, k, start) {
                        let j = lemma_ispan_or_elim(out_vec, spans, anc, k, start);
                        assert(exists|jj: int|
                            0 <= jj < out_vec@.len() && (#[trigger] out_vec@[jj].matchable(
                                spans,
                                anc,
                                k,
                                start,
                            )));
                    }
                    if spans.contains_key(k) && span_live_at(spans, k, start) && orig.spec_matches(
                        spans,
                        anc,
                        spans[k],
                    ) {
                        assert(exists|bb: int| band_has(*span_indexes, bb, k));
                        let bb = choose|bb: int| #[trigger] band_has(*span_indexes, bb, k);
                        assert(0 <= bb < 64);
                        assert(exists|j: int|
                            0 <= j < out_vec@.len() && (#[trigger] out_vec@[j].matchable(
                                spans,
                                anc,
                                k,
                                start,
                            )));
                        let j = choose|j: int|
                            0 <= j < out_vec@.len() && (#[trigger] out_vec@[j].matchable(
                                spans,
                                anc,
                                k,
                                start,
                            ));
                        lemma_ispan_or_intro(out_vec, spans, anc, k, start, j);
                    }
                }
                assert forall|spans: Map<SpanKey, Span>, anc: Map<Timestamp, Vec<SpanKey>>|
                    #![trigger span_indexes_exact(*span_indexes, spans, anc)]
                    span_indexes_exact(*span_indexes, spans, anc) implies r.keys_stored(spans)
                    && span_plan_sound(r, spans) by {
                    assert forall|j: int|
                        0 <= j < out_vec@.len() implies (#[trigger] out_vec@[j]).keys_stored(spans)
                        && span_plan_sound(out_vec@[j], spans) by {
                        assert(out_vec@[j].keys_stored(spans));
                    }
                }
            }
            r
        },
        BasicSpanFilter::Created(comparison) => {
            let mut slice = TsSlice::from_vec(&span_indexes.all);
            match comparison {
                crate::filter::TimestampComparisonFilter::Gt(value) => {
                    if value == u64::MAX {
                        slice = TsSlice::empty();
                    } else {
                        slice.advance_to(value + 1);
                    }
                },
                crate::filter::TimestampComparisonFilter::Gte(value) => {
                    slice.advance_to(value);
                },
                crate::filter::TimestampComparisonFilter::Lte(value) => {
                    slice.retreat_to(value);
                },
                crate::filter::TimestampComparisonFilter::Lt(value) => {
                    if value == 0 {
                        slice = TsSlice::empty();
                    } else {
                        slice.retreat_to(value - 1);
                    }
                },
            }
            let r = IndexedSpanFilter::Single(slice, None);
            proof {
                assert forall|spans: Map<SpanKey, Span>, anc: Map<Timestamp, Vec<SpanKey>>, k:
                    Timestamp, start: Timestamp|
                    span_indexes_exact(*span_indexes, spans, anc) implies ((#[trigger] r.matchable(
                    spans,
                    anc,
                    k,
                    start,
                )) == (spans.contains_key(k) && span_live_at(spans, k, start) && orig.spec_matches(
                    spans,
                    anc,
                    spans[k],
                ))) by {
                    assert(r.matchable(spans, anc, k, start) == (r->Single_0.has(k) && span_live_at(
                        spans,
                        k,
                        start,
                    )));
                    if spans.contains_key(k) {
                        assert(spans[k].created_at == k);
                    }
                }
                assert forall|spans: Map<SpanKey, Span>, anc: Map<Timestamp, Vec<SpanKey>>|
                    #![trigger span_indexes_exact(*span_indexes, spans, anc)]
                    span_indexes_exact(*span_indexes, spans, anc) implies r.keys_stored(spans)
                    && span_plan_sound(r, spans) by {
                    assert forall|i: int|
                        0 <= i < r->Single_0.view().len() implies spans.contains_key(
                        #[trigger] r->Single_0.view()[i],
                    ) by {
                        let kk = r->Single_0.view()[i];
                        assert(r->Single_0.has(kk));
                        assert(span_indexes.all@.contains(kk));
                    }
                }
            }
            r
        },
        BasicSpanFilter::Instance(instance_key) => {
            let slice = match span_indexes.instances.get(&instance_key) {
                Some(v) => TsSlice::from_vec(v),
                None => TsSlice::empty(),
            };
            let r = IndexedSpanFilter::Single(slice, None);
            proof {
                assert forall|spans: Map<SpanKey, Span>, anc: Map<Timestamp, Vec<SpanKey>>, k:
                    Timestamp, start: Timestamp|
                    span_indexes_exact(*span_indexes, spans, anc) implies ((#[trigger] r.matchable(
                    spans,
                    anc,
                    k,
                    start,
                )) == (spans.contains_key(k) && span_live_at(spans, k, start) && orig.spec_matches(
                    spans,
                    anc,
                    spans[k],
                ))) by {
                    assert(r.matchable(spans, anc, k, start) == (r->Single_0.has(k) && span_live_at(
                        spans,
                        k,
                        start,
                    )));
                    if !span_indexes.instances@.contains_key(instance_key) {
                        if spans.contains_key(k) && spans[k].instance_key == instance_key {
                            assert(span_indexes.instances@.contains_key(spans[k].instance_key));
                        }
                    }
                }
                assert forall|spans: Map<SpanKey, Span>, anc: Map<Timestamp, Vec<SpanKey>>|
                    #![trigger span_indexes_exact(*span_indexes, spans, anc)]
                    span_indexes_exact(*span_indexes, spans, anc) implies r.keys_stored(spans)
                    && span_plan_sound(r, spans) by {
                    assert forall|i: int|
                        0 <= i < r->Single_0.view().len() implies spans.contains_key(
                        #[trigger] r->Single_0.view()[i],
                    ) by {
                        let kk = r->Single_0.view()[i];
                        assert(r->Single_0.has(kk));
                        if span_indexes.instances@.contains_key(instance_key) {
                            assert(span_indexes.instances@[instance_key]@.contains(kk));
                        }
                    }
                }
            }
            r
        },
        BasicSpanFilter::Name(value) => {
            let ghost nm = value@;
            let slice = match span_indexes.name_slice(value.as_str()) {
                Some(v) => TsSlice::from_vec(v),
                None => TsSlice::empty(),
            };
            let r = IndexedSpanFilter::Single(slice, None);
            proof {
                assert forall|spans: Map<SpanKey, Span>, anc: Map<Timestamp, Vec<SpanKey>>, k:
                    Timestamp, start: Timestamp|
                    span_indexes_exact(*span_indexes, spans, anc) implies ((#[trigger] r.matchable(
                    spans,
                    anc,
                    k,
                    start,
                )) == (spans.contains_key(k) && span_live_at(spans, k, start) && orig.spec_matches(
                    spans,
                    anc,
                    spans[k],
                ))) by {
                    assert(r.matchable(spans, anc, k, start) == (r->Single_0.has(k) && span_live_at(
                        spans,
                        k,
                        start,
                    )));
                    if r->Single_0.has(k) {
                        assert(name_slice_has(span_indexes.names@, nm, k));
                    }
                    if spans.contains_key(k) && spans[k].name@ == nm {
                        assert(name_slice_has(span_indexes.names@, spans[k].name@, k));
                    }
                }
                assert forall|spans: Map<SpanKey, Span>, anc: Map<Timestamp, Vec<SpanKey>>|
                    #![trigger span_indexes_exact(*span_indexes, spans, anc)]
                    span_indexes_exact(*span_indexes, spans, anc) implies r.keys_stored(spans)
                    && span_plan_sound(r, spans) by {
                    assert forall|i: int|
                        0 <= i < r->Single_0.view().len() implies spans.contains_key(
                        #[trigger] r->Single_0.view()[i],
                    ) by {
                        let kk = r->Single_0.view()[i];
                        assert(r->Single_0.has(kk));
                        assert(name_slice_has(span_indexes.names@, nm, kk));
                    }
                }
            }
            r
        },
        BasicSpanFilter::Ancestor(ancestor_key) => {
            let slice = match span_indexes.descendents.get(&ancestor_key) {
                Some(v) => TsSlice::from_vec(v),
                None => TsSlice::empty(),
            };
            let r = IndexedSpanFilter::Single(slice, None);
            proof {
                assert forall|spans: Map<SpanKey, Span>, anc: Map<Timestamp, Vec<SpanKey>>, k:
                    Timestamp, start: Timestamp|
                    span_indexes_exact(*span_indexes, spans, anc) implies ((#[trigger] r.matchable(
                    spans,
                    anc,
                    k,
                    start,
                )) == (spans.contains_key(k) && span_live_at(spans, k, start) && orig.spec_matches(
                    spans,
                    anc,
                    spans[k],
                ))) by {
                    assert(r.matchable(spans, anc, k, start) == (r->Single_0.has(k) && span_live_at(
                        spans,
                        k,
                        start,
                    )));
                    if !span_indexes.descendents@.contains_key(ancestor_key) {
                        if spans.contains_key(k) && chain_of(anc, k).contains(ancestor_key) {
                            assert(span_indexes.descendents@.contains_key(ancestor_key));
                        }
                    }
                    if spans.contains_key(k) {
                        assert(spans[k].created_at == k);
                    }
                }
                assert forall|spans: Map<SpanKey, Span>, anc: Map<Timestamp, Vec<SpanKey>>|
                    #![trigger span_indexes_exact(*span_indexes, spans, anc)]
                    span_indexes_exact(*span_indexes, spans, anc) implies r.keys_stored(spans)
                    && span_plan_sound(r, spans) by {
                    assert forall|i: int|
                        0 <= i < r->Single_0.view().len() implies spans.contains_key(
                        #[trigger] r->Single_0.view()[i],
                    ) by {
                        let kk = r->Single_0.view()[i];
                        assert(r->Single_0.has(kk));
                        if span_indexes.descendents@.contains_key(ancestor_key) {
                            assert(span_indexes.descendents@[ancestor_key]@.contains(kk));
                        }
                    }
                }
            }
            r
        },
        BasicSpanFilter::Root => {
            let r = IndexedSpanFilter::Single(TsSlice::from_vec(&span_indexes.roots), None);
            proof {
                assert forall|spans: Map<SpanKey, Span>, anc: Map<Timestamp, Vec<SpanKey>>, k:
                    Timestamp, start: Timestamp|
                    span_indexes_exact(*span_indexes, spans, anc) implies ((#[trigger] r.matchable(
                    spans,
                    anc,
                    k,
                    start,
                )) == (spans.contains_key(k) && span_live_at(spans, k, start) && orig.spec_matches(
                    spans,
                    anc,
                    spans[k],
                ))) by {
                    assert(r.matchable(spans, anc, k, start) == (r->Single_0.has(k) && span_live_at(
                        spans,
                        k,
                        start,
                    )));
                }
                assert forall|spans: Map<SpanKey, Span>, anc: Map<Timestamp, Vec<SpanKey>>|
                    #![trigger span_indexes_exact(*span_indexes, spans, anc)]
                    span_indexes_exact(*span_indexes, spans, anc) implies r.keys_stored(spans)
                    && span_plan_sound(r, spans) by {
                    assert forall|i: int|
                        0 <= i < r->Single_0.view().len() implies spans.contains_key(
                        #[trigger] r->Single_0.view()[i],
                    ) by {
                        let kk = r->Single_0.view()[i];
                        assert(r->Single_0.has(kk));
                        assert(span_indexes.roots@.contains(kk));
                    }
                }
            }
            r
        },
        BasicSpanFilter::Attribute(attribute, value) => {
            let r = IndexedSpanFilter::Single(
                TsSlice::from_vec(&span_indexes.all),
                Some(NonIndexedSpanFilter::Attribute(attribute, value)),
            );
            proof {
                assert forall|spans: Map<SpanKey, Span>, anc: Map<Timestamp, Vec<SpanKey>>, k:
                    Timestamp, start: Timestamp|
                    span_indexes_exact(*span_indexes, spans, anc) implies ((#[trigger] r.matchable(
                    spans,
                    anc,
                    k,
                    start,
                )) == (spans.contains_key(k) && span_live_at(spans, k, start) && orig.spec_matches(
                    spans,
                    anc,
                    spans[k],
                ))) by {
                    assert(r.matchable(spans, anc, k, start) == (r->Single_0.has(k) && span_live_at(
                        spans,
                        k,
                        start,
                    ) && r->Single_1->Some_0.spec_matches(spans, anc, k)));
                    if spans.contains_key(k) {
                        assert(spans[k].created_at == k);
                    }
                }
                assert forall|spans: Map<SpanKey, Span>, anc: Map<Timestamp, Vec<SpanKey>>|
                    #![trigger span_indexes_exact(*span_indexes, spans, anc)]
                    span_indexes_exact(*span_indexes, spans, anc) implies r.keys_stored(spans)
                    && span_plan_sound(r, spans) by {
                    assert forall|i: int|
                        0 <= i < r->Single_0.view().len() implies spans.contains_key(
                        #[trigger] r->Single_0.view()[i],
                    ) by {
                        let kk = r->Single_0.view()[i];
                        assert(r->Single_0.has(kk));
                        assert(span_indexes.all@.contains(kk));
                    }
                }
            }
            r
        },
        BasicSpanFilter::And(filters) => {
            let ghost orig_vec = filters;
            let ghost orig_children = filters@;
            let mut filters = filters;
            let mut out: Vec<IndexedSpanFilter> = Vec::new();
            let ghost n = orig_children.len();
            while filters.len() > 0
                invariant
                    span_indexes.wf(),
                    filters@.len() + out@.len() == n,
                    filters@ =~= orig_children.skip(out@.len() as int),
                    forall|j: int| 0 <= j < out@.len() ==> (#[trigger] out@[j]).wf(),
                    forall|j: int, spans: Map<SpanKey, Span>, anc: Map<Timestamp, Vec<SpanKey>>|
                        #![trigger span_indexes_exact(*span_indexes, spans, anc), out@[j].keys_stored(spans)]
                        0 <= j < out@.len() && span_indexes_exact(*span_indexes, spans, anc) ==> (
                        out@[j].keys_stored(spans)) && span_plan_sound(out@[j], spans),
                    forall|j: int, spans: Map<SpanKey, Span>, anc: Map<Timestamp, Vec<SpanKey>>, k:
                        Timestamp, start: Timestamp|
                        0 <= j < out@.len() && span_indexes_exact(*span_indexes, spans, anc) ==> ((
                        #[trigger] out@[j].matchable(spans, anc, k, start)) == (spans.contains_key(
                            k,
                        ) && span_live_at(spans, k, start) && orig_children[j].spec_matches(
                            spans,
                            anc,
                            spans[k],
                        ))),
                decreases filters@.len(),
            {
                let ghost done = out@.len() as int;
                let f = filters.remove(0);
                proof {
                    assert(f == orig_children[done]);
                    assert(decreases_to!(orig => orig_vec));
                    assert(decreases_to!(orig_vec => orig_vec[done]));
                    assert(filters@ =~= orig_children.skip(done + 1));
                }
                let built = build_span_filter(f, span_indexes);
                out.push(built);
            }
            if out.len() == 0 {
                let r = IndexedSpanFilter::Single(TsSlice::from_vec(&span_indexes.all), None);
                proof {
                    assert forall|spans: Map<SpanKey, Span>, anc: Map<Timestamp, Vec<SpanKey>>, k:
                        Timestamp, start: Timestamp|
                        span_indexes_exact(*span_indexes, spans, anc) implies ((
                    #[trigger] r.matchable(spans, anc, k, start)) == (spans.contains_key(k)
                        && span_live_at(spans, k, start) && orig.spec_matches(
                        spans,
                        anc,
                        spans[k],
                    ))) by {
                        assert(r.matchable(spans, anc, k, start) == (r->Single_0.has(k)
                            && span_live_at(spans, k, start)));
                        if spans.contains_key(k) {
                            assert(orig.spec_matches(spans, anc, spans[k])) by {
                                crate::filter::lemma_span_and_intro(orig_vec, spans, anc, spans[k]);
                            }
                        }
                    }
                    assert forall|spans: Map<SpanKey, Span>, anc: Map<Timestamp, Vec<SpanKey>>|
                        #![trigger span_indexes_exact(*span_indexes, spans, anc)]
                        span_indexes_exact(*span_indexes, spans, anc) implies r.keys_stored(spans)
                        && span_plan_sound(r, spans) by {
                        assert forall|i: int|
                            0 <= i < r->Single_0.view().len() implies spans.contains_key(
                            #[trigger] r->Single_0.view()[i],
                        ) by {
                            let kk = r->Single_0.view()[i];
                            assert(r->Single_0.has(kk));
                            assert(span_indexes.all@.contains(kk));
                        }
                    }
                }
                r
            } else {
                let ghost out_vec = out;
                let r = IndexedSpanFilter::And(out);
                proof {
                    assert forall|spans: Map<SpanKey, Span>, anc: Map<Timestamp, Vec<SpanKey>>, k:
                        Timestamp, start: Timestamp|
                        span_indexes_exact(*span_indexes, spans, anc) implies ((
                    #[trigger] r.matchable(spans, anc, k, start)) == (spans.contains_key(k)
                        && span_live_at(spans, k, start) && orig.spec_matches(
                        spans,
                        anc,
                        spans[k],
                    ))) by {
                        if r.matchable(spans, anc, k, start) {
                            lemma_ispan_and_elim(out_vec, spans, anc, k, start, 0);
                            assert(spans.contains_key(k) && span_live_at(spans, k, start));
                            assert forall|j: int|
                                0 <= j < orig_children.len() implies (
                            #[trigger] orig_children[j]).spec_matches(spans, anc, spans[k]) by {
                                lemma_ispan_and_elim(out_vec, spans, anc, k, start, j);
                            }
                            crate::filter::lemma_span_and_intro(orig_vec, spans, anc, spans[k]);
                        }
                        if spans.contains_key(k) && span_live_at(spans, k, start)
                            && orig.spec_matches(spans, anc, spans[k]) {
                            assert forall|j: int| 0 <= j < out_vec@.len() implies (
                            #[trigger] out_vec@[j]).matchable(spans, anc, k, start) by {
                                crate::filter::lemma_span_and_elim(
                                    orig_vec,
                                    spans,
                                    anc,
                                    spans[k],
                                    j,
                                );
                            }
                            lemma_ispan_and_intro(out_vec, spans, anc, k, start);
                        }
                    }
                    assert forall|spans: Map<SpanKey, Span>, anc: Map<Timestamp, Vec<SpanKey>>|
                        #![trigger span_indexes_exact(*span_indexes, spans, anc)]
                        span_indexes_exact(*span_indexes, spans, anc) implies r.keys_stored(spans)
                        && span_plan_sound(r, spans) by {
                        assert forall|j: int|
                            0 <= j < out_vec@.len() implies (#[trigger] out_vec@[j]).keys_stored(
                            spans,
                        ) && span_plan_sound(out_vec@[j], spans) by {
                            assert(out_vec@[j].keys_stored(spans));
                        }
                    }
                }
                r
            }
        },
        BasicSpanFilter::Or(filters) => {
            let ghost orig_vec = filters;
            let ghost orig_children = filters@;
            let mut filters = filters;
            let mut out: Vec<IndexedSpanFilter> = Vec::new();
            let ghost n = orig_children.len();
            while filters.len() > 0
                invariant
                    span_indexes.wf(),
                    filters@.len() + out@.len() == n,
                    filters@ =~= orig_children.skip(out@.len() as int),
                    forall|j: int| 0 <= j < out@.len() ==> (#[trigger] out@[j]).wf(),
                    forall|j: int, spans: Map<SpanKey, Span>, anc: Map<Timestamp, Vec<SpanKey>>|
                        #![trigger span_indexes_exact(*span_indexes, spans, anc), out@[j].keys_stored(spans)]
                        0 <= j < out@.len() && span_indexes_exact(*span_indexes, spans, anc) ==> (
                        out@[j].keys_stored(spans)) && span_plan_sound(out@[j], spans),
                    forall|j: int, spans: Map<SpanKey, Span>, anc: Map<Timestamp, Vec<SpanKey>>, k:
                        Timestamp, start: Timestamp|
                        0 <= j < out@.len() && span_indexes_exact(*span_indexes, spans, anc) ==> ((
                        #[trigger] out@[j].matchable(spans, anc, k, start)) == (spans.contains_key(
                            k,
                        ) && span_live_at(spans, k, start) && orig_children[j].spec_matches(
                            spans,
                            anc,
                            spans[k],
                        ))),
                decreases filters@.len(),
            {
                let ghost done = out@.len() as int;
                let f = filters.remove(0);
                proof {
                    assert(f == orig_children[done]);
                    assert(decreases_to!(orig => orig_vec));
                    assert(decreases_to!(orig_vec => orig_vec[done]));
                    assert(filters@ =~= orig_children.skip(done + 1));
                }
                let built = build_span_filter(f, span_indexes);
                out.push(built);
            }
            let ghost out_vec = out;
            let r = IndexedSpanFilter::Or(out);
            proof {
                assert forall|spans: Map<SpanKey, Span>, anc: Map<Timestamp, Vec<SpanKey>>, k:
                    Timestamp, start: Timestamp|
                    span_indexes_exact(*span_indexes, spans, anc) implies ((#[trigger] r.matchable(
                    spans,
                    anc,
                    k,
                    start,
                )) == (spans.contains_key(k) && span_live_at(spans, k, start) && orig.spec_matches(
                    spans,
                    anc,
                    spans[k],
                ))) by {
                    if r.matchable(spans, anc, k, start) {
                        let j = lemma_ispan_or_elim(out_vec, spans, anc, k, start);
                        assert(spans.contains_key(k));
                        crate::filter::lemma_span_or_intro(orig_vec, spans, anc, spans[k], j);
                    }
                    if spans.contains_key(k) && span_live_at(spans, k, start) && orig.spec_matches(
                        spans,
                        anc,
                        spans[k],
                    ) {
                        let j = crate::filter::lemma_span_or_elim(orig_vec, spans, anc, spans[k]);
                        lemma_ispan_or_intro(out_vec, spans, anc, k, start, j);
                    }
                }
                assert forall|spans: Map<SpanKey, Span>, anc: Map<Timestamp, Vec<SpanKey>>|
                    #![trigger span_indexes_exact(*span_indexes, spans, anc)]
                    span_indexes_exact(*span_indexes, spans, anc) implies r.keys_stored(spans)
                    && span_plan_sound(r, spans) by {
                    assert forall|j: int|
                        0 <= j < out_vec@.len() implies (#[trigger] out_vec@[j]).keys_stored(spans)
                        && span_plan_sound(out_vec@[j], spans) by {
                        assert(out_vec@[j].keys_stored(spans));
                    }
                }
            }
            r
        },
    }
}


/// Combines two optional values with a function, keeping a lone value.
pub fn merge<T, F: FnOnce(T, T) -> T>(a: Option<T>, b: Option<T>, f: F) -> (r: Option<T>)
    requires
        a is Some && b is Some ==> f.requires((a->Some_0, b->Some_0)),
    ensures
        match (a, b) {
            (Some(x), Some(y)) => r is Some && f.ensures((x, y), r->Some_0),
            (Some(x), None) => r == Some(x),
            (None, Some(y)) => r == Some(y),
            (None, None) => r is None,
        },
{
    match (a, b) {
        (Some(x), Some(y)) => Some(f(x, y)),
        (Some(x), None) => Some(x),
        (None, Some(y)) => Some(y),
        (None, None) => None,
    }
}

/// The most keys the plan could yield: window lengths, the least over
/// a conjunction, the saturating sum over a disjunction.
#[verifier::opaque]
pub open spec fn spec_event_estimate(f: IndexedEventFilter) -> nat
    decreases f, 1int, 0int,
{
    match f {
        IndexedEventFilter::Single(slice, _) => slice.view().len(),
        IndexedEventFilter::And(fs) => spec_event_estimate_min(fs, fs@.len() as int),
        IndexedEventFilter::Or(fs) => spec_event_estimate_sum(fs, fs@.len() as int),
    }
}

#[verifier::opaque]
pub open spec fn spec_event_estimate_min(fs: Vec<IndexedEventFilter>, i: int) -> nat
    decreases fs, 0int, i,
    via spec_event_estimate_min_decreases
{
    if i <= 0 || i > fs@.len() {
        0
    } else {
        let head = spec_event_estimate(fs[i - 1]);
        if i == 1 {
            head
        } else {
            let rest = spec_event_estimate_min(fs, i - 1);
            if head < rest {
                head
            } else {
                rest
            }
        }
    }
}

#[via_fn]
proof fn spec_event_estimate_min_decreases(fs: Vec<IndexedEventFilter>, i: int) {
    if 0 < i <= fs@.len() {
        vstd::std_specs::vec::axiom_vec_index_decreases(fs, i - 1);
    }
}

#[verifier::opaque]
pub open spec fn spec_event_estimate_sum(fs: Vec<IndexedEventFilter>, i: int) -> nat
    decreases fs, 0int, i,
    via spec_event_estimate_sum_decreases
{
    if i <= 0 || i > fs@.len() {
        0
    } else {
        let head = spec_event_estimate(fs[i - 1]);
        let rest = spec_event_estimate_sum(fs, i - 1);
        if rest + head > usize::MAX {
            usize::MAX as nat
        } else {
            rest + head
        }
    }
}

#[via_fn]
proof fn spec_event_estimate_sum_decreases(fs: Vec<IndexedEventFilter>, i: int) {
    if 0 < i <= fs@.len() {
        vstd::std_specs::vec::axiom_vec_index_decreases(fs, i - 1);
    }
}

impl IndexedEventFilter {
    /// An upper bound on how many keys the plan can yield; the planner
    /// orders conjunctions by it.
    #[verifier::loop_isolation(false)]
    #[verifier::spinoff_prover]
    pub fn estimate_count(&self) -> (r: usize)
        requires
            self.wf(),
        ensures
            r == spec_event_estimate(*self),
        decreases self.size(),
    {
        proof {
            reveal(spec_event_estimate);
        }
        match self {
            IndexedEventFilter::Single(slice, _) => slice.hi - slice.lo,
            IndexedEventFilter::And(fs) => {
                let n = fs.len();
                let mut best: usize = 0;
                let mut i: usize = 0;
                proof {
                    reveal(spec_event_estimate_min);
                }
                while i < n
                    invariant
                        n == fs@.len(),
                        0 <= i <= n,
                        best == spec_event_estimate_min(*fs, i as int),
                    decreases n - i,
                {
                    proof {
                        lemma_child_size_le(*fs, n as int, i as int);
                    }
                    let e = fs[i].estimate_count();
                    if i == 0 || e < best {
                        best = e;
                    }
                    i = i + 1;
                    proof {
                        reveal(spec_event_estimate_min);
                    }
                }
                best
            },
            IndexedEventFilter::Or(fs) => {
                let n = fs.len();
                let mut total: usize = 0;
                let mut i: usize = 0;
                proof {
                    reveal(spec_event_estimate_sum);
                }
                while i < n
                    invariant
                        n == fs@.len(),
                        0 <= i <= n,
                        total == spec_event_estimate_sum(*fs, i as int),
                    decreases n - i,
                {
                    proof {
                        lemma_child_size_le(*fs, n as int, i as int);
                    }
                    let e = fs[i].estimate_count();
                    total = if total <= usize::MAX - e {
                        total + e
                    } else {
                        usize::MAX
                    };
                    i = i + 1;
                    proof {
                        reveal(spec_event_estimate_sum);
                    }
                }
                total
            },
        }
    }

    /// Restricts the plan to keys inside `[start, end]`: afterwards it
    /// can yield exactly the in-window keys it could yield before.
    #[verifier::loop_isolation(false)]
    #[verifier::spinoff_prover]
    #[verifier::rlimit(100)]
    pub fn trim_to_timeframe(&mut self, start: Timestamp, end: Timestamp)
        requires
            old(self).wf(),
        ensures
            final(self).wf(),
            final(self).size() == old(self).size(),
            forall|events: Map<Timestamp, Event>, spans: Map<SpanKey, Span>, anc: Map<
                Timestamp,
                Vec<SpanKey>,
            >, k: Timestamp|
                (#[trigger] final(self).matchable(events, spans, anc, k)) == (old(self).matchable(
                    events,
                    spans,
                    anc,
                    k,
                ) && start <= k <= end),
        decreases old(self).size(),
    {
        let ghost orig = *old(self);
        match self {
            IndexedEventFilter::Single(slice, residual) => {
                let ghost pre_slice = *slice;
                slice.advance_to(start);
                slice.retreat_to(end);
                proof {
                    assert(IndexedEventFilter::Single(*slice, *residual).size() == 1);
                    assert forall|events: Map<Timestamp, Event>, spans: Map<SpanKey, Span>, anc:
                        Map<Timestamp, Vec<SpanKey>>, k: Timestamp|
                        (#[trigger] IndexedEventFilter::Single(*slice, *residual).matchable(
                            events,
                            spans,
                            anc,
                            k,
                        )) == (orig.matchable(events, spans, anc, k) && start <= k <= end) by {
                        assert(IndexedEventFilter::Single(*slice, *residual).matchable(
                            events,
                            spans,
                            anc,
                            k,
                        ) ==> slice.has(k));
                        assert(orig.matchable(events, spans, anc, k) ==> pre_slice.has(k));
                    }
                }
            },
            IndexedEventFilter::And(filters) => {
                let ghost orig_vec = *filters;
                let ghost orig_children = filters@;
                proof {
                    assert(orig == IndexedEventFilter::And(orig_vec));
                }
                let n = filters.len();
                let mut i: usize = 0;
                while i < n
                    invariant
                        n == filters@.len(),
                        n >= 1,
                        0 <= i <= n,
                        forall|j: int| 0 <= j < n ==> (#[trigger] filters@[j]).wf(),
                        forall|j: int|
                            0 <= j < n ==> (#[trigger] filters@[j]).size() == orig_children[j].size(),
                        forall|j: int| i <= j < n ==> filters@[j] == orig_children[j],
                        forall|j: int, events: Map<Timestamp, Event>, spans: Map<SpanKey, Span>,
                            anc: Map<Timestamp, Vec<SpanKey>>, k: Timestamp|
                            0 <= j < i ==> ((#[trigger] filters@[j].matchable(
                                events,
                                spans,
                                anc,
                                k,
                            )) == (orig_children[j].matchable(events, spans, anc, k) && start <= k
                                <= end)),
                    decreases n - i,
                {
                    proof {
                        lemma_child_size_le(orig_vec, n as int, i as int);
                        assert(filters@[i as int].size() == orig_children[i as int].size());
                    }
                    filters[i].trim_to_timeframe(start, end);
                    i = i + 1;
                }
                proof {
                    lemma_size_of_children_congruent(*filters, orig_vec, n as int);
                    assert forall|events: Map<Timestamp, Event>, spans: Map<SpanKey, Span>, anc:
                        Map<Timestamp, Vec<SpanKey>>, k: Timestamp|
                        (#[trigger] IndexedEventFilter::And(*filters).matchable(
                            events,
                            spans,
                            anc,
                            k,
                        )) == (orig.matchable(events, spans, anc, k) && start <= k <= end) by {
                        let cur = *filters;
                        if IndexedEventFilter::And(cur).matchable(events, spans, anc, k) {
                            lemma_ievent_and_elim(cur, events, spans, anc, k, 0);
                            assert(start <= k <= end);
                            assert forall|j: int| 0 <= j < n implies (
                            #[trigger] orig_children[j]).matchable(events, spans, anc, k) by {
                                lemma_ievent_and_elim(cur, events, spans, anc, k, j);
                            }
                            lemma_ievent_and_intro(orig_vec, events, spans, anc, k);
                        }
                        if orig.matchable(events, spans, anc, k) && start <= k <= end {
                            assert forall|j: int| 0 <= j < n implies (
                            #[trigger] cur@[j]).matchable(events, spans, anc, k) by {
                                lemma_ievent_and_elim(orig_vec, events, spans, anc, k, j);
                            }
                            lemma_ievent_and_intro(cur, events, spans, anc, k);
                        }
                    }
                }
            },
            IndexedEventFilter::Or(filters) => {
                let ghost orig_vec = *filters;
                let ghost orig_children = filters@;
                proof {
                    assert(orig == IndexedEventFilter::Or(orig_vec));
                }
                let n = filters.len();
                let mut i: usize = 0;
                while i < n
                    invariant
                        n == filters@.len(),
                        0 <= i <= n,
                        forall|j: int| 0 <= j < n ==> (#[trigger] filters@[j]).wf(),
                        forall|j: int|
                            0 <= j < n ==> (#[trigger] filters@[j]).size() == orig_children[j].size(),
                        forall|j: int| i <= j < n ==> filters@[j] == orig_children[j],
                        forall|j: int, events: Map<Timestamp, Event>, spans: Map<SpanKey, Span>,
                            anc: Map<Timestamp, Vec<SpanKey>>, k: Timestamp|
                            0 <= j < i ==> ((#[trigger] filters@[j].matchable(
                                events,
                                spans,
                                anc,
                                k,
                            )) == (orig_children[j].matchable(events, spans, anc, k) && start <= k
                                <= end)),
                    decreases n - i,
                {
                    proof {
                        lemma_child_size_le(orig_vec, n as int, i as int);
                        assert(filters@[i as int].size() == orig_children[i as int].size());
                    }
                    filters[i].trim_to_timeframe(start, end);
                    i = i + 1;
                }
                proof {
                    lemma_size_of_children_congruent(*filters, orig_vec, n as int);
                    assert forall|events: Map<Timestamp, Event>, spans: Map<SpanKey, Span>, anc:
                        Map<Timestamp, Vec<SpanKey>>, k: Timestamp|
                        (#[trigger] IndexedEventFilter::Or(*filters).matchable(
                            events,
                            spans,
                            anc,
                            k,
                        )) == (orig.matchable(events, spans, anc, k) && start <= k <= end) by {
                        let cur = *filters;
                        if IndexedEventFilter::Or(cur).matchable(events, spans, anc, k) {
                            let j = lemma_ievent_or_elim(cur, events, spans, anc, k);
                            lemma_ievent_or_intro(orig_vec, events, spans, anc, k, j);
                        }
                        if orig.matchable(events, spans, anc, k) && start <= k <= end {
                            let j = lemma_ievent_or_elim(orig_vec, events, spans, anc, k);
                            lemma_ievent_or_intro(cur, events, spans, anc, k, j);
                        }
                    }
                }
            },
        }
    }

    /// Reorders the children of conjunctions and disjunctions by their
    /// estimated yield, cheapest first; the plan can yield the same
    /// keys afterwards.
    #[verifier::loop_isolation(false)]
    #[verifier::spinoff_prover]
    #[verifier::rlimit(100)]
    pub fn optimize(&mut self)
        requires
            old(self).wf(),
        ensures
            final(self).wf(),
            (*old(self)) is Single ==> *final(self) == *old(self),
            (*old(self)) matches IndexedEventFilter::And(ofs) ==> ((*final(self)) matches
                IndexedEventFilter::And(fs) && event_children_ordered(fs@) && same_members(
                ofs@,
                fs@,
            )),
            (*old(self)) matches IndexedEventFilter::Or(ofs) ==> ((*final(self)) matches
                IndexedEventFilter::Or(fs) && event_children_ordered(fs@) && same_members(
                ofs@,
                fs@,
            )),
            forall|events: Map<Timestamp, Event>, spans: Map<SpanKey, Span>, anc: Map<
                Timestamp,
                Vec<SpanKey>,
            >, k: Timestamp|
                (#[trigger] final(self).matchable(events, spans, anc, k)) == old(self).matchable(
                    events,
                    spans,
                    anc,
                    k,
                ),
    {
        let ghost orig = *old(self);
        match self {
            IndexedEventFilter::Single(_, _) => {},
            IndexedEventFilter::And(filters) => {
                let ghost orig_vec = *filters;
                proof {
                    assert(orig == IndexedEventFilter::And(orig_vec));
                }
                sort_event_children(filters);
                proof {
                    let cur = *filters;
                    assert(cur@.len() == orig_vec@.len());
                    assert forall|events: Map<Timestamp, Event>, spans: Map<SpanKey, Span>, anc:
                        Map<Timestamp, Vec<SpanKey>>, k: Timestamp|
                        (#[trigger] IndexedEventFilter::And(cur).matchable(events, spans, anc, k))
                            == orig.matchable(events, spans, anc, k) by {
                        if IndexedEventFilter::And(cur).matchable(events, spans, anc, k) {
                            assert forall|j: int| 0 <= j < orig_vec@.len() implies (
                            #[trigger] orig_vec@[j]).matchable(events, spans, anc, k) by {
                                assert(orig_vec@.contains(orig_vec@[j]));
                                assert(cur@.contains(orig_vec@[j]));
                                let jj = choose|jj: int|
                                    0 <= jj < cur@.len() && cur@[jj] == orig_vec@[j];
                                lemma_ievent_and_elim(cur, events, spans, anc, k, jj);
                            }
                            lemma_ievent_and_intro(orig_vec, events, spans, anc, k);
                        }
                        if orig.matchable(events, spans, anc, k) {
                            assert forall|j: int| 0 <= j < cur@.len() implies (
                            #[trigger] cur@[j]).matchable(events, spans, anc, k) by {
                                assert(cur@.contains(cur@[j]));
                                assert(orig_vec@.contains(cur@[j]));
                                let jj = choose|jj: int|
                                    0 <= jj < orig_vec@.len() && orig_vec@[jj] == cur@[j];
                                lemma_ievent_and_elim(orig_vec, events, spans, anc, k, jj);
                            }
                            lemma_ievent_and_intro(cur, events, spans, anc, k);
                        }
                    }
                }
            },
            IndexedEventFilter::Or(filters) => {
                let ghost orig_vec = *filters;
                proof {
                    assert(orig == IndexedEventFilter::Or(orig_vec));
                }
                sort_event_children(filters);
                proof {
                    let cur = *filters;
                    assert(cur@.len() == orig_vec@.len());
                    assert forall|events: Map<Timestamp, Event>, spans: Map<SpanKey, Span>, anc:
                        Map<Timestamp, Vec<SpanKey>>, k: Timestamp|
                        (#[trigger] IndexedEventFilter::Or(cur).matchable(events, spans, anc, k))
                            == orig.matchable(events, spans, anc, k) by {
                        if IndexedEventFilter::Or(cur).matchable(events, spans, anc, k) {
                            let j = lemma_ievent_or_elim(cur, events, spans, anc, k);
                            assert(cur@.contains(cur@[j]));
                            assert(orig_vec@.contains(cur@[j]));
                            let jj = choose|jj: int|
                                0 <= jj < orig_vec@.len() && orig_vec@[jj] == cur@[j];
                            lemma_ievent_or_intro(orig_vec, events, spans, anc, k, jj);
                        }
                        if orig.matchable(events, spans, anc, k) {
                            let j = lemma_ievent_or_elim(orig_vec, events, spans, anc, k);
                            assert(orig_vec@.contains(orig_vec@[j]));
                            assert(cur@.contains(orig_vec@[j]));
                            let jj = choose|jj: int|
                                0 <= jj < cur@.len() && cur@[jj] == orig_vec@[j];
                            lemma_ievent_or_intro(cur, events, spans, anc, k, jj);
                        }
                    }
                }
            },
        }
    }
}

/// Two lists that hold the same plans.
pub open spec fn same_members(a: Seq<IndexedEventFilter>, b: Seq<IndexedEventFilter>) -> bool {
    &&& a.len() == b.len()
    &&& (forall|x: IndexedEventFilter| #![trigger a.contains(x)] #![trigger b.contains(x)]
        a.contains(x) == b.contains(x))
}

/// Ordered ascending by estimated yield.
pub open spec fn event_children_ordered(fs: Seq<IndexedEventFilter>) -> bool {
    forall|j1: int, j2: int|
        0 <= j1 < j2 < fs.len() ==> spec_event_estimate(#[trigger] fs[j1]) <= spec_event_estimate(
            #[trigger] fs[j2],
        )
}

/// Sorts plan children ascending by estimated yield, selecting the
/// cheapest of the rest each round; every child keeps a place on both
/// sides.
#[verifier::loop_isolation(false)]
#[verifier::rlimit(100)]
#[verifier::spinoff_prover]
fn sort_event_children(v: &mut Vec<IndexedEventFilter>)
    requires
        forall|j: int| 0 <= j < old(v)@.len() ==> (#[trigger] old(v)@[j]).wf(),
    ensures
        same_members(old(v)@, final(v)@),
        event_children_ordered(final(v)@),
        forall|j: int| 0 <= j < final(v)@.len() ==> (#[trigger] final(v)@[j]).wf(),
{
    let ghost orig = old(v)@;
    let n = v.len();
    let mut out: Vec<IndexedEventFilter> = Vec::new();
    let mut rest: Vec<IndexedEventFilter> = Vec::new();
    core::mem::swap(v, &mut rest);
    while rest.len() > 0
        invariant
            out@.len() + rest@.len() == n,
            n == orig.len(),
            forall|j: int| 0 <= j < out@.len() ==> (#[trigger] out@[j]).wf(),
            forall|j: int| 0 <= j < rest@.len() ==> (#[trigger] rest@[j]).wf(),
            forall|x: IndexedEventFilter| #[trigger]
                orig.contains(x) == (out@.contains(x) || rest@.contains(x)),
            event_children_ordered(out@),
            forall|j: int, y: int|
                0 <= j < out@.len() && 0 <= y < rest@.len() ==> spec_event_estimate(
                    #[trigger] out@[j],
                ) <= spec_event_estimate(#[trigger] rest@[y]),
        decreases rest@.len(),
    {
        // pick the cheapest of what is left
        let m = rest.len();
        let mut mi: usize = 0;
        let mut best = rest[0].estimate_count();
        let mut y: usize = 1;
        while y < m
            invariant
                m == rest@.len(),
                forall|j: int| 0 <= j < m ==> (#[trigger] rest@[j]).wf(),
                0 <= mi < m,
                1 <= y <= m,
                best == spec_event_estimate(rest@[mi as int]),
                forall|j: int|
                    0 <= j < y ==> spec_event_estimate(rest@[mi as int]) <= spec_event_estimate(
                        #[trigger] rest@[j],
                    ),
            decreases m - y,
        {
            let e = rest[y].estimate_count();
            if e < best {
                mi = y;
                best = e;
            }
            y = y + 1;
        }
        let ghost pre_rest = rest@;
        let ghost pre_out = out@;
        let x = rest.remove(mi);
        out.push(x);
        proof {
            assert(out@ == pre_out.push(x));
            assert(rest@ == pre_rest.remove(mi as int));
            assert forall|x2: IndexedEventFilter| #[trigger]
                orig.contains(x2) == (out@.contains(x2) || rest@.contains(x2)) by {
                if orig.contains(x2) {
                    if pre_out.contains(x2) {
                        let j = choose|j: int| 0 <= j < pre_out.len() && pre_out[j] == x2;
                        assert(out@[j] == x2);
                    } else {
                        assert(pre_rest.contains(x2));
                        let j = choose|j: int| 0 <= j < pre_rest.len() && pre_rest[j] == x2;
                        if j == mi {
                            assert(out@[out@.len() - 1] == x2);
                        } else if j < mi {
                            assert(rest@[j] == x2);
                        } else {
                            assert(rest@[j - 1] == x2);
                        }
                    }
                }
                if out@.contains(x2) {
                    let j = choose|j: int| 0 <= j < out@.len() && out@[j] == x2;
                    if j < pre_out.len() {
                        assert(pre_out[j] == x2);
                    } else {
                        assert(pre_rest[mi as int] == x2);
                    }
                }
                if rest@.contains(x2) {
                    let j = choose|j: int| 0 <= j < rest@.len() && rest@[j] == x2;
                    if j < mi {
                        assert(pre_rest[j] == x2);
                    } else {
                        assert(pre_rest[j + 1] == x2);
                    }
                }
            }
            assert forall|j: int, y2: int|
                0 <= j < out@.len() && 0 <= y2 < rest@.len() implies spec_event_estimate(
                #[trigger] out@[j],
            ) <= spec_event_estimate(#[trigger] rest@[y2]) by {
                let prev = if y2 < mi {
                    y2
                } else {
                    y2 + 1
                };
                assert(rest@[y2] == pre_rest[prev]);
                if j < pre_out.len() {
                    assert(out@[j] == pre_out[j]);
                } else {
                    assert(out@[j] == x);
                    assert(spec_event_estimate(x) <= spec_event_estimate(pre_rest[prev]));
                }
            }
            assert forall|j1: int, j2: int|
                0 <= j1 < j2 < out@.len() implies spec_event_estimate(#[trigger] out@[j1])
                <= spec_event_estimate(#[trigger] out@[j2]) by {
                if j2 < pre_out.len() {
                    assert(out@[j1] == pre_out[j1] && out@[j2] == pre_out[j2]);
                } else {
                    assert(out@[j2] == x);
                    assert(out@[j1] == pre_out[j1]);
                    assert(spec_event_estimate(pre_out[j1]) <= spec_event_estimate(
                        pre_rest[mi as int],
                    ));
                }
            }
            assert forall|j: int| 0 <= j < out@.len() implies (#[trigger] out@[j]).wf() by {
                if j < pre_out.len() {
                    assert(out@[j] == pre_out[j]);
                } else {
                    assert(out@[j] == x);
                    assert(pre_rest[mi as int].wf());
                }
            }
            assert forall|j: int| 0 <= j < rest@.len() implies (#[trigger] rest@[j]).wf() by {
                if j < mi {
                    assert(rest@[j] == pre_rest[j]);
                } else {
                    assert(rest@[j] == pre_rest[j + 1]);
                }
            }
        }
    }
    *v = out;
    proof {
        assert forall|x2: IndexedEventFilter| #[trigger] orig.contains(x2) == v@.contains(x2) by {
            if rest@.contains(x2) {
                let j = choose|j: int| 0 <= j < rest@.len() && rest@[j] == x2;
            }
        }
        assert(same_members(orig, v@)) by {
            assert(orig.len() == v@.len());
        }
    }
}

/// Leaf windows only hold stored spans, and a stratified band only
/// holds spans whose duration its range allows: what window trimming
/// relies on.
pub open spec fn span_plan_sound(f: IndexedSpanFilter, spans: Map<SpanKey, Span>) -> bool
    decreases f,
{
    match f {
        IndexedSpanFilter::Single(slice, _) => true,
        IndexedSpanFilter::Stratified(slice, range, _) => forall|i: int|
            0 <= i < slice.view().len() ==> {
                let k = #[trigger] slice.view()[i];
                spans.contains_key(k) && spans[k].created_at == k && (match spans[k].spec_duration() {
                    Some(d) => d < range.end || range.end == u64::MAX,
                    None => range.end == u64::MAX,
                })
            },
        IndexedSpanFilter::And(fs) => forall|i: int|
            0 <= i < fs@.len() ==> span_plan_sound(#[trigger] fs@[i], spans),
        IndexedSpanFilter::Or(fs) => forall|i: int|
            0 <= i < fs@.len() ==> span_plan_sound(#[trigger] fs@[i], spans),
    }
}

impl IndexedSpanFilter {
    /// Whether the plan already carries stratified bands everywhere it
    /// needs them for window trimming.
    pub open spec fn spec_is_stratified(self) -> bool
        decreases self,
    {
        match self {
            IndexedSpanFilter::Single(_, _) => false,
            IndexedSpanFilter::Stratified(_, _, _) => true,
            IndexedSpanFilter::And(fs) => exists|i: int|
                0 <= i < fs@.len() && (#[trigger] fs@[i]).spec_is_stratified(),
            IndexedSpanFilter::Or(fs) => forall|i: int|
                0 <= i < fs@.len() ==> (#[trigger] fs@[i]).spec_is_stratified(),
        }
    }

    #[verifier::loop_isolation(false)]
    pub fn is_stratified(&self) -> (r: bool)
        ensures
            r == self.spec_is_stratified(),
        decreases self.size(),
    {
        match self {
            IndexedSpanFilter::Single(_, _) => false,
            IndexedSpanFilter::Stratified(_, _, _) => true,
            IndexedSpanFilter::And(fs) => {
                let n = fs.len();
                let mut i: usize = 0;
                while i < n
                    invariant
                        n == fs@.len(),
                        0 <= i <= n,
                        forall|j: int| 0 <= j < i ==> !(#[trigger] fs@[j]).spec_is_stratified(),
                    decreases n - i,
                {
                    proof {
                        lemma_span_child_size_le(*fs, n as int, i as int);
                    }
                    if fs[i].is_stratified() {
                        return true;
                    }
                    i = i + 1;
                }
                false
            },
            IndexedSpanFilter::Or(fs) => {
                let n = fs.len();
                let mut i: usize = 0;
                while i < n
                    invariant
                        n == fs@.len(),
                        0 <= i <= n,
                        forall|j: int| 0 <= j < i ==> (#[trigger] fs@[j]).spec_is_stratified(),
                    decreases n - i,
                {
                    proof {
                        lemma_span_child_size_le(*fs, n as int, i as int);
                    }
                    if !fs[i].is_stratified() {
                        return false;
                    }
                    i = i + 1;
                }
                true
            },
        }
    }

    /// Conjoins a band cover over the whole duration index when the
    /// plan has no stratified node to trim by; the plan can yield the
    /// same stored spans.
    #[verifier::loop_isolation(false)]
    #[verifier::rlimit(100)]
    pub fn ensure_stratified(&mut self, duration_index: &crate::index::SpanDurationIndex)
        requires
            old(self).wf(),
            duration_index.wf(),
        ensures
            final(self).wf(),
            final(self).spec_is_stratified(),
            old(self).spec_is_stratified() ==> *final(self) == *old(self),
            forall|spans: Map<SpanKey, Span>, anc: Map<Timestamp, Vec<SpanKey>>, k: Timestamp,
                start: Timestamp|
                #![trigger final(self).matchable(spans, anc, k, start)]
                (duration_bands_cover(*duration_index, spans) && old(self).keys_stored(spans))
                    ==> ((final(self).matchable(spans, anc, k, start)) == old(self).matchable(
                    spans,
                    anc,
                    k,
                    start,
                )),
            forall|spans: Map<SpanKey, Span>, anc: Map<Timestamp, Vec<SpanKey>>, k: Timestamp,
                start: Timestamp|
                #![trigger final(self).matchable(spans, anc, k, start)]
                final(self).matchable(spans, anc, k, start) ==> old(self).matchable(
                    spans,
                    anc,
                    k,
                    start,
                ),
            forall|spans: Map<SpanKey, Span>|
                (#[trigger] span_plan_sound(*old(self), spans)) && duration_bands_sound(
                    *duration_index,
                    spans,
                ) ==> span_plan_sound(*final(self), spans),
    {
        if self.is_stratified() {
            return ;
        }
        proof {
            assert(!old(self).spec_is_stratified());
        }
        let bands = duration_index.to_stratified_indexes();
        let mut cover: Vec<IndexedSpanFilter> = Vec::new();
        let mut b: usize = 0;
        while b < 64
            invariant
                bands@.len() == 64,
                forall|i: int|
                    0 <= i < 64 ==> (#[trigger] bands@[i]).0@ == duration_index.bands@[i]@
                        && bands@[i].1.start == band_start(i) && bands@[i].1.end == band_end(i),
                duration_index.wf(),
                0 <= b <= 64,
                cover@.len() == b,
                forall|j: int| 0 <= j < b ==> (#[trigger] cover@[j]).wf(),
                forall|j: int|
                    0 <= j < b ==> ((#[trigger] cover@[j]) matches IndexedSpanFilter::Stratified(
                        slice,
                        range,
                        residual,
                    ) && slice.view() == duration_index.bands@[j]@ && range.start == band_start(j)
                        && range.end == band_end(j) && residual is None),
            decreases 64 - b,
        {
            let slice = TsSlice::from_vec(&bands[b].0);
            cover.push(IndexedSpanFilter::Stratified(slice, bands[b].1.start..bands[b].1.end, None));
            b = b + 1;
        }
        let ghost cover_vec = cover;
        let dfilter = IndexedSpanFilter::Or(cover);
        let ghost orig = *old(self);
        let mut tmp = IndexedSpanFilter::Single(TsSlice::empty(), None);
        core::mem::swap(self, &mut tmp);
        let mut children: Vec<IndexedSpanFilter> = Vec::new();
        children.push(tmp);
        children.push(dfilter);
        let ghost children_vec = children;
        *self = IndexedSpanFilter::And(children);
        proof {
            assert(children_vec@[0] == orig);
            assert(children_vec@[1] == IndexedSpanFilter::Or(cover_vec));
            assert(IndexedSpanFilter::Or(cover_vec).wf()) by {
                assert(forall|j: int| 0 <= j < cover_vec@.len() ==> (#[trigger] cover_vec@[j]).wf());
            }
            assert(IndexedSpanFilter::And(children_vec).wf()) by {
                assert forall|j: int|
                    0 <= j < children_vec@.len() implies (#[trigger] children_vec@[j]).wf() by {
                    if j == 0 {
                        assert(children_vec@[0] == orig);
                    } else {
                        assert(children_vec@[j] == IndexedSpanFilter::Or(cover_vec));
                    }
                }
            }
            assert(IndexedSpanFilter::And(children_vec).spec_is_stratified()) by {
                assert(IndexedSpanFilter::Or(cover_vec).spec_is_stratified()) by {
                    assert forall|j: int|
                        0 <= j < cover_vec@.len() implies (
                    #[trigger] cover_vec@[j]).spec_is_stratified() by {}
                }
                assert(children_vec@[1].spec_is_stratified());
            }
            assert forall|spans: Map<SpanKey, Span>, anc: Map<Timestamp, Vec<SpanKey>>, k:
                Timestamp, start: Timestamp|
                #![trigger IndexedSpanFilter::And(children_vec).matchable(spans, anc, k, start)]
                IndexedSpanFilter::And(children_vec).matchable(spans, anc, k, start) implies
                orig.matchable(spans, anc, k, start) by {
                lemma_ispan_and_elim(children_vec, spans, anc, k, start, 0);
            }
            assert forall|spans: Map<SpanKey, Span>, anc: Map<Timestamp, Vec<SpanKey>>, k:
                Timestamp, start: Timestamp|
                #![trigger IndexedSpanFilter::And(children_vec).matchable(spans, anc, k, start)]
                (duration_bands_cover(*duration_index, spans) && orig.keys_stored(spans)
                    && orig.matchable(spans, anc, k, start)) implies IndexedSpanFilter::And(
                children_vec,
            ).matchable(spans, anc, k, start) by {
                lemma_keys_stored_matchable(orig, spans, anc, k, start);
                assert(spans.contains_key(k));
                let bb = choose|bb: int|
                    0 <= bb < 64 && (#[trigger] duration_index.bands@[bb]@.contains(k));
                assert((cover_vec@[bb] matches IndexedSpanFilter::Stratified(slice, _, res)
                    && slice.view().contains(k) && res is None));
                assert(cover_vec@[bb].matchable(spans, anc, k, start)) by {
                    assert(orig.matchable(spans, anc, k, start));
                    lemma_matchable_live(orig, spans, anc, k, start);
                }
                lemma_ispan_or_intro(cover_vec, spans, anc, k, start, bb);
                assert forall|j: int| 0 <= j < children_vec@.len() implies (
                #[trigger] children_vec@[j]).matchable(spans, anc, k, start) by {
                    if j == 0 {
                    } else {
                        assert(children_vec@[j] == IndexedSpanFilter::Or(cover_vec));
                    }
                }
                lemma_ispan_and_intro(children_vec, spans, anc, k, start);
            }
            assert forall|spans: Map<SpanKey, Span>|
                (#[trigger] span_plan_sound(orig, spans)) && duration_bands_sound(
                    *duration_index,
                    spans,
                ) implies span_plan_sound(IndexedSpanFilter::And(children_vec), spans) by {
                assert forall|j: int|
                    0 <= j < cover_vec@.len() implies span_plan_sound(
                    #[trigger] cover_vec@[j],
                    spans,
                ) by {
                    let f = cover_vec@[j];
                    assert((f matches IndexedSpanFilter::Stratified(slice, range, _)
                        && slice.view() == duration_index.bands@[j]@ && range.start == band_start(j)
                        && range.end == band_end(j)));
                    assert forall|i: int|
                        0 <= i < f->Stratified_0.view().len() implies {
                        let k = #[trigger] f->Stratified_0.view()[i];
                        spans.contains_key(k) && spans[k].created_at == k && (
                        match spans[k].spec_duration() {
                            Some(d) => d < f->Stratified_1.end || f->Stratified_1.end == u64::MAX,
                            None => f->Stratified_1.end == u64::MAX,
                        })
                    } by {
                        let k = f->Stratified_0.view()[i];
                        assert(duration_index.bands@[j]@.contains(k));
                    }
                }
                assert forall|j: int|
                    0 <= j < children_vec@.len() implies span_plan_sound(
                    #[trigger] children_vec@[j],
                    spans,
                ) by {
                    if j == 0 {
                    } else {
                        assert(children_vec@[j] == IndexedSpanFilter::Or(cover_vec));
                    }
                }
            }
        }
    }

    /// Every key a leaf window holds is a stored span.
    pub open spec fn keys_stored(self, spans: Map<SpanKey, Span>) -> bool
        decreases self,
    {
        match self {
            IndexedSpanFilter::Single(slice, _) => forall|i: int|
                0 <= i < slice.view().len() ==> spans.contains_key(#[trigger] slice.view()[i]),
            IndexedSpanFilter::Stratified(slice, _, _) => forall|i: int|
                0 <= i < slice.view().len() ==> spans.contains_key(#[trigger] slice.view()[i]),
            IndexedSpanFilter::And(fs) => forall|i: int|
                0 <= i < fs@.len() ==> (#[trigger] fs@[i]).keys_stored(spans),
            IndexedSpanFilter::Or(fs) => forall|i: int|
                0 <= i < fs@.len() ==> (#[trigger] fs@[i]).keys_stored(spans),
        }
    }
}


/// Exact span indexes make the duration bands sound and covering.
pub proof fn lemma_exact_bands(
    idx: SpanIndexes,
    spans: Map<SpanKey, Span>,
    anc: Map<Timestamp, Vec<SpanKey>>,
)
    requires
        span_indexes_exact(idx, spans, anc),
    ensures
        duration_bands_sound(idx.durations, spans),
        duration_bands_cover(idx.durations, spans),
{
    assert forall|b: int, i: int|
        0 <= b < 64 && 0 <= i < idx.durations.bands@[b]@.len() implies {
        let k = #[trigger] idx.durations.bands@[b]@[i];
        spans.contains_key(k) && spans[k].created_at == k && (match spans[k].spec_duration() {
            Some(d) => d < band_end(b) || band_end(b) == u64::MAX,
            None => b == 63,
        })
    } by {
        let k = idx.durations.bands@[b]@[i];
        assert(idx.durations.bands@[b]@.contains(k));
        assert(band_has(idx, b, k));
        if b == 63 {
        }
    }
    assert forall|k: Timestamp| #[trigger] spans.contains_key(k) implies exists|b: int|
        0 <= b < 64 && (#[trigger] idx.durations.bands@[b]@.contains(k)) by {
        let b = choose|b: int| #[trigger] band_has(idx, b, k);
        assert(0 <= b < 64 && idx.durations.bands@[b]@.contains(k));
    }
}

/// Every stored span sits in some band.
pub open spec fn duration_bands_cover(
    idx: crate::index::SpanDurationIndex,
    spans: Map<SpanKey, Span>,
) -> bool {
    forall|k: Timestamp| #[trigger]
        spans.contains_key(k) ==> exists|b: int|
            0 <= b < 64 && (#[trigger] idx.bands@[b]@.contains(k))
}

/// Every band key is a stored span whose duration its range allows.
pub open spec fn duration_bands_sound(
    idx: crate::index::SpanDurationIndex,
    spans: Map<SpanKey, Span>,
) -> bool {
    forall|b: int, i: int|
        0 <= b < 64 && 0 <= i < idx.bands@[b]@.len() ==> {
            let k = #[trigger] idx.bands@[b]@[i];
            spans.contains_key(k) && spans[k].created_at == k && (match spans[k].spec_duration() {
                Some(d) => d < band_end(b) || band_end(b) == u64::MAX,
                None => b == 63,
            })
        }
}

/// A plan whose windows hold only stored keys can yield stored keys
/// only.
proof fn lemma_keys_stored_matchable(
    f: IndexedSpanFilter,
    spans: Map<SpanKey, Span>,
    anc: Map<Timestamp, Vec<SpanKey>>,
    k: Timestamp,
    start: Timestamp,
)
    requires
        f.wf(),
        f.keys_stored(spans),
        f.matchable(spans, anc, k, start),
    ensures
        spans.contains_key(k),
    decreases f,
{
    match f {
        IndexedSpanFilter::Single(slice, _) => {
            let i = choose|i: int| 0 <= i < slice.view().len() && slice.view()[i] == k;
            assert(spans.contains_key(slice.view()[i]));
        },
        IndexedSpanFilter::Stratified(slice, _, _) => {
            let i = choose|i: int| 0 <= i < slice.view().len() && slice.view()[i] == k;
            assert(spans.contains_key(slice.view()[i]));
        },
        IndexedSpanFilter::And(fs) => {
            lemma_ispan_and_elim(fs, spans, anc, k, start, 0);
            lemma_keys_stored_matchable(fs@[0], spans, anc, k, start);
        },
        IndexedSpanFilter::Or(fs) => {
            let j = lemma_ispan_or_elim(fs, spans, anc, k, start);
            lemma_keys_stored_matchable(fs@[j], spans, anc, k, start);
        },
    }
}

/// Whatever a well-formed plan can yield is alive at the query start:
/// every leaf carries the liveness test.
proof fn lemma_matchable_live(
    f: IndexedSpanFilter,
    spans: Map<SpanKey, Span>,
    anc: Map<Timestamp, Vec<SpanKey>>,
    k: Timestamp,
    start: Timestamp,
)
    requires
        f.wf(),
        f.matchable(spans, anc, k, start),
    ensures
        span_live_at(spans, k, start),
    decreases f,
{
    match f {
        IndexedSpanFilter::Single(_, _) => {},
        IndexedSpanFilter::Stratified(_, _, _) => {},
        IndexedSpanFilter::And(fs) => {
            lemma_ispan_and_elim(fs, spans, anc, k, start, 0);
            lemma_matchable_live(fs@[0], spans, anc, k, start);
        },
        IndexedSpanFilter::Or(fs) => {
            let j = lemma_ispan_or_elim(fs, spans, anc, k, start);
            lemma_matchable_live(fs@[j], spans, anc, k, start);
        },
    }
}

/// The most keys the span plan could yield.
#[verifier::opaque]
pub open spec fn spec_span_estimate(f: IndexedSpanFilter) -> nat
    decreases f, 1int, 0int,
{
    match f {
        IndexedSpanFilter::Single(slice, _) => slice.view().len(),
        IndexedSpanFilter::Stratified(slice, _, _) => slice.view().len(),
        IndexedSpanFilter::And(fs) => spec_span_estimate_min(fs, fs@.len() as int),
        IndexedSpanFilter::Or(fs) => spec_span_estimate_sum(fs, fs@.len() as int),
    }
}

#[verifier::opaque]
pub open spec fn spec_span_estimate_min(fs: Vec<IndexedSpanFilter>, i: int) -> nat
    decreases fs, 0int, i,
    via spec_span_estimate_min_decreases
{
    if i <= 0 || i > fs@.len() {
        0
    } else {
        let head = spec_span_estimate(fs[i - 1]);
        if i == 1 {
            head
        } else {
            let rest = spec_span_estimate_min(fs, i - 1);
            if head < rest {
                head
            } else {
                rest
            }
        }
    }
}

#[via_fn]
proof fn spec_span_estimate_min_decreases(fs: Vec<IndexedSpanFilter>, i: int) {
    if 0 < i <= fs@.len() {
        vstd::std_specs::vec::axiom_vec_index_decreases(fs, i - 1);
    }
}

#[verifier::opaque]
pub open spec fn spec_span_estimate_sum(fs: Vec<IndexedSpanFilter>, i: int) -> nat
    decreases fs, 0int, i,
    via spec_span_estimate_sum_decreases
{
    if i <= 0 || i > fs@.len() {
        0
    } else {
        let head = spec_span_estimate(fs[i - 1]);
        let rest = spec_span_estimate_sum(fs, i - 1);
        if rest + head > usize::MAX {
            usize::MAX as nat
        } else {
            rest + head
        }
    }
}

#[via_fn]
proof fn spec_span_estimate_sum_decreases(fs: Vec<IndexedSpanFilter>, i: int) {
    if 0 < i <= fs@.len() {
        vstd::std_specs::vec::axiom_vec_index_decreases(fs, i - 1);
    }
}

impl IndexedSpanFilter {
    /// An upper bound on how many keys the plan can yield.
    #[verifier::loop_isolation(false)]
    #[verifier::spinoff_prover]
    pub fn estimate_count(&self) -> (r: usize)
        requires
            self.wf(),
        ensures
            r == spec_span_estimate(*self),
        decreases self.size(),
    {
        proof {
            reveal(spec_span_estimate);
        }
        match self {
            IndexedSpanFilter::Single(slice, _) => slice.hi - slice.lo,
            IndexedSpanFilter::Stratified(slice, _, _) => slice.hi - slice.lo,
            IndexedSpanFilter::And(fs) => {
                let n = fs.len();
                let mut best: usize = 0;
                let mut i: usize = 0;
                proof {
                    reveal(spec_span_estimate_min);
                }
                while i < n
                    invariant
                        n == fs@.len(),
                        0 <= i <= n,
                        best == spec_span_estimate_min(*fs, i as int),
                    decreases n - i,
                {
                    proof {
                        lemma_span_child_size_le(*fs, n as int, i as int);
                    }
                    let e = fs[i].estimate_count();
                    if i == 0 || e < best {
                        best = e;
                    }
                    i = i + 1;
                    proof {
                        reveal(spec_span_estimate_min);
                    }
                }
                best
            },
            IndexedSpanFilter::Or(fs) => {
                let n = fs.len();
                let mut total: usize = 0;
                let mut i: usize = 0;
                proof {
                    reveal(spec_span_estimate_sum);
                }
                while i < n
                    invariant
                        n == fs@.len(),
                        0 <= i <= n,
                        total == spec_span_estimate_sum(*fs, i as int),
                    decreases n - i,
                {
                    proof {
                        lemma_span_child_size_le(*fs, n as int, i as int);
                    }
                    let e = fs[i].estimate_count();
                    total = if total <= usize::MAX - e {
                        total + e
                    } else {
                        usize::MAX
                    };
                    i = i + 1;
                    proof {
                        reveal(spec_span_estimate_sum);
                    }
                }
                total
            },
        }
    }

    /// Restricts the plan to keys at or under `end`; a stratified band
    /// also sheds the keys too old to reach `start`, which its duration
    /// bound shows cannot still be alive there. Under a sound plan the
    /// keys it can yield for a query starting at `start` are unchanged
    /// but for the upper cut.
    #[verifier::loop_isolation(false)]
    #[verifier::spinoff_prover]
    #[verifier::rlimit(100)]
    pub fn trim_to_timeframe(&mut self, start: Timestamp, end: Timestamp)
        requires
            old(self).wf(),
        ensures
            final(self).wf(),
            final(self).size() == old(self).size(),
            forall|spans: Map<SpanKey, Span>, anc: Map<Timestamp, Vec<SpanKey>>, k: Timestamp,
                qs: Timestamp|
                (#[trigger] final(self).matchable(spans, anc, k, qs)) ==> old(self).matchable(
                    spans,
                    anc,
                    k,
                    qs,
                ) && k <= end,
            forall|spans: Map<SpanKey, Span>, anc: Map<Timestamp, Vec<SpanKey>>, k: Timestamp|
                #![trigger final(self).matchable(spans, anc, k, start)]
                span_plan_sound(*old(self), spans) ==> ((final(self).matchable(spans, anc, k, start))
                    == (old(self).matchable(spans, anc, k, start) && k <= end)),
            forall|spans: Map<SpanKey, Span>|
                (#[trigger] span_plan_sound(*old(self), spans)) ==> span_plan_sound(
                    *final(self),
                    spans,
                ),
            forall|spans: Map<SpanKey, Span>|
                (#[trigger] old(self).keys_stored(spans)) ==> final(self).keys_stored(spans),
        decreases old(self).size(),
    {
        let ghost orig = *old(self);
        match self {
            IndexedSpanFilter::Single(slice, residual) => {
                let ghost pre_slice = *slice;
                slice.retreat_to(end);
                proof {
                    assert(IndexedSpanFilter::Single(*slice, *residual).size() == 1);
                    assert forall|spans: Map<SpanKey, Span>, anc: Map<Timestamp, Vec<SpanKey>>, k:
                        Timestamp, qs: Timestamp|
                        (#[trigger] IndexedSpanFilter::Single(*slice, *residual).matchable(
                            spans,
                            anc,
                            k,
                            qs,
                        )) == (orig.matchable(spans, anc, k, qs) && k <= end) by {
                        assert(IndexedSpanFilter::Single(*slice, *residual).matchable(
                            spans,
                            anc,
                            k,
                            qs,
                        ) ==> slice.has(k));
                        assert(orig.matchable(spans, anc, k, qs) ==> pre_slice.has(k));
                    }
                    assert forall|spans: Map<SpanKey, Span>|
                        (#[trigger] orig.keys_stored(spans)) implies IndexedSpanFilter::Single(
                        *slice,
                        *residual,
                    ).keys_stored(spans) by {
                        assert forall|i: int|
                            0 <= i < slice.view().len() implies spans.contains_key(
                            #[trigger] slice.view()[i],
                        ) by {
                            assert(slice.has(slice.view()[i]));
                            assert(pre_slice.has(slice.view()[i]));
                            let j = choose|j: int|
                                0 <= j < pre_slice.view().len() && pre_slice.view()[j]
                                    == slice.view()[i];
                            assert(spans.contains_key(pre_slice.view()[j]));
                        }
                    }
                }
            },
            IndexedSpanFilter::Stratified(slice, range, residual) => {
                let ghost pre_slice = *slice;
                let trim_start: Timestamp = if start >= range.end {
                    start - range.end
                } else {
                    0
                };
                slice.advance_to(trim_start);
                slice.retreat_to(end);
                proof {
                    let cur = IndexedSpanFilter::Stratified(*slice, *range, *residual);
                    assert(cur.size() == 1);
                    assert forall|spans: Map<SpanKey, Span>, anc: Map<Timestamp, Vec<SpanKey>>, k:
                        Timestamp, qs: Timestamp|
                        (#[trigger] cur.matchable(spans, anc, k, qs)) implies (orig.matchable(
                        spans,
                        anc,
                        k,
                        qs,
                    ) && k <= end) by {
                        assert(cur.matchable(spans, anc, k, qs) ==> slice.has(k));
                        assert(slice.has(k) ==> pre_slice.has(k) && k <= end);
                    }
                    assert forall|spans: Map<SpanKey, Span>, anc: Map<Timestamp, Vec<SpanKey>>, k:
                        Timestamp|
                        #![trigger cur.matchable(spans, anc, k, start)]
                        span_plan_sound(orig, spans) implies ((cur.matchable(spans, anc, k, start))
                        == (orig.matchable(spans, anc, k, start) && k <= end)) by {
                        if orig.matchable(spans, anc, k, start) && k <= end {
                            assert(pre_slice.has(k));
                            if k < trim_start {
                                let i = choose|i: int|
                                    0 <= i < pre_slice.view().len() && pre_slice.view()[i] == k;
                                assert(spans.contains_key(k) && spans[k].created_at == k);
                                assert(span_live_at(spans, k, start));
                                match spans[k].spec_duration() {
                                    Some(d) => {
                                        assert(d < range.end);
                                        assert(k < start);
                                        match spans[k].closed_at {
                                            Some(c) => {
                                                assert(c <= k + d || c < k);
                                                assert(c < start);
                                                assert(!span_live_at(spans, k, start));
                                            },
                                            None => {
                                                assert(spans[k].spec_duration() is None);
                                            },
                                        }
                                    },
                                    None => {
                                        assert(range.end == u64::MAX);
                                        assert(trim_start == 0);
                                    },
                                }
                            } else {
                                assert(slice.has(k));
                            }
                        }
                    }
                    assert forall|spans: Map<SpanKey, Span>|
                        (#[trigger] span_plan_sound(orig, spans)) implies span_plan_sound(
                        cur,
                        spans,
                    ) by {
                        assert forall|i: int|
                            0 <= i < slice.view().len() implies {
                            let k = #[trigger] slice.view()[i];
                            spans.contains_key(k) && spans[k].created_at == k && (
                            match spans[k].spec_duration() {
                                Some(d) => d < range.end || range.end == u64::MAX,
                                None => range.end == u64::MAX,
                            })
                        } by {
                            let k = slice.view()[i];
                            assert(slice.has(k));
                            assert(pre_slice.has(k));
                            let j = choose|j: int|
                                0 <= j < pre_slice.view().len() && pre_slice.view()[j] == k;
                        }
                    }
                    assert forall|spans: Map<SpanKey, Span>|
                        (#[trigger] orig.keys_stored(spans)) implies cur.keys_stored(spans) by {
                        assert forall|i: int|
                            0 <= i < slice.view().len() implies spans.contains_key(
                            #[trigger] slice.view()[i],
                        ) by {
                            let k = slice.view()[i];
                            assert(slice.has(k));
                            assert(pre_slice.has(k));
                            let j = choose|j: int|
                                0 <= j < pre_slice.view().len() && pre_slice.view()[j] == k;
                            assert(spans.contains_key(pre_slice.view()[j]));
                        }
                    }
                }
            },
            IndexedSpanFilter::And(filters) => {
                let ghost orig_vec = *filters;
                let ghost orig_children = filters@;
                proof {
                    assert(orig == IndexedSpanFilter::And(orig_vec));
                }
                let n = filters.len();
                let mut i: usize = 0;
                while i < n
                    invariant
                        n == filters@.len(),
                        n >= 1,
                        0 <= i <= n,
                        forall|j: int| 0 <= j < n ==> (#[trigger] filters@[j]).wf(),
                        forall|j: int|
                            0 <= j < n ==> (#[trigger] filters@[j]).size() == orig_children[j].size(),
                        forall|j: int| i <= j < n ==> filters@[j] == orig_children[j],
                        forall|j: int, spans: Map<SpanKey, Span>, anc: Map<Timestamp, Vec<SpanKey>>,
                            k: Timestamp, qs: Timestamp|
                            0 <= j < i ==> ((#[trigger] filters@[j].matchable(spans, anc, k, qs))
                                ==> (orig_children[j].matchable(spans, anc, k, qs) && k <= end)),
                        forall|j: int, spans: Map<SpanKey, Span>, anc: Map<Timestamp, Vec<SpanKey>>,
                            k: Timestamp|
                            #![trigger filters@[j].matchable(spans, anc, k, start)]
                            0 <= j < i && span_plan_sound(orig_children[j], spans) ==> ((
                            filters@[j].matchable(spans, anc, k, start)) == (
                            orig_children[j].matchable(spans, anc, k, start) && k <= end)),
                        forall|j: int, spans: Map<SpanKey, Span>|
                            0 <= j < i && (#[trigger] span_plan_sound(orig_children[j], spans))
                                ==> span_plan_sound(filters@[j], spans),
                        forall|j: int, spans: Map<SpanKey, Span>|
                            0 <= j < i && (#[trigger] orig_children[j].keys_stored(spans))
                                ==> filters@[j].keys_stored(spans),
                    decreases n - i,
                {
                    proof {
                        lemma_span_child_size_le(orig_vec, n as int, i as int);
                        assert(filters@[i as int].size() == orig_children[i as int].size());
                    }
                    filters[i].trim_to_timeframe(start, end);
                    i = i + 1;
                }
                proof {
                    lemma_span_size_of_children_congruent(*filters, orig_vec, n as int);
                    let cur = *filters;
                    assert forall|spans: Map<SpanKey, Span>, anc: Map<Timestamp, Vec<SpanKey>>, k:
                        Timestamp, qs: Timestamp|
                        (#[trigger] IndexedSpanFilter::And(cur).matchable(spans, anc, k, qs))
                            implies (orig.matchable(spans, anc, k, qs) && k <= end) by {
                        lemma_ispan_and_elim(cur, spans, anc, k, qs, 0);
                        assert(k <= end);
                        assert forall|j: int| 0 <= j < n implies (
                        #[trigger] orig_children[j]).matchable(spans, anc, k, qs) by {
                            lemma_ispan_and_elim(cur, spans, anc, k, qs, j);
                        }
                        lemma_ispan_and_intro(orig_vec, spans, anc, k, qs);
                    }
                    assert forall|spans: Map<SpanKey, Span>, anc: Map<Timestamp, Vec<SpanKey>>, k:
                        Timestamp|
                        #![trigger IndexedSpanFilter::And(cur).matchable(spans, anc, k, start)]
                        span_plan_sound(orig, spans) implies ((IndexedSpanFilter::And(
                        cur,
                    ).matchable(spans, anc, k, start)) == (orig.matchable(spans, anc, k, start) && k
                        <= end)) by {
                        if orig.matchable(spans, anc, k, start) && k <= end {
                            assert forall|j: int| 0 <= j < n implies (
                            #[trigger] cur@[j]).matchable(spans, anc, k, start) by {
                                lemma_ispan_and_elim(orig_vec, spans, anc, k, start, j);
                                assert(span_plan_sound(orig_children[j], spans));
                            }
                            lemma_ispan_and_intro(cur, spans, anc, k, start);
                        }
                        if IndexedSpanFilter::And(cur).matchable(spans, anc, k, start) {
                            lemma_ispan_and_elim(cur, spans, anc, k, start, 0);
                            assert forall|j: int| 0 <= j < n implies (
                            #[trigger] orig_children[j]).matchable(spans, anc, k, start) by {
                                lemma_ispan_and_elim(cur, spans, anc, k, start, j);
                            }
                            lemma_ispan_and_intro(orig_vec, spans, anc, k, start);
                        }
                    }
                    assert forall|spans: Map<SpanKey, Span>|
                        (#[trigger] span_plan_sound(orig, spans)) implies span_plan_sound(
                        IndexedSpanFilter::And(cur),
                        spans,
                    ) by {
                        assert forall|j: int|
                            0 <= j < n implies span_plan_sound(#[trigger] cur@[j], spans) by {
                            assert(span_plan_sound(orig_children[j], spans));
                        }
                    }
                    assert forall|spans: Map<SpanKey, Span>|
                        (#[trigger] orig.keys_stored(spans)) implies IndexedSpanFilter::And(
                        cur,
                    ).keys_stored(spans) by {
                        assert forall|j: int|
                            0 <= j < n implies (#[trigger] cur@[j]).keys_stored(spans) by {
                            assert(orig_children[j].keys_stored(spans));
                        }
                    }
                }
            },
            IndexedSpanFilter::Or(filters) => {
                let ghost orig_vec = *filters;
                let ghost orig_children = filters@;
                proof {
                    assert(orig == IndexedSpanFilter::Or(orig_vec));
                }
                let n = filters.len();
                let mut i: usize = 0;
                while i < n
                    invariant
                        n == filters@.len(),
                        0 <= i <= n,
                        forall|j: int| 0 <= j < n ==> (#[trigger] filters@[j]).wf(),
                        forall|j: int|
                            0 <= j < n ==> (#[trigger] filters@[j]).size() == orig_children[j].size(),
                        forall|j: int| i <= j < n ==> filters@[j] == orig_children[j],
                        forall|j: int, spans: Map<SpanKey, Span>, anc: Map<Timestamp, Vec<SpanKey>>,
                            k: Timestamp, qs: Timestamp|
                            0 <= j < i ==> ((#[trigger] filters@[j].matchable(spans, anc, k, qs))
                                ==> (orig_children[j].matchable(spans, anc, k, qs) && k <= end)),
                        forall|j: int, spans: Map<SpanKey, Span>, anc: Map<Timestamp, Vec<SpanKey>>,
                            k: Timestamp|
                            #![trigger filters@[j].matchable(spans, anc, k, start)]
                            0 <= j < i && span_plan_sound(orig_children[j], spans) ==> ((
                            filters@[j].matchable(spans, anc, k, start)) == (
                            orig_children[j].matchable(spans, anc, k, start) && k <= end)),
                        forall|j: int, spans: Map<SpanKey, Span>|
                            0 <= j < i && (#[trigger] span_plan_sound(orig_children[j], spans))
                                ==> span_plan_sound(filters@[j], spans),
                        forall|j: int, spans: Map<SpanKey, Span>|
                            0 <= j < i && (#[trigger] orig_children[j].keys_stored(spans))
                                ==> filters@[j].keys_stored(spans),
                    decreases n - i,
                {
                    proof {
                        lemma_span_child_size_le(orig_vec, n as int, i as int);
                        assert(filters@[i as int].size() == orig_children[i as int].size());
                    }
                    filters[i].trim_to_timeframe(start, end);
                    i = i + 1;
                }
                proof {
                    lemma_span_size_of_children_congruent(*filters, orig_vec, n as int);
                    let cur = *filters;
                    assert forall|spans: Map<SpanKey, Span>, anc: Map<Timestamp, Vec<SpanKey>>, k:
                        Timestamp, qs: Timestamp|
                        (#[trigger] IndexedSpanFilter::Or(cur).matchable(spans, anc, k, qs))
                            implies (orig.matchable(spans, anc, k, qs) && k <= end) by {
                        let j = lemma_ispan_or_elim(cur, spans, anc, k, qs);
                        lemma_ispan_or_intro(orig_vec, spans, anc, k, qs, j);
                    }
                    assert forall|spans: Map<SpanKey, Span>, anc: Map<Timestamp, Vec<SpanKey>>, k:
                        Timestamp|
                        #![trigger IndexedSpanFilter::Or(cur).matchable(spans, anc, k, start)]
                        span_plan_sound(orig, spans) implies ((IndexedSpanFilter::Or(cur).matchable(
                        spans,
                        anc,
                        k,
                        start,
                    )) == (orig.matchable(spans, anc, k, start) && k <= end)) by {
                        if orig.matchable(spans, anc, k, start) && k <= end {
                            let j = lemma_ispan_or_elim(orig_vec, spans, anc, k, start);
                            assert(span_plan_sound(orig_children[j], spans));
                            lemma_ispan_or_intro(cur, spans, anc, k, start, j);
                        }
                        if IndexedSpanFilter::Or(cur).matchable(spans, anc, k, start) {
                            let j = lemma_ispan_or_elim(cur, spans, anc, k, start);
                            lemma_ispan_or_intro(orig_vec, spans, anc, k, start, j);
                        }
                    }
                    assert forall|spans: Map<SpanKey, Span>|
                        (#[trigger] span_plan_sound(orig, spans)) implies span_plan_sound(
                        IndexedSpanFilter::Or(cur),
                        spans,
                    ) by {
                        assert forall|j: int|
                            0 <= j < n implies span_plan_sound(#[trigger] cur@[j], spans) by {
                            assert(span_plan_sound(orig_children[j], spans));
                        }
                    }
                    assert forall|spans: Map<SpanKey, Span>|
                        (#[trigger] orig.keys_stored(spans)) implies IndexedSpanFilter::Or(
                        cur,
                    ).keys_stored(spans) by {
                        assert forall|j: int|
                            0 <= j < n implies (#[trigger] cur@[j]).keys_stored(spans) by {
                            assert(orig_children[j].keys_stored(spans));
                        }
                    }
                }
            },
        }
    }
}


/// Two span plan lists that hold the same plans.
pub open spec fn same_span_members(a: Seq<IndexedSpanFilter>, b: Seq<IndexedSpanFilter>) -> bool {
    &&& a.len() == b.len()
    &&& (forall|x: IndexedSpanFilter| #![trigger a.contains(x)] #![trigger b.contains(x)]
        a.contains(x) == b.contains(x))
}

/// Ordered ascending by estimated yield.
pub open spec fn span_children_ordered(fs: Seq<IndexedSpanFilter>) -> bool {
    forall|j1: int, j2: int|
        0 <= j1 < j2 < fs.len() ==> spec_span_estimate(#[trigger] fs[j1]) <= spec_span_estimate(
            #[trigger] fs[j2],
        )
}

/// Sorts plan children ascending by estimated yield, selecting the
/// cheapest of the rest each round; every child keeps a place on both
/// sides.
#[verifier::loop_isolation(false)]
#[verifier::rlimit(100)]
#[verifier::spinoff_prover]
fn sort_span_children(v: &mut Vec<IndexedSpanFilter>)
    requires
        forall|j: int| 0 <= j < old(v)@.len() ==> (#[trigger] old(v)@[j]).wf(),
    ensures
        same_span_members(old(v)@, final(v)@),
        span_children_ordered(final(v)@),
        forall|j: int| 0 <= j < final(v)@.len() ==> (#[trigger] final(v)@[j]).wf(),
{
    let ghost orig = old(v)@;
    let n = v.len();
    let mut out: Vec<IndexedSpanFilter> = Vec::new();
    let mut rest: Vec<IndexedSpanFilter> = Vec::new();
    core::mem::swap(v, &mut rest);
    while rest.len() > 0
        invariant
            out@.len() + rest@.len() == n,
            n == orig.len(),
            forall|j: int| 0 <= j < out@.len() ==> (#[trigger] out@[j]).wf(),
            forall|j: int| 0 <= j < rest@.len() ==> (#[trigger] rest@[j]).wf(),
            forall|x: IndexedSpanFilter| #[trigger]
                orig.contains(x) == (out@.contains(x) || rest@.contains(x)),
            span_children_ordered(out@),
            forall|j: int, y: int|
                0 <= j < out@.len() && 0 <= y < rest@.len() ==> spec_span_estimate(
                    #[trigger] out@[j],
                ) <= spec_span_estimate(#[trigger] rest@[y]),
        decreases rest@.len(),
    {
        // pick the cheapest of what is left
        let m = rest.len();
        let mut mi: usize = 0;
        let mut best = rest[0].estimate_count();
        let mut y: usize = 1;
        while y < m
            invariant
                m == rest@.len(),
                forall|j: int| 0 <= j < m ==> (#[trigger] rest@[j]).wf(),
                0 <= mi < m,
                1 <= y <= m,
                best == spec_span_estimate(rest@[mi as int]),
                forall|j: int|
                    0 <= j < y ==> spec_span_estimate(rest@[mi as int]) <= spec_span_estimate(
                        #[trigger] rest@[j],
                    ),
            decreases m - y,
        {
            let e = rest[y].estimate_count();
            if e < best {
                mi = y;
                best = e;
            }
            y = y + 1;
        }
        let ghost pre_rest = rest@;
        let ghost pre_out = out@;
        let x = rest.remove(mi);
        out.push(x);
        proof {
            assert(out@ == pre_out.push(x));
            assert(rest@ == pre_rest.remove(mi as int));
            assert forall|x2: IndexedSpanFilter| #[trigger]
                orig.contains(x2) == (out@.contains(x2) || rest@.contains(x2)) by {
                if orig.contains(x2) {
                    if pre_out.contains(x2) {
                        let j = choose|j: int| 0 <= j < pre_out.len() && pre_out[j] == x2;
                        assert(out@[j] == x2);
                    } else {
                        assert(pre_rest.contains(x2));
                        let j = choose|j: int| 0 <= j < pre_rest.len() && pre_rest[j] == x2;
                        if j == mi {
                            assert(out@[out@.len() - 1] == x2);
                        } else if j < mi {
                            assert(rest@[j] == x2);
                        } else {
                            assert(rest@[j - 1] == x2);
                        }
                    }
                }
                if out@.contains(x2) {
                    let j = choose|j: int| 0 <= j < out@.len() && out@[j] == x2;
                    if j < pre_out.len() {
                        assert(pre_out[j] == x2);
                    } else {
                        assert(pre_rest[mi as int] == x2);
                    }
                }
                if rest@.contains(x2) {
                    let j = choose|j: int| 0 <= j < rest@.len() && rest@[j] == x2;
                    if j < mi {
                        assert(pre_rest[j] == x2);
                    } else {
                        assert(pre_rest[j + 1] == x2);
                    }
                }
            }
            assert forall|j: int, y2: int|
                0 <= j < out@.len() && 0 <= y2 < rest@.len() implies spec_span_estimate(
                #[trigger] out@[j],
            ) <= spec_span_estimate(#[trigger] rest@[y2]) by {
                let prev = if y2 < mi {
                    y2
                } else {
                    y2 + 1
                };
                assert(rest@[y2] == pre_rest[prev]);
                if j < pre_out.len() {
                    assert(out@[j] == pre_out[j]);
                } else {
                    assert(out@[j] == x);
                    assert(spec_span_estimate(x) <= spec_span_estimate(pre_rest[prev]));
                }
            }
            assert forall|j1: int, j2: int|
                0 <= j1 < j2 < out@.len() implies spec_span_estimate(#[trigger] out@[j1])
                <= spec_span_estimate(#[trigger] out@[j2]) by {
                if j2 < pre_out.len() {
                    assert(out@[j1] == pre_out[j1] && out@[j2] == pre_out[j2]);
                } else {
                    assert(out@[j2] == x);
                    assert(out@[j1] == pre_out[j1]);
                    assert(spec_span_estimate(pre_out[j1]) <= spec_span_estimate(
                        pre_rest[mi as int],
                    ));
                }
            }
            assert forall|j: int| 0 <= j < out@.len() implies (#[trigger] out@[j]).wf() by {
                if j < pre_out.len() {
                    assert(out@[j] == pre_out[j]);
                } else {
                    assert(out@[j] == x);
                    assert(pre_rest[mi as int].wf());
                }
            }
            assert forall|j: int| 0 <= j < rest@.len() implies (#[trigger] rest@[j]).wf() by {
                if j < mi {
                    assert(rest@[j] == pre_rest[j]);
                } else {
                    assert(rest@[j] == pre_rest[j + 1]);
                }
            }
        }
    }
    *v = out;
    proof {
        assert forall|x2: IndexedSpanFilter| #[trigger] orig.contains(x2) == v@.contains(x2) by {
            if rest@.contains(x2) {
                let j = choose|j: int| 0 <= j < rest@.len() && rest@[j] == x2;
            }
        }
        assert(same_span_members(orig, v@)) by {
            assert(orig.len() == v@.len());
        }
    }
}

impl IndexedSpanFilter {
    /// Reorders the children of conjunctions and disjunctions by their
    /// estimated yield, cheapest first; the plan can yield the same
    /// keys afterwards.
    #[verifier::loop_isolation(false)]
    #[verifier::spinoff_prover]
    #[verifier::rlimit(100)]
    pub fn optimize(&mut self)
        requires
            old(self).wf(),
        ensures
            final(self).wf(),
            (*old(self)) is Single ==> *final(self) == *old(self),
            (*old(self)) is Stratified ==> *final(self) == *old(self),
            (*old(self)) matches IndexedSpanFilter::And(ofs) ==> ((*final(self)) matches
                IndexedSpanFilter::And(fs) && span_children_ordered(fs@) && same_span_members(
                ofs@,
                fs@,
            )),
            (*old(self)) matches IndexedSpanFilter::Or(ofs) ==> ((*final(self)) matches
                IndexedSpanFilter::Or(fs) && span_children_ordered(fs@) && same_span_members(
                ofs@,
                fs@,
            )),
            forall|spans: Map<SpanKey, Span>, anc: Map<Timestamp, Vec<SpanKey>>, k: Timestamp,
                start: Timestamp|
                (#[trigger] final(self).matchable(spans, anc, k, start)) == old(self).matchable(
                    spans,
                    anc,
                    k,
                    start,
                ),
    {
        let ghost orig = *old(self);
        match self {
            IndexedSpanFilter::Single(_, _) => {},
            IndexedSpanFilter::Stratified(_, _, _) => {},
            IndexedSpanFilter::And(filters) => {
                let ghost orig_vec = *filters;
                proof {
                    assert(orig == IndexedSpanFilter::And(orig_vec));
                }
                sort_span_children(filters);
                proof {
                    let cur = *filters;
                    assert(cur@.len() == orig_vec@.len());
                    assert forall|spans: Map<SpanKey, Span>, anc: Map<Timestamp, Vec<SpanKey>>, k:
                        Timestamp, start: Timestamp|
                        (#[trigger] IndexedSpanFilter::And(cur).matchable(spans, anc, k, start))
                            == orig.matchable(spans, anc, k, start) by {
                        if IndexedSpanFilter::And(cur).matchable(spans, anc, k, start) {
                            assert forall|j: int| 0 <= j < orig_vec@.len() implies (
                            #[trigger] orig_vec@[j]).matchable(spans, anc, k, start) by {
                                assert(orig_vec@.contains(orig_vec@[j]));
                                assert(cur@.contains(orig_vec@[j]));
                                let jj = choose|jj: int|
                                    0 <= jj < cur@.len() && cur@[jj] == orig_vec@[j];
                                lemma_ispan_and_elim(cur, spans, anc, k, start, jj);
                            }
                            lemma_ispan_and_intro(orig_vec, spans, anc, k, start);
                        }
                        if orig.matchable(spans, anc, k, start) {
                            assert forall|j: int| 0 <= j < cur@.len() implies (
                            #[trigger] cur@[j]).matchable(spans, anc, k, start) by {
                                assert(cur@.contains(cur@[j]));
                                assert(orig_vec@.contains(cur@[j]));
                                let jj = choose|jj: int|
                                    0 <= jj < orig_vec@.len() && orig_vec@[jj] == cur@[j];
                                lemma_ispan_and_elim(orig_vec, spans, anc, k, start, jj);
                            }
                            lemma_ispan_and_intro(cur, spans, anc, k, start);
                        }
                    }
                }
            },
            IndexedSpanFilter::Or(filters) => {
                let ghost orig_vec = *filters;
                proof {
                    assert(orig == IndexedSpanFilter::Or(orig_vec));
                }
                sort_span_children(filters);
                proof {
                    let cur = *filters;
                    assert(cur@.len() == orig_vec@.len());
                    assert forall|spans: Map<SpanKey, Span>, anc: Map<Timestamp, Vec<SpanKey>>, k:
                        Timestamp, start: Timestamp|
                        (#[trigger] IndexedSpanFilter::Or(cur).matchable(spans, anc, k, start))
                            == orig.matchable(spans, anc, k, start) by {
                        if IndexedSpanFilter::Or(cur).matchable(spans, anc, k, start) {
                            let j = lemma_ispan_or_elim(cur, spans, anc, k, start);
                            assert(cur@.contains(cur@[j]));
                            assert(orig_vec@.contains(cur@[j]));
                            let jj = choose|jj: int|
                                0 <= jj < orig_vec@.len() && orig_vec@[jj] == cur@[j];
                            lemma_ispan_or_intro(orig_vec, spans, anc, k, start, jj);
                        }
                        if orig.matchable(spans, anc, k, start) {
                            let j = lemma_ispan_or_elim(orig_vec, spans, anc, k, start);
                            assert(orig_vec@.contains(orig_vec@[j]));
                            assert(cur@.contains(orig_vec@[j]));
                            let jj = choose|jj: int|
                                0 <= jj < cur@.len() && cur@[jj] == orig_vec@[j];
                            lemma_ispan_or_intro(cur, spans, anc, k, start, jj);
                        }
                    }
                }
            },
        }
    }


}

impl IndexedEventFilter {
    /// How many keys the plan will yield at least and at most: a plain
    /// window yields everything it holds, a residual may drop all of
    /// it, and conjunction and disjunction bound accordingly.
    #[verifier::loop_isolation(false)]
    #[verifier::spinoff_prover]
    pub fn size_hint(&self) -> (r: (usize, Option<usize>))
        requires
            self.wf(),
        ensures
            r.1 is Some ==> r.0 <= r.1->Some_0,
        decreases self.size(),
    {
        match self {
            IndexedEventFilter::Single(slice, residual) => {
                let len = slice.window_len();
                match residual {
                    Some(_) => (0, Some(len)),
                    None => (len, Some(len)),
                }
            },
            IndexedEventFilter::And(fs) => {
                let n = fs.len();
                let mut max: Option<usize> = None;
                let mut min: usize = 0;
                let mut i: usize = 0;
                while i < n
                    invariant
                        n == fs@.len(),
                        0 <= i <= n,
                        forall|j: int| 0 <= j < n ==> (#[trigger] fs@[j]).wf(),
                        match max {
                            Some(m) => min <= m,
                            None => min == 0 || i == 1,
                        },
                        i != 1 ==> min == 0,
                        i == 1 ==> (match max {
                            Some(m) => min <= m,
                            None => true,
                        }),
                    decreases n - i,
                {
                    proof {
                        lemma_child_size_le(*fs, n as int, i as int);
                    }
                    let (cmin, cmax) = fs[i].size_hint();
                    if i == 0 {
                        min = cmin;
                        max = cmax;
                    } else {
                        min = 0;
                        max = merge(max, cmax, |x: usize, y: usize| -> (r: usize)
                            ensures r == if x < y { x } else { y },
                            {
                                if x < y {
                                    x
                                } else {
                                    y
                                }
                            });
                    }
                    i = i + 1;
                }
                (min, max)
            },
            IndexedEventFilter::Or(fs) => {
                let n = fs.len();
                let mut max: Option<usize> = Some(0);
                let mut min: usize = 0;
                let mut i: usize = 0;
                while i < n
                    invariant
                        n == fs@.len(),
                        0 <= i <= n,
                        forall|j: int| 0 <= j < n ==> (#[trigger] fs@[j]).wf(),
                        match max {
                            Some(m) => min <= m,
                            None => true,
                        },
                    decreases n - i,
                {
                    proof {
                        lemma_child_size_le(*fs, n as int, i as int);
                    }
                    let (cmin, cmax) = fs[i].size_hint();
                    if cmin > min {
                        min = cmin;
                    }
                    max = merge(max, cmax, |x: usize, y: usize| -> (r: usize)
                        ensures r == if x <= usize::MAX - y { (x + y) as usize } else { usize::MAX },
                        {
                            if x <= usize::MAX - y {
                                x + y
                            } else {
                                usize::MAX
                            }
                        });
                    match max {
                        Some(m) => {
                            if min > m {
                                min = m;
                            }
                        },
                        None => {},
                    }
                    i = i + 1;
                }
                (min, max)
            },
        }
    }
}

} // verus!
