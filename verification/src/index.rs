//! Timestamp-sorted index structures: per-partition key vectors for
//! events and spans, and the stratified duration index that groups
//! spans into bands by the binary magnitude of their duration.

use core::ops::Range;
use std::collections::HashMap;
use vstd::arithmetic::power2::{lemma2_to64, lemma2_to64_rest, pow2};
use vstd::prelude::*;

use crate::bound::BoundSearch;
use crate::fields::str_eq;
use crate::models::{InstanceKey, SpanKey, Timestamp};

verus! {

/// Strictly ascending: the ordering invariant of every index slice.
pub open spec fn strictly_sorted(s: Seq<Timestamp>) -> bool {
    forall|i: int, j: int| 0 <= i < j < s.len() ==> s[i] < s[j]
}

/// Every key in the slice lies below the bound.
pub open spec fn all_below(s: Seq<Timestamp>, bound: Timestamp) -> bool {
    forall|i: int| 0 <= i < s.len() ==> s[i] < bound
}

/// Appends a key above everything present; the slice stays strictly
/// ascending.
pub fn sorted_push(v: &mut Vec<Timestamp>, key: Timestamp)
    requires
        strictly_sorted(old(v)@),
        all_below(old(v)@, key),
    ensures
        final(v)@ == old(v)@.push(key),
        strictly_sorted(final(v)@),
        forall|k: Timestamp| final(v)@.contains(k) <==> old(v)@.contains(k) || k == key,
{
    v.push(key);
    proof {
        let s = v@;
        assert forall|k: Timestamp| s.contains(k) implies old(v)@.contains(k) || k == key by {
            let i = choose|i: int| 0 <= i < s.len() && s[i] == k;
            if i < s.len() - 1 {
                assert(old(v)@[i] == k);
            }
        }
        assert forall|k: Timestamp| old(v)@.contains(k) implies s.contains(k) by {
            let i = choose|i: int| 0 <= i < old(v)@.len() && old(v)@[i] == k;
            assert(s[i] == k);
        }
        assert(s.contains(key)) by {
            assert(s[s.len() - 1] == key);
        }
    }
}

/// Inserts a key at its sorted position; the slice keeps its members
/// and gains the key.
pub fn sorted_insert(v: &mut Vec<Timestamp>, key: Timestamp)
    requires
        strictly_sorted(old(v)@),
        !old(v)@.contains(key),
    ensures
        strictly_sorted(final(v)@),
        final(v)@.len() == old(v)@.len() + 1,
        forall|k: Timestamp| final(v)@.contains(k) <==> old(v)@.contains(k) || k == key,
{
    proof {
        assert forall|i: int, j: int|
            0 <= i <= j < v@.len() && crate::bound::lt_at(#[trigger] v@[j], key) implies
            crate::bound::lt_at(#[trigger] v@[i], key) by {
            if i < j {
                assert(v@[i] < v@[j]);
            }
        }
    }
    let idx = v.as_slice().lower_bound(&key);
    proof {
        assert forall|i: int| 0 <= i < idx implies v@[i] < key by {
            assert(crate::bound::lt_at(v@[i], key));
        }
        assert forall|i: int| idx <= i < v@.len() implies v@[i] > key by {
            assert(!crate::bound::lt_at(v@[i], key));
            assert(v@[i] != key) by {
                if v@[i] == key {
                    assert(v@.contains(key));
                }
            }
        }
    }
    let ghost old_view = v@;
    v.insert(idx, key);
    proof {
        let s = v@;
        assert(s == old_view.insert(idx as int, key));
        assert forall|i: int, j: int| 0 <= i < j < s.len() implies s[i] < s[j] by {
            let iv = if i < idx {
                old_view[i]
            } else if i == idx {
                key
            } else {
                old_view[i - 1]
            };
            let jv = if j < idx {
                old_view[j]
            } else if j == idx {
                key
            } else {
                old_view[j - 1]
            };
            assert(s[i] == iv && s[j] == jv);
        }
        assert forall|k: Timestamp| s.contains(k) implies old_view.contains(k) || k == key by {
            let i = choose|i: int| 0 <= i < s.len() && s[i] == k;
            if i < idx {
                assert(old_view[i] == k);
            } else if i > idx {
                assert(old_view[i - 1] == k);
            }
        }
        assert forall|k: Timestamp| old_view.contains(k) implies s.contains(k) by {
            let i = choose|i: int| 0 <= i < old_view.len() && old_view[i] == k;
            if i < idx {
                assert(s[i] == k);
            } else {
                assert(s[i + 1] == k);
            }
        }
        assert(s.contains(key)) by {
            assert(s[idx as int] == key);
        }
    }
}

/// Removes a key if present; the slice keeps its other members.
pub fn sorted_remove(v: &mut Vec<Timestamp>, key: Timestamp)
    requires
        strictly_sorted(old(v)@),
    ensures
        strictly_sorted(final(v)@),
        forall|k: Timestamp| final(v)@.contains(k) <==> old(v)@.contains(k) && k != key,
{
    proof {
        assert forall|i: int, j: int|
            0 <= i <= j < v@.len() && crate::bound::lt_at(#[trigger] v@[j], key) implies
            crate::bound::lt_at(#[trigger] v@[i], key) by {
            if i < j {
                assert(v@[i] < v@[j]);
            }
        }
    }
    let idx = v.as_slice().lower_bound(&key);
    proof {
        assert forall|i: int| 0 <= i < idx implies v@[i] < key by {
            assert(crate::bound::lt_at(v@[i], key));
        }
        assert forall|i: int| idx <= i < v@.len() implies v@[i] >= key by {
            assert(!crate::bound::lt_at(v@[i], key));
        }
    }
    if idx < v.len() && v[idx] == key {
        let ghost old_view = v@;
        v.remove(idx);
        proof {
            let s = v@;
            assert forall|i: int, j: int| 0 <= i < j < s.len() implies s[i] < s[j] by {
                let iv = if i < idx {
                    old_view[i]
                } else {
                    old_view[i + 1]
                };
                let jv = if j < idx {
                    old_view[j]
                } else {
                    old_view[j + 1]
                };
                assert(s[i] == iv && s[j] == jv);
            }
            assert forall|k: Timestamp| s.contains(k) implies old_view.contains(k) && k != key by {
                let i = choose|i: int| 0 <= i < s.len() && s[i] == k;
                if i < idx {
                    assert(old_view[i] == k);
                    assert(k < key);
                } else {
                    assert(old_view[i + 1] == k);
                    assert(k > key);
                }
            }
            assert forall|k: Timestamp| old_view.contains(k) && k != key implies s.contains(k) by {
                let i = choose|i: int| 0 <= i < old_view.len() && old_view[i] == k;
                if i < idx {
                    assert(s[i] == k);
                } else if i > idx {
                    assert(s[i - 1] == k);
                }
            }
        }
    } else {
        proof {
            assert forall|k: Timestamp| v@.contains(k) implies k != key by {
                let i = choose|i: int| 0 <= i < v@.len() && v@[i] == k;
                if idx <= i {
                    if idx < v@.len() {
                        assert(v@[idx as int] != key);
                        if i > idx {
                            assert(v@[idx as int] < v@[i]);
                        }
                    }
                }
            }
        }
    }
}

/// Appends a key to the vector held under a map key, creating the
/// vector if absent; all vectors stay strictly ascending.
pub fn map_sorted_push(m: &mut HashMap<u64, Vec<Timestamp>>, mk: u64, key: Timestamp)
    requires
        forall|k: u64| #[trigger] old(m)@.contains_key(k) ==> strictly_sorted(old(m)@[k]@),
        old(m)@.contains_key(mk) ==> all_below(old(m)@[mk]@, key),
    ensures
        final(m)@.contains_key(mk),
        forall|k: u64| #[trigger] final(m)@.contains_key(k) <==> old(m)@.contains_key(k) || k == mk,
        forall|k: u64|
            #[trigger] old(m)@.contains_key(k) && k != mk ==> final(m)@[k] == old(m)@[k],
        final(m)@[mk]@ == if old(m)@.contains_key(mk) {
            old(m)@[mk]@.push(key)
        } else {
            seq![key]
        },
        forall|k2: Timestamp|
            #[trigger] final(m)@[mk]@.contains(k2) <==> (old(m)@.contains_key(mk)
                && old(m)@[mk]@.contains(k2)) || k2 == key,
        forall|k: u64| #[trigger] final(m)@.contains_key(k) ==> strictly_sorted(final(m)@[k]@),
{
    let ghost old_m = m@;
    let mut v: Vec<Timestamp> = match m.remove(&mk) {
        Some(v) => v,
        None => Vec::new(),
    };
    sorted_push(&mut v, key);
    proof {
        if old_m.contains_key(mk) {
            assert(v@ =~= old_m[mk]@.push(key));
        } else {
            assert(v@ =~= seq![key]);
            assert forall|k2: Timestamp| #[trigger] v@.contains(k2) implies k2 == key by {
                let i = choose|i: int| 0 <= i < v@.len() && v@[i] == k2;
            }
            assert(v@.contains(key)) by {
                assert(v@[0] == key);
            }
        }
    }
    m.insert(mk, v);
}

/// The indexes the engine keeps over events.
pub struct EventIndexes {
    /// Every event key, ascending.
    pub all: Vec<Timestamp>,
    /// One slice per level rank.
    pub levels: Vec<Vec<Timestamp>>,
    /// Event keys grouped by owning instance.
    pub instances: HashMap<InstanceKey, Vec<Timestamp>>,
    /// Event keys grouped by each span in their ancestor chain.
    pub descendents: HashMap<SpanKey, Vec<Timestamp>>,
}

impl EventIndexes {
    /// Every slice is strictly ascending, and there is one per level.
    pub open spec fn wf(self) -> bool {
        &&& self.levels@.len() == 5
        &&& strictly_sorted(self.all@)
        &&& (forall|l: int| 0 <= l < 5 ==> strictly_sorted(#[trigger] self.levels@[l]@))
        &&& (forall|k: u64| #[trigger]
            self.instances@.contains_key(k) ==> strictly_sorted(self.instances@[k]@))
        &&& (forall|k: u64| #[trigger]
            self.descendents@.contains_key(k) ==> strictly_sorted(self.descendents@[k]@))
    }

    pub fn new() -> (r: EventIndexes)
        ensures
            r.wf(),
            r.all@.len() == 0,
            forall|l: int| 0 <= l < 5 ==> (#[trigger] r.levels@[l])@.len() == 0,
            r.instances@ =~= Map::<u64, Vec<Timestamp>>::empty(),
            r.descendents@ =~= Map::<u64, Vec<Timestamp>>::empty(),
    {
        let mut levels: Vec<Vec<Timestamp>> = Vec::new();
        levels.push(Vec::new());
        levels.push(Vec::new());
        levels.push(Vec::new());
        levels.push(Vec::new());
        levels.push(Vec::new());
        EventIndexes {
            all: Vec::new(),
            levels,
            instances: HashMap::new(),
            descendents: HashMap::new(),
        }
    }
}

/// The indexes the engine keeps over spans.
pub struct SpanIndexes {
    /// Every span key, ascending.
    pub all: Vec<Timestamp>,
    /// One slice per level rank.
    pub levels: Vec<Vec<Timestamp>>,
    /// Span keys grouped by owning instance.
    pub instances: HashMap<InstanceKey, Vec<Timestamp>>,
    /// Span keys grouped by each span in their ancestor chain.
    pub descendents: HashMap<SpanKey, Vec<Timestamp>>,
    /// Span keys grouped by span name.
    pub names: Vec<(String, Vec<Timestamp>)>,
    /// Spans with no parent.
    pub roots: Vec<Timestamp>,
    /// The stratified duration index.
    pub durations: SpanDurationIndex,
}

/// What a name-keyed entry list maps a name to.
pub open spec fn names_get(s: Seq<(String, Vec<Timestamp>)>, k: Seq<char>) -> Option<
    Vec<Timestamp>,
>
    decreases s.len(),
{
    if s.len() == 0 {
        None
    } else if s[0].0@ == k {
        Some(s[0].1)
    } else {
        names_get(s.drop_first(), k)
    }
}

/// If the first entries do not hold the name, lookup can skip them.
pub proof fn lemma_names_get_skip(s: Seq<(String, Vec<Timestamp>)>, k: Seq<char>, i: int)
    requires
        0 <= i <= s.len(),
        forall|j: int| 0 <= j < i ==> s[j].0@ != k,
    ensures
        names_get(s, k) == names_get(s.skip(i), k),
    decreases i,
{
    if i > 0 {
        assert(s.skip(1) =~= s.drop_first());
        lemma_names_get_skip(s.drop_first(), k, i - 1);
        assert(s.drop_first().skip(i - 1) =~= s.skip(i));
    } else {
        assert(s.skip(0) =~= s);
    }
}

impl SpanIndexes {
    pub open spec fn wf(self) -> bool {
        &&& self.levels@.len() == 5
        &&& strictly_sorted(self.all@)
        &&& (forall|l: int| 0 <= l < 5 ==> strictly_sorted(#[trigger] self.levels@[l]@))
        &&& (forall|k: u64| #[trigger]
            self.instances@.contains_key(k) ==> strictly_sorted(self.instances@[k]@))
        &&& (forall|k: u64| #[trigger]
            self.descendents@.contains_key(k) ==> strictly_sorted(self.descendents@[k]@))
        &&& (forall|i: int|
            0 <= i < self.names@.len() ==> strictly_sorted(#[trigger] self.names@[i].1@))
        &&& (forall|i: int, j: int|
            0 <= i < j < self.names@.len() ==> (#[trigger] self.names@[i]).0@ != (
            #[trigger] self.names@[j]).0@)
        &&& strictly_sorted(self.roots@)
        &&& self.durations.wf()
    }

    pub fn new() -> (r: SpanIndexes)
        ensures
            r.wf(),
            r.all@.len() == 0,
            forall|l: int| 0 <= l < 5 ==> (#[trigger] r.levels@[l])@.len() == 0,
            r.instances@ =~= Map::<u64, Vec<Timestamp>>::empty(),
            r.descendents@ =~= Map::<u64, Vec<Timestamp>>::empty(),
            r.names@.len() == 0,
            r.roots@.len() == 0,
            forall|b: int| 0 <= b < 64 ==> (#[trigger] r.durations.bands@[b])@.len() == 0,
    {
        let mut levels: Vec<Vec<Timestamp>> = Vec::new();
        levels.push(Vec::new());
        levels.push(Vec::new());
        levels.push(Vec::new());
        levels.push(Vec::new());
        levels.push(Vec::new());
        SpanIndexes {
            all: Vec::new(),
            levels,
            instances: HashMap::new(),
            descendents: HashMap::new(),
            names: Vec::new(),
            roots: Vec::new(),
            durations: SpanDurationIndex::new(),
        }
    }

    /// Looks up the key slice of a span name.
    pub fn name_slice(&self, name: &str) -> (r: Option<&Vec<Timestamp>>)
        ensures
            match r {
                Some(v) => names_get(self.names@, name@) == Some(*v) && exists|i: int|
                    0 <= i < self.names@.len() && (#[trigger] self.names@[i]).1 == *v,
                None => names_get(self.names@, name@) is None,
            },
    {
        let n = self.names.len();
        let mut i: usize = 0;
        while i < n
            invariant
                n == self.names@.len(),
                0 <= i <= n,
                forall|j: int| 0 <= j < i ==> self.names@[j].0@ != name@,
            decreases n - i,
        {
            if str_eq(self.names[i].0.as_str(), name) {
                proof {
                    lemma_names_get_skip(self.names@, name@, i as int);
                    assert(self.names@.skip(i as int)[0] == self.names@[i as int]);
                }
                return Some(&self.names[i].1);
            }
            i = i + 1;
        }
        proof {
            lemma_names_get_skip(self.names@, name@, n as int);
            assert(self.names@.skip(n as int) =~= Seq::<(String, Vec<Timestamp>)>::empty());
        }
        None
    }

    /// Appends a span key under its name, creating the entry if new.
    #[verifier::loop_isolation(false)]
    pub fn name_push(&mut self, name: String, key: Timestamp)
        requires
            forall|i: int|
                0 <= i < old(self).names@.len() ==> strictly_sorted(
                    #[trigger] old(self).names@[i].1@,
                ) && all_below(old(self).names@[i].1@, key),
        ensures
            forall|i: int|
                0 <= i < final(self).names@.len() ==> strictly_sorted(
                    #[trigger] final(self).names@[i].1@,
                ),
            (forall|i: int, j: int|
                0 <= i < j < old(self).names@.len() ==> (#[trigger] old(self).names@[i]).0@ != (
                #[trigger] old(self).names@[j]).0@) ==> (forall|i: int, j: int|
                0 <= i < j < final(self).names@.len() ==> (#[trigger] final(self).names@[i]).0@
                    != (#[trigger] final(self).names@[j]).0@),
            match names_get(final(self).names@, name@) {
                Some(v) => v@ == match names_get(old(self).names@, name@) {
                    Some(o) => o@.push(key),
                    None => seq![key],
                },
                None => false,
            },
            forall|k: Seq<char>|
                k != name@ ==> #[trigger] names_eq_at(
                    old(self).names@,
                    final(self).names@,
                    k,
                ),
            final(self).all == old(self).all,
            final(self).levels == old(self).levels,
            final(self).instances == old(self).instances,
            final(self).descendents == old(self).descendents,
            final(self).roots == old(self).roots,
            final(self).durations == old(self).durations,
    {
        let ghost old_names = self.names@;
        let n = self.names.len();
        let mut i: usize = 0;
        while i < n
            invariant
                n == self.names@.len(),
                0 <= i <= n,
                self.names@ == old_names,
                self.all == old(self).all,
                self.levels == old(self).levels,
                self.instances == old(self).instances,
                self.descendents == old(self).descendents,
                self.roots == old(self).roots,
                self.durations == old(self).durations,
                forall|j: int| 0 <= j < i ==> old_names[j].0@ != name@,
                forall|j: int|
                    0 <= j < n ==> strictly_sorted(#[trigger] old_names[j].1@) && all_below(
                        old_names[j].1@,
                        key,
                    ),
            decreases n - i,
        {
            if str_eq(self.names[i].0.as_str(), name.as_str()) {
                let entry = &mut self.names[i];
                sorted_push(&mut entry.1, key);
                proof {
                    let new_names = self.names@;
                    assert(new_names[i as int].0 == old_names[i as int].0);
                    assert(new_names[i as int].1@ == old_names[i as int].1@.push(key));
                    lemma_names_get_skip(new_names, name@, i as int);
                    assert(new_names.skip(i as int)[0] == new_names[i as int]);
                    lemma_names_get_skip(old_names, name@, i as int);
                    assert(old_names.skip(i as int)[0] == old_names[i as int]);
                    assert forall|k: Seq<char>| k != name@ implies names_eq_at(
                        old_names,
                        new_names,
                        k,
                    ) by {
                        lemma_names_unrelated(old_names, new_names, k, i as int);
                    }
                    assert forall|l: int, m: int|
                        0 <= l < m < new_names.len() && (forall|l2: int, m2: int|
                            0 <= l2 < m2 < old_names.len() ==> (#[trigger] old_names[l2]).0@ != (
                            #[trigger] old_names[m2]).0@) implies (#[trigger] new_names[l]).0@ != (
                    #[trigger] new_names[m]).0@ by {
                        assert(new_names[l].0 == old_names[l].0);
                        assert(new_names[m].0 == old_names[m].0);
                    }
                }
                return ;
            }
            i = i + 1;
        }
        let mut v: Vec<Timestamp> = Vec::new();
        v.push(key);
        proof {
            assert(v@ =~= seq![key]);
            assert(strictly_sorted(v@));
        }
        self.names.push((name, v));
        proof {
            let new_names = self.names@;
            lemma_names_get_skip(new_names, new_names[n as int].0@, n as int);
            assert(new_names.skip(n as int)[0] == new_names[n as int]);
            lemma_names_get_skip(old_names, new_names[n as int].0@, n as int);
            assert(old_names.skip(n as int) =~= Seq::<(String, Vec<Timestamp>)>::empty());
            assert forall|k: Seq<char>| k != new_names[n as int].0@ implies names_eq_at(
                old_names,
                new_names,
                k,
            ) by {
                lemma_names_unrelated_append(old_names, new_names, k);
            }
            assert forall|l: int, m: int|
                0 <= l < m < new_names.len() && (forall|l2: int, m2: int|
                    0 <= l2 < m2 < old_names.len() ==> (#[trigger] old_names[l2]).0@ != (
                    #[trigger] old_names[m2]).0@) implies (#[trigger] new_names[l]).0@ != (
            #[trigger] new_names[m]).0@ by {
                if m < n as int {
                    assert(new_names[l].0 == old_names[l].0);
                    assert(new_names[m].0 == old_names[m].0);
                } else {
                    assert(new_names[m].0@ == name@);
                    assert(new_names[l].0 == old_names[l].0);
                    assert(old_names[l].0@ != name@);
                }
            }
        }
    }
}

/// Under unique names, the entry at a position is what lookup finds.
pub proof fn lemma_names_get_at(s: Seq<(String, Vec<Timestamp>)>, i: int)
    requires
        0 <= i < s.len(),
        forall|l: int, m: int| 0 <= l < m < s.len() ==> (#[trigger] s[l]).0@ != (#[trigger] s[m]).0@,
    ensures
        names_get(s, s[i].0@) == Some(s[i].1),
{
    assert forall|j: int| 0 <= j < i implies s[j].0@ != s[i].0@ by {}
    lemma_names_get_skip(s, s[i].0@, i);
    assert(s.skip(i)[0] == s[i]);
}

/// Lookup of a name agrees between two entry lists.
pub open spec fn names_eq_at(
    s1: Seq<(String, Vec<Timestamp>)>,
    s2: Seq<(String, Vec<Timestamp>)>,
    k: Seq<char>,
) -> bool {
    names_get(s1, k) == names_get(s2, k)
}

/// Lists that agree everywhere except one position whose name is not
/// the key agree on the key.
proof fn lemma_names_unrelated(
    s1: Seq<(String, Vec<Timestamp>)>,
    s2: Seq<(String, Vec<Timestamp>)>,
    k: Seq<char>,
    at: int,
)
    requires
        s1.len() == s2.len(),
        0 <= at < s1.len(),
        s1[at].0@ != k,
        s2[at].0 == s1[at].0,
        forall|i: int| 0 <= i < s1.len() && i != at ==> s1[i] == s2[i],
    ensures
        names_eq_at(s1, s2, k),
    decreases s1.len(),
{
    if s1.len() > 0 {
        if s1[0].0@ == k {
            assert(at != 0);
            assert(s2[0] == s1[0]);
        } else if at == 0 {
            assert(s2[0].0@ != k);
            assert forall|i: int|
                0 <= i < s1.drop_first().len() implies s1.drop_first()[i]
                == s2.drop_first()[i] by {
                assert(s1.drop_first()[i] == s1[i + 1]);
                assert(s2.drop_first()[i] == s2[i + 1]);
            }
            assert(s1.drop_first() =~= s2.drop_first());
        } else {
            assert(s2[0] == s1[0]);
            assert(s1.drop_first()[at - 1].0@ != k);
            assert(s2.drop_first()[at - 1].0 == s1.drop_first()[at - 1].0);
            assert forall|i: int|
                0 <= i < s1.drop_first().len() && i != at - 1 implies s1.drop_first()[i]
                == s2.drop_first()[i] by {
                assert(s1.drop_first()[i] == s1[i + 1]);
                assert(s2.drop_first()[i] == s2[i + 1]);
            }
            lemma_names_unrelated(s1.drop_first(), s2.drop_first(), k, at - 1);
        }
    }
}

/// Appending an entry under another name leaves a key's lookup alone.
proof fn lemma_names_unrelated_append(
    s1: Seq<(String, Vec<Timestamp>)>,
    s2: Seq<(String, Vec<Timestamp>)>,
    k: Seq<char>,
)
    requires
        s2.len() == s1.len() + 1,
        s2[s1.len() as int].0@ != k,
        forall|i: int| 0 <= i < s1.len() ==> s1[i] == s2[i],
    ensures
        names_eq_at(s1, s2, k),
    decreases s1.len(),
{
    if s1.len() == 0 {
        assert(s2.drop_first() =~= Seq::<(String, Vec<Timestamp>)>::empty());
    } else {
        assert(s2[0] == s1[0]);
        if s1[0].0@ != k {
            assert forall|i: int|
                0 <= i < s1.drop_first().len() implies s1.drop_first()[i]
                == s2.drop_first()[i] by {
                assert(s1.drop_first()[i] == s1[i + 1]);
                assert(s2.drop_first()[i] == s2[i + 1]);
            }
            assert(s2.drop_first()[s1.drop_first().len() as int].0@ != k) by {
                assert(s2.drop_first()[s1.len() - 1] == s2[s1.len() as int]);
            }
            lemma_names_unrelated_append(s1.drop_first(), s2.drop_first(), k);
        }
    }
}

/// The number of stratified bands: one per binary magnitude of a
/// 64-bit duration; the last also holds the still-open spans.
pub const BAND_COUNT: usize = 64;

/// The lower edge of a band.
pub open spec fn band_start(k: int) -> u64 {
    pow2(k as nat) as u64
}

/// The upper edge of a band; the top band is unbounded, marked by the
/// largest value.
pub open spec fn band_end(k: int) -> u64 {
    if k >= 63 {
        u64::MAX
    } else {
        pow2((k + 1) as nat) as u64
    }
}

/// Computes the band of a closed duration: the `k` with
/// `2^k <= d < 2^(k+1)`, capped at the top band.
pub fn band_of(d: u64) -> (r: usize)
    ensures
        r < 64,
        d >= 1 ==> pow2(r as nat) <= d,
        r < 63 ==> d < pow2((r + 1) as nat),
{
    let mut k: usize = 0;
    let mut x: u64 = d;
    proof {
        lemma2_to64();
    }
    while x >= 2 && k < 63
        invariant
            0 <= k <= 63,
            pow2(k as nat) * x <= d || (d == 0 && x == 0),
            d < pow2(k as nat) * (x + 1),
            d >= 1 ==> x >= 1,
        decreases x,
    {
        proof {
            assert(pow2((k + 1) as nat) == 2 * pow2(k as nat)) by {
                vstd::arithmetic::power2::lemma_pow2_unfold((k + 1) as nat);
            }
            let p = pow2(k as nat) as int;
            let x2 = (x / 2) as int;
            assert(p >= 1) by {
                vstd::arithmetic::power2::lemma_pow2_pos(k as nat);
            }
            assert(2 * p * x2 <= p * x) by (nonlinear_arith)
                requires
                    p >= 1,
                    x2 == x as int / 2,
                    x >= 2,
            ;
            assert(p * (x + 1) <= 2 * p * (x2 + 1)) by (nonlinear_arith)
                requires
                    p >= 1,
                    x2 == x as int / 2,
                    x >= 2,
            ;
        }
        x = x / 2;
        k = k + 1;
    }
    proof {
        if d >= 1 {
            assert(x >= 1);
            assert(pow2(k as nat) * 1 <= pow2(k as nat) * x) by (nonlinear_arith)
                requires
                    x >= 1,
                    pow2(k as nat) >= 0,
            ;
        }
        if k < 63 {
            assert(x < 2);
            assert(d < pow2(k as nat) * (x + 1));
            assert(pow2((k + 1) as nat) == 2 * pow2(k as nat)) by {
                vstd::arithmetic::power2::lemma_pow2_unfold((k + 1) as nat);
            }
            assert(pow2(k as nat) * (x + 1) <= 2 * pow2(k as nat)) by (nonlinear_arith)
                requires
                    x < 2,
                    pow2(k as nat) >= 0,
            ;
        }
    }
    k
}

/// The stratified duration index: span keys in bands by the binary
/// magnitude of their duration; still-open spans sit in the top band.
pub struct SpanDurationIndex {
    pub bands: Vec<Vec<Timestamp>>,
}

impl SpanDurationIndex {
    pub open spec fn wf(self) -> bool {
        &&& self.bands@.len() == 64
        &&& (forall|b: int| 0 <= b < 64 ==> strictly_sorted(#[trigger] self.bands@[b]@))
    }

    pub fn new() -> (r: SpanDurationIndex)
        ensures
            r.wf(),
            forall|b: int| 0 <= b < 64 ==> (#[trigger] r.bands@[b])@.len() == 0,
    {
        let mut bands: Vec<Vec<Timestamp>> = Vec::new();
        let mut i: usize = 0;
        while i < 64
            invariant
                bands@.len() == i,
                0 <= i <= 64,
                forall|b: int| 0 <= b < i ==> (#[trigger] bands@[b])@.len() == 0,
            decreases 64 - i,
        {
            bands.push(Vec::new());
            i = i + 1;
        }
        SpanDurationIndex { bands }
    }

    /// Files a newly created, still-open span in the top band.
    pub fn add_open(&mut self, key: Timestamp)
        requires
            old(self).wf(),
            !old(self).bands@[63]@.contains(key),
        ensures
            final(self).wf(),
            final(self).bands@.len() == 64,
            forall|b: int| 0 <= b < 63 ==> final(self).bands@[b] == old(self).bands@[b],
            forall|k: Timestamp|
                final(self).bands@[63]@.contains(k) <==> old(self).bands@[63]@.contains(k) || k
                    == key,
    {
        let band = &mut self.bands[63];
        sorted_insert(band, key);
    }

    /// Moves a span from the top band to the band of its now-final
    /// duration.
    pub fn close(&mut self, key: Timestamp, duration: u64) -> (band: usize)
        requires
            old(self).wf(),
        ensures
            final(self).wf(),
            final(self).bands@.len() == 64,
            band < 64,
            duration >= 1 ==> pow2(band as nat) <= duration,
            band < 63 ==> duration < pow2((band + 1) as nat),
            forall|b: int|
                0 <= b < 64 && b != 63 && b != band ==> final(self).bands@[b] == old(
                    self,
                ).bands@[b],
            forall|k: Timestamp| #![auto]
                k != key ==> (final(self).bands@[band as int]@.contains(k) <==> old(
                    self,
                ).bands@[band as int]@.contains(k)),
            final(self).bands@[band as int]@.contains(key),
            band != 63 ==> (forall|k: Timestamp| #![auto]
                final(self).bands@[63]@.contains(k) <==> old(self).bands@[63]@.contains(k) && k
                    != key),
    {
        let band = band_of(duration);
        {
            let open_band = &mut self.bands[63];
            sorted_remove(open_band, key);
        }
        {
            let target = &mut self.bands[band];
            sorted_remove(target, key);
            sorted_insert(target, key);
        }
        band
    }

    /// Hands out each band with its duration range, for the planner.
    pub fn to_stratified_indexes(&self) -> (r: Vec<(Vec<Timestamp>, Range<u64>)>)
        requires
            self.wf(),
        ensures
            r@.len() == 64,
            forall|b: int|
                0 <= b < 64 ==> (#[trigger] r@[b]).0@ == self.bands@[b]@ && r@[b].1.start
                    == band_start(b) && r@[b].1.end == band_end(b),
    {
        let mut out: Vec<(Vec<Timestamp>, Range<u64>)> = Vec::new();
        let mut start: u64 = 1;
        let mut b: usize = 0;
        proof {
            lemma2_to64();
            lemma2_to64_rest();
        }
        while b < 64
            invariant
                self.wf(),
                out@.len() == b,
                0 <= b <= 64,
                start == pow2(b as nat) || b == 64,
                b < 64 ==> start == band_start(b as int),
                forall|i: int|
                    0 <= i < b ==> (#[trigger] out@[i]).0@ == self.bands@[i]@ && out@[i].1.start
                        == band_start(i) && out@[i].1.end == band_end(i),
            decreases 64 - b,
        {
            let band_vec = vstd::slice::slice_to_vec(self.bands[b].as_slice());
            let end: u64 = if b >= 63 {
                u64::MAX
            } else {
                proof {
                    lemma2_to64_rest();
                    assert(pow2((b + 1) as nat) == 2 * pow2(b as nat)) by {
                        vstd::arithmetic::power2::lemma_pow2_unfold((b + 1) as nat);
                    }
                    assert(pow2(b as nat) <= pow2(62)) by {
                        if b < 62 {
                            vstd::arithmetic::power2::lemma_pow2_strictly_increases(
                                b as nat,
                                62,
                            );
                        }
                    }
                    assert(start <= 0x4000000000000000);
                }
                start * 2
            };
            out.push((band_vec, start..end));
            proof {
                if b < 63 {
                    assert(pow2((b + 1) as nat) == 2 * pow2(b as nat)) by {
                        vstd::arithmetic::power2::lemma_pow2_unfold((b + 1) as nat);
                    }
                }
            }
            if b < 63 {
                start = end;
            }
            b = b + 1;
        }
        out
    }
}

} // verus!
