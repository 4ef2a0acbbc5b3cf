//! Attribute maps: the `fields` of instances, spans and events.
//!
//! A `Fields` value is an association list with unique keys. Lookup
//! returns the value stored for a key; insertion replaces the value of
//! an existing key or appends a new entry.

use vstd::prelude::*;

verus! {

/// Compares two string slices character by character.
pub fn str_eq(a: &str, b: &str) -> (r: bool)
    ensures
        r == (a@ == b@),
{
    let a_len = a.unicode_len();
    let b_len = b.unicode_len();
    if a_len != b_len {
        assert(a@ != b@);
        return false;
    }
    let mut i: usize = 0;
    while i < a_len
        invariant
            a_len == a@.len(),
            b_len == b@.len(),
            a_len == b_len,
            0 <= i <= a_len,
            forall|j: int| 0 <= j < i ==> a@[j] == b@[j],
        decreases a_len - i,
    {
        if a.get_char(i) != b.get_char(i) {
            assert(a@ != b@);
            return false;
        }
        i = i + 1;
    }
    assert(a@ =~= b@);
    true
}

/// What a sequence of entries maps a key to: the value of the first
/// entry whose key matches, if any.
pub open spec fn entries_get(s: Seq<(String, String)>, k: Seq<char>) -> Option<Seq<char>>
    decreases s.len(),
{
    if s.len() == 0 {
        None
    } else if s[0].0@ == k {
        Some(s[0].1@)
    } else {
        entries_get(s.drop_first(), k)
    }
}

/// If the first `i` entries do not hold the key, lookup can skip them.
pub proof fn lemma_entries_get_skip(s: Seq<(String, String)>, k: Seq<char>, i: int)
    requires
        0 <= i <= s.len(),
        forall|j: int| 0 <= j < i ==> s[j].0@ != k,
    ensures
        entries_get(s, k) == entries_get(s.skip(i), k),
    decreases i,
{
    if i > 0 {
        assert(s.skip(1) =~= s.drop_first());
        lemma_entries_get_skip(s.drop_first(), k, i - 1);
        assert(s.drop_first().skip(i - 1) =~= s.skip(i));
    } else {
        assert(s.skip(0) =~= s);
    }
}

/// Lookup at an index whose key matches, when no earlier entry matches.
pub proof fn lemma_entries_get_found(s: Seq<(String, String)>, k: Seq<char>, i: int)
    requires
        0 <= i < s.len(),
        s[i].0@ == k,
        forall|j: int| 0 <= j < i ==> s[j].0@ != k,
    ensures
        entries_get(s, k) == Some(s[i].1@),
    decreases i,
{
    lemma_entries_get_skip(s, k, i);
    assert(s.skip(i)[0] == s[i]);
}

/// A set of named string attributes with unique names.
pub struct Fields {
    pub entries: Vec<(String, String)>,
}

impl Fields {
    /// Unique keys.
    pub open spec fn wf(self) -> bool {
        forall|i: int, j: int|
            0 <= i < j < self.entries@.len() ==> self.entries@[i].0@ != self.entries@[j].0@
    }

    /// The value stored for a key, if any.
    pub open spec fn spec_get(self, k: Seq<char>) -> Option<Seq<char>> {
        entries_get(self.entries@, k)
    }

    pub open spec fn contains_key(self, k: Seq<char>) -> bool {
        self.spec_get(k) is Some
    }

    pub open spec fn spec_entries(self) -> Seq<(String, String)> {
        self.entries@
    }

    pub fn new() -> (r: Fields)
        ensures
            r.wf(),
            r.spec_entries().len() == 0,
            forall|k: Seq<char>| r.spec_get(k) is None,
    {
        Fields { entries: Vec::new() }
    }

    pub fn len(&self) -> (r: usize)
        ensures
            r == self.spec_entries().len(),
    {
        self.entries.len()
    }

    /// The entry at a position, for iteration.
    pub fn entry_at(&self, i: usize) -> (r: &(String, String))
        requires
            i < self.spec_entries().len(),
        ensures
            *r == self.spec_entries()[i as int],
    {
        &self.entries[i]
    }

    pub fn get(&self, key: &str) -> (r: Option<&String>)
        ensures
            match r {
                Some(v) => self.spec_get(key@) == Some(v@),
                None => self.spec_get(key@) is None,
            },
    {
        let n = self.entries.len();
        let mut i: usize = 0;
        while i < n
            invariant
                n == self.entries@.len(),
                0 <= i <= n,
                forall|j: int| 0 <= j < i ==> self.entries@[j].0@ != key@,
            decreases n - i,
        {
            if str_eq(self.entries[i].0.as_str(), key) {
                proof {
                    lemma_entries_get_found(self.entries@, key@, i as int);
                }
                return Some(&self.entries[i].1);
            }
            i = i + 1;
        }
        proof {
            lemma_entries_get_skip(self.entries@, key@, n as int);
            assert(self.entries@.skip(n as int) =~= Seq::<(String, String)>::empty());
        }
        None
    }

    /// Stores a value for a key, replacing any existing value.
    pub fn insert(&mut self, key: String, value: String)
        requires
            old(self).wf(),
        ensures
            final(self).wf(),
            final(self).spec_get(key@) == Some::<Seq<char>>(value@),
            forall|k: Seq<char>| k != key@ ==> final(self).spec_get(k) == old(self).spec_get(k),
            final(self).spec_entries().len() <= old(self).spec_entries().len() + 1,
    {
        let ghost old_entries = old(self).entries@;
        let n = self.entries.len();
        let mut i: usize = 0;
        while i < n
            invariant
                old(self).wf(),
                old_entries == old(self).entries@,
                n == old_entries.len(),
                0 <= i <= n,
                self.entries@ == old_entries,
                forall|j: int| 0 <= j < i ==> old_entries[j].0@ != key@,
            decreases n - i,
        {
            if str_eq(self.entries[i].0.as_str(), key.as_str()) {
                let ghost ii = i as int;
                self.entries[i] = (key, value);
                proof {
                    let new_entries = self.entries@;
                    assert(new_entries[ii].0@ == old_entries[ii].0@);
                    assert forall|l: int, m: int|
                        0 <= l < m < new_entries.len() implies new_entries[l].0@
                        != new_entries[m].0@ by {
                        assert(old_entries[l].0@ != old_entries[m].0@);
                        assert(l != ii ==> new_entries[l] == old_entries[l]);
                        assert(m != ii ==> new_entries[m] == old_entries[m]);
                    }
                    lemma_entries_get_found(new_entries, new_entries[ii].0@, ii);
                    assert forall|k: Seq<char>| k != new_entries[ii].0@ implies entries_get(
                        new_entries,
                        k,
                    ) == entries_get(old_entries, k) by {
                        lemma_entries_unrelated(old_entries, new_entries, k);
                    }
                }
                return ;
            }
            i = i + 1;
        }
        self.entries.push((key, value));
        proof {
            let new_entries = self.entries@;
            assert forall|l: int, m: int|
                0 <= l < m < new_entries.len() implies new_entries[l].0@ != new_entries[m].0@ by {
                if m < n as int {
                    assert(old_entries[l].0@ != old_entries[m].0@);
                } else {
                    assert(new_entries[m].0@ == key@);
                    assert(old_entries[l].0@ != key@);
                }
            }
            lemma_entries_get_found(new_entries, new_entries[n as int].0@, n as int);
            assert forall|k: Seq<char>| k != new_entries[n as int].0@ implies entries_get(
                new_entries,
                k,
            ) == entries_get(old_entries, k) by {
                lemma_entries_unrelated(old_entries, new_entries, k);
            }
        }
    }
}

/// Lookup agrees between entry sequences that are pairwise equal as
/// text, position for position.
pub proof fn lemma_entries_get_congruent(
    s1: Seq<(String, String)>,
    s2: Seq<(String, String)>,
    k: Seq<char>,
)
    requires
        s1.len() == s2.len(),
        forall|i: int|
            0 <= i < s1.len() ==> (#[trigger] s1[i]).0@ == s2[i].0@ && s1[i].1@ == s2[i].1@,
    ensures
        entries_get(s1, k) == entries_get(s2, k),
    decreases s1.len(),
{
    if s1.len() > 0 {
        if s1[0].0@ != k {
            assert forall|i: int|
                0 <= i < s1.drop_first().len() implies (#[trigger] s1.drop_first()[i]).0@
                == s2.drop_first()[i].0@ && s1.drop_first()[i].1@ == s2.drop_first()[i].1@ by {
                assert(s1.drop_first()[i] == s1[i + 1]);
                assert(s2.drop_first()[i] == s2[i + 1]);
            }
            lemma_entries_get_congruent(s1.drop_first(), s2.drop_first(), k);
        }
    }
}

/// Lookup of a key agrees between two entry sequences that agree on
/// every position holding that key.
proof fn lemma_entries_unrelated(s1: Seq<(String, String)>, s2: Seq<(String, String)>, k: Seq<char>)
    requires
        s1.len() <= s2.len(),
        s2.len() <= s1.len() + 1,
        forall|i: int| 0 <= i < s1.len() && (s1[i].0@ == k || s2[i].0@ == k) ==> s1[i] == s2[i],
        s2.len() == s1.len() + 1 ==> s2[s1.len() as int].0@ != k,
    ensures
        entries_get(s1, k) == entries_get(s2, k),
    decreases s1.len(),
{
    if s1.len() == 0 {
        if s2.len() == 1 {
            assert(entries_get(s2, k) == entries_get(s2.drop_first(), k));
            assert(s2.drop_first() =~= Seq::<(String, String)>::empty());
        }
    } else {
        if s1[0].0@ == k || s2[0].0@ == k {
            assert(s1[0] == s2[0]);
        } else {
            assert(s1.drop_first().len() == s1.len() - 1);
            assert forall|i: int|
                0 <= i < s1.drop_first().len() && (s1.drop_first()[i].0@ == k
                    || s2.drop_first()[i].0@ == k) implies s1.drop_first()[i]
                == s2.drop_first()[i] by {
                assert(s1.drop_first()[i] == s1[i + 1]);
                assert(s2.drop_first()[i] == s2[i + 1]);
            }
            lemma_entries_unrelated(s1.drop_first(), s2.drop_first(), k);
        }
    }
}

} // verus!
