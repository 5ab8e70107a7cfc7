//! The outbound seam: the newest value of every key that changed since the
//! publisher last drained it.
//!
//! What crosses this seam is state, not events: for a given key only the
//! newest value is worth publishing. So the pending change is a map, not a
//! queue, and a key written again before the drain replaces its pending value
//! instead of queuing behind it.
use vstd::prelude::*;
use crate::value::Value;
use crate::text::str_eq;

verus! {

/// The key of the `i`-th entry of `s`.
pub open spec fn key_at(s: Seq<(String, Option<Value>)>, i: int) -> Seq<char> {
    s[i].0@
}

/// Whether some entry of `s` has key `k`.
pub open spec fn has_key(s: Seq<(String, Option<Value>)>, k: Seq<char>) -> bool {
    exists|i: int| 0 <= i < s.len() && key_at(s, i) == k
}

/// The value of the entry of `s` with key `k` (meaningful where there is one).
pub open spec fn value_of(s: Seq<(String, Option<Value>)>, k: Seq<char>) -> Option<Value> {
    s[choose|i: int| 0 <= i < s.len() && key_at(s, i) == k].1
}

/// No two entries of `s` share a key.
pub open spec fn keys_unique(s: Seq<(String, Option<Value>)>) -> bool {
    forall|i: int, j: int|
        0 <= i < s.len() && 0 <= j < s.len() && i != j ==> key_at(s, i) != key_at(s, j)
}

/// The entries of `s` as a map from key to value.
pub open spec fn entries(s: Seq<(String, Option<Value>)>) -> Map<Seq<char>, Option<Value>> {
    Map::new(|k: Seq<char>| has_key(s, k), |k: Seq<char>| value_of(s, k))
}

/// The `i`-th name of `s`.
pub open spec fn name_at(s: Seq<String>, i: int) -> Seq<char> {
    s[i]@
}

/// The names of `s` as a set.
pub open spec fn names(s: Seq<String>) -> Set<Seq<char>> {
    Set::new(|k: Seq<char>| exists|i: int| 0 <= i < s.len() && name_at(s, i) == k)
}

/// No name occurs twice in `s`.
pub open spec fn names_unique(s: Seq<String>) -> bool {
    forall|i: int, j: int|
        0 <= i < s.len() && 0 <= j < s.len() && i != j ==> name_at(s, i) != name_at(s, j)
}

proof fn lemma_value_of(s: Seq<(String, Option<Value>)>, i: int)
    requires
        keys_unique(s),
        0 <= i < s.len(),
    ensures
        has_key(s, key_at(s, i)),
        value_of(s, key_at(s, i)) == s[i].1,
{
    let k = key_at(s, i);
    assert(has_key(s, k));
    let j = choose|j: int| 0 <= j < s.len() && key_at(s, j) == k;
    assert(j == i);
}

proof fn lemma_entries_push(s: Seq<(String, Option<Value>)>, e: (String, Option<Value>))
    requires
        keys_unique(s),
        !has_key(s, e.0@),
    ensures
        keys_unique(s.push(e)),
        entries(s.push(e)) == entries(s).insert(e.0@, e.1),
{
    let t = s.push(e);
    assert(forall|i: int| 0 <= i < s.len() ==> key_at(t, i) == key_at(s, i));
    assert(key_at(t, s.len() as int) == e.0@);
    assert forall|i: int, j: int|
        0 <= i < t.len() && 0 <= j < t.len() && i != j implies key_at(t, i) != key_at(t, j) by {
        if i < s.len() && j < s.len() {
        } else if i < s.len() {
            assert(!(key_at(s, i) == e.0@));
        } else {
            assert(!(key_at(s, j) == e.0@));
        }
    }
    assert forall|k: Seq<char>| has_key(t, k) <==> (has_key(s, k) || k == e.0@) by {
        if has_key(t, k) {
            let i = choose|i: int| 0 <= i < t.len() && key_at(t, i) == k;
            if i < s.len() {
                assert(key_at(s, i) == k);
            }
        }
        if has_key(s, k) {
            let i = choose|i: int| 0 <= i < s.len() && key_at(s, i) == k;
            assert(key_at(t, i) == k);
        }
        if k == e.0@ {
            assert(key_at(t, s.len() as int) == k);
        }
    }
    assert forall|k: Seq<char>| #[trigger] has_key(t, k) implies value_of(t, k) == (if k == e.0@ {
        e.1
    } else {
        value_of(s, k)
    }) by {
        if k == e.0@ {
            lemma_value_of(t, s.len() as int);
        } else {
            let i = choose|i: int| 0 <= i < s.len() && key_at(s, i) == k;
            lemma_value_of(s, i);
            lemma_value_of(t, i);
        }
    }
    assert(entries(t) =~= entries(s).insert(e.0@, e.1));
}

proof fn lemma_entries_update(s: Seq<(String, Option<Value>)>, i: int, e: (String, Option<Value>))
    requires
        keys_unique(s),
        0 <= i < s.len(),
        key_at(s, i) == e.0@,
    ensures
        keys_unique(s.update(i, e)),
        entries(s.update(i, e)) == entries(s).insert(e.0@, e.1),
{
    let t = s.update(i, e);
    assert(forall|j: int| 0 <= j < s.len() ==> key_at(t, j) == key_at(s, j));
    assert forall|k: Seq<char>| has_key(t, k) <==> has_key(s, k) by {
        if has_key(t, k) {
            let j = choose|j: int| 0 <= j < t.len() && key_at(t, j) == k;
            assert(key_at(s, j) == k);
        }
        if has_key(s, k) {
            let j = choose|j: int| 0 <= j < s.len() && key_at(s, j) == k;
            assert(key_at(t, j) == k);
        }
    }
    assert forall|k: Seq<char>| #[trigger] has_key(t, k) implies value_of(t, k) == (if k == e.0@ {
        e.1
    } else {
        value_of(s, k)
    }) by {
        let j = choose|j: int| 0 <= j < s.len() && key_at(s, j) == k;
        lemma_value_of(s, j);
        lemma_value_of(t, j);
    }
    assert(has_key(s, e.0@)) by {
        assert(key_at(s, i) == e.0@);
    }
    assert(entries(t) =~= entries(s).insert(e.0@, e.1));
}

proof fn lemma_entries_remove(s: Seq<(String, Option<Value>)>, i: int)
    requires
        keys_unique(s),
        0 <= i < s.len(),
    ensures
        keys_unique(s.remove(i)),
        entries(s.remove(i)) == entries(s).remove(key_at(s, i)),
{
    let t = s.remove(i);
    let k0 = key_at(s, i);
    assert(forall|j: int| 0 <= j < i ==> key_at(t, j) == key_at(s, j));
    assert(forall|j: int| i <= j < t.len() ==> key_at(t, j) == key_at(s, j + 1));
    assert forall|a: int, b: int|
        0 <= a < t.len() && 0 <= b < t.len() && a != b implies key_at(t, a) != key_at(t, b) by {
        let a2 = if a < i { a } else { a + 1 };
        let b2 = if b < i { b } else { b + 1 };
        assert(key_at(t, a) == key_at(s, a2));
        assert(key_at(t, b) == key_at(s, b2));
    }
    assert forall|k: Seq<char>| has_key(t, k) <==> (has_key(s, k) && k != k0) by {
        if has_key(t, k) {
            let j = choose|j: int| 0 <= j < t.len() && key_at(t, j) == k;
            let j2 = if j < i { j } else { j + 1 };
            assert(key_at(s, j2) == k);
        }
        if has_key(s, k) && k != k0 {
            let j = choose|j: int| 0 <= j < s.len() && key_at(s, j) == k;
            assert(j != i);
            if j < i {
                assert(key_at(t, j) == k);
            } else {
                assert(key_at(t, j - 1) == k);
            }
        }
    }
    assert forall|k: Seq<char>| #[trigger] has_key(t, k) implies value_of(t, k) == value_of(s, k) by {
        let j = choose|j: int| 0 <= j < t.len() && key_at(t, j) == k;
        let j2 = if j < i { j } else { j + 1 };
        assert(t[j] == s[j2]);
        lemma_value_of(t, j);
        lemma_value_of(s, j2);
    }
    assert(entries(t) =~= entries(s).remove(k0));
}

proof fn lemma_names_push(s: Seq<String>, x: String)
    requires
        names_unique(s),
        !names(s).contains(x@),
    ensures
        names_unique(s.push(x)),
        names(s.push(x)) == names(s).insert(x@),
{
    let t = s.push(x);
    assert(forall|i: int| 0 <= i < s.len() ==> name_at(t, i) == name_at(s, i));
    assert(name_at(t, s.len() as int) == x@);
    assert forall|i: int, j: int|
        0 <= i < t.len() && 0 <= j < t.len() && i != j implies name_at(t, i) != name_at(t, j) by {
        if i < s.len() && j < s.len() {
        } else if i < s.len() {
            assert(names(s).contains(name_at(s, i)));
        } else {
            assert(names(s).contains(name_at(s, j)));
        }
    }
    assert forall|k: Seq<char>| names(t).contains(k) <==> names(s).insert(x@).contains(k) by {
        if names(t).contains(k) {
            let i = choose|i: int| 0 <= i < t.len() && name_at(t, i) == k;
            if i < s.len() {
                assert(name_at(s, i) == k);
            }
        }
        if names(s).contains(k) {
            let i = choose|i: int| 0 <= i < s.len() && name_at(s, i) == k;
            assert(name_at(t, i) == k);
        }
    }
    assert(names(t) =~= names(s).insert(x@));
}

proof fn lemma_names_remove(s: Seq<String>, i: int)
    requires
        names_unique(s),
        0 <= i < s.len(),
    ensures
        names_unique(s.remove(i)),
        names(s.remove(i)) == names(s).remove(name_at(s, i)),
{
    let t = s.remove(i);
    let k0 = name_at(s, i);
    assert(forall|j: int| 0 <= j < i ==> name_at(t, j) == name_at(s, j));
    assert(forall|j: int| i <= j < t.len() ==> name_at(t, j) == name_at(s, j + 1));
    assert forall|a: int, b: int|
        0 <= a < t.len() && 0 <= b < t.len() && a != b implies name_at(t, a) != name_at(t, b) by {
        let a2 = if a < i { a } else { a + 1 };
        let b2 = if b < i { b } else { b + 1 };
        assert(name_at(t, a) == name_at(s, a2));
        assert(name_at(t, b) == name_at(s, b2));
    }
    assert forall|k: Seq<char>| names(t).contains(k) <==> names(s).remove(k0).contains(k) by {
        if names(t).contains(k) {
            let j = choose|j: int| 0 <= j < t.len() && name_at(t, j) == k;
            let j2 = if j < i { j } else { j + 1 };
            assert(name_at(s, j2) == k);
        }
        if names(s).contains(k) && k != k0 {
            let j = choose|j: int| 0 <= j < s.len() && name_at(s, j) == k;
            assert(j != i);
            if j < i {
                assert(name_at(t, j) == k);
            } else {
                assert(name_at(t, j - 1) == k);
            }
        }
    }
    assert(names(t) =~= names(s).remove(k0));
}

/// The index of the entry with key `key`, if there is one.
fn find_entry(s: &Vec<(String, Option<Value>)>, key: &str) -> (r: Option<usize>)
    ensures
        match r {
            Some(i) => i < s.len() && key_at(s@, i as int) == key@,
            None => !has_key(s@, key@),
        },
{
    let mut i: usize = 0;
    while i < s.len()
        invariant
            i <= s.len(),
            forall|j: int| 0 <= j < i ==> key_at(s@, j) != key@,
        decreases s.len() - i,
    {
        if str_eq(s[i].0.as_str(), key) {
            return Some(i);
        }
        i += 1;
    }
    None
}

/// The index of the name `key`, if `s` holds it.
fn find_name(s: &Vec<String>, key: &str) -> (r: Option<usize>)
    ensures
        match r {
            Some(i) => i < s.len() && name_at(s@, i as int) == key@,
            None => !names(s@).contains(key@),
        },
{
    let mut i: usize = 0;
    while i < s.len()
        invariant
            i <= s.len(),
            forall|j: int| 0 <= j < i ==> name_at(s@, j) != key@,
        decreases s.len() - i,
    {
        if str_eq(s[i].as_str(), key) {
            return Some(i);
        }
        i += 1;
    }
    None
}

/// A copy of an optional value, equal to it.
pub fn duplicate_option(v: &Option<Value>) -> (r: Option<Value>)
    ensures
        r == *v,
{
    match v {
        Some(x) => Some(x.duplicate()),
        None => None,
    }
}

/// A coalesced change of a device's keys: the keys set (to a value, or to
/// nothing) and the keys unset.
#[derive(Debug)]
pub struct StateChange {
    set: Vec<(String, Option<Value>)>,
    unset: Vec<String>,
}

impl StateChange {
    /// Each key occurs once in each half.
    pub closed spec fn wf(&self) -> bool {
        keys_unique(self.set@) && names_unique(self.unset@)
    }

    /// The keys set, with the value each is set to.
    pub closed spec fn set_view(&self) -> Map<Seq<char>, Option<Value>> {
        entries(self.set@)
    }

    /// The keys unset.
    pub closed spec fn unset_view(&self) -> Set<Seq<char>> {
        names(self.unset@)
    }

    /// The keys set, in the order they were first set, with their values.
    pub closed spec fn set_seq(&self) -> Seq<(Seq<char>, Option<Value>)> {
        self.set@.map_values(|e: (String, Option<Value>)| (e.0@, e.1))
    }

    /// How many entries `set_seq` has.
    pub fn set_count(&self) -> (r: usize)
        ensures
            r == self.set_seq().len(),
    {
        self.set.len()
    }

    /// The `i`-th entry of `set_seq`.
    pub fn set_entry(&self, i: usize) -> (r: (&String, &Option<Value>))
        requires
            i < self.set_seq().len(),
        ensures
            r.0@ == self.set_seq()[i as int].0,
            *r.1 == self.set_seq()[i as int].1,
    {
        (&self.set[i].0, &self.set[i].1)
    }

    /// The empty change.
    pub fn new() -> (r: StateChange)
        ensures
            r.wf(),
            r.set_view() == Map::<Seq<char>, Option<Value>>::empty(),
            r.unset_view() == Set::<Seq<char>>::empty(),
    {
        let r = StateChange { set: Vec::new(), unset: Vec::new() };
        assert(r.set_view() =~= Map::<Seq<char>, Option<Value>>::empty());
        assert(r.unset_view() =~= Set::<Seq<char>>::empty());
        r
    }

    /// The change that sets `key` to `value` and nothing else.
    pub fn set(key: &str, value: Value) -> (r: StateChange)
        ensures
            r.wf(),
            r.set_view() == Map::<Seq<char>, Option<Value>>::empty().insert(key@, Some(value)),
            r.set_seq() == seq![(key@, Some(value))],
            r.unset_view() == Set::<Seq<char>>::empty(),
    {
        let mut r = StateChange::new();
        r.set_key(key, Some(value));
        assert(r.set@.len() == 1) by {
            assert(r.set_view().dom() =~= set![key@]);
            r.lemma_set_len();
        }
        assert(r.set_seq() =~= seq![(key@, Some(value))]) by {
            lemma_value_of(r.set@, 0);
            assert(r.set_view().dom().contains(key_at(r.set@, 0)));
            assert(key_at(r.set@, 0) == key@);
            assert(r.set_view()[key@] == Some(value));
        }
        r
    }

    /// Set `key` to `value`, replacing what this change set it to before.
    pub fn set_key(&mut self, key: &str, value: Option<Value>)
        requires
            old(self).wf(),
        ensures
            final(self).wf(),
            final(self).set_view() == old(self).set_view().insert(key@, value),
            final(self).unset_view() == old(self).unset_view(),
    {
        let e = (String::from_str(key), value);
        match find_entry(&self.set, key) {
            Some(i) => {
                proof {
                    lemma_entries_update(self.set@, i as int, e);
                }
                self.set.set(i, e);
            },
            None => {
                proof {
                    lemma_entries_push(self.set@, e);
                }
                self.set.push(e);
            },
        }
    }

    /// Add `key` to the keys this change unsets.
    pub fn unset_key(&mut self, key: &str)
        requires
            old(self).wf(),
        ensures
            final(self).wf(),
            final(self).set_view() == old(self).set_view(),
            final(self).unset_view() == old(self).unset_view().insert(key@),
    {
        match find_name(&self.unset, key) {
            Some(i) => {
                assert(self.unset_view().contains(key@)) by {
                    assert(name_at(self.unset@, i as int) == key@);
                }
                assert(self.unset_view().insert(key@) =~= self.unset_view());
            },
            None => {
                let x = String::from_str(key);
                proof {
                    lemma_names_push(self.unset@, x);
                }
                self.unset.push(x);
            },
        }
    }

    /// What this change sets `key` to, if it sets it.
    pub fn get(&self, key: &str) -> (r: Option<&Option<Value>>)
        requires
            self.wf(),
        ensures
            r is Some <==> self.set_view().dom().contains(key@),
            r is Some ==> *r.unwrap() == self.set_view()[key@],
    {
        match find_entry(&self.set, key) {
            Some(i) => {
                proof {
                    lemma_value_of(self.set@, i as int);
                }
                Some(&self.set[i].1)
            },
            None => None,
        }
    }

    /// Whether this change unsets `key`.
    pub fn is_unset(&self, key: &str) -> (r: bool)
        ensures
            r == self.unset_view().contains(key@),
    {
        match find_name(&self.unset, key) {
            Some(i) => {
                assert(name_at(self.unset@, i as int) == key@);
                true
            },
            None => false,
        }
    }

    /// How many keys this change sets.
    pub fn set_len(&self) -> (r: usize)
        requires
            self.wf(),
        ensures
            r == self.set_view().dom().len(),
    {
        proof {
            self.lemma_set_len();
        }
        self.set.len()
    }

    /// How many keys this change unsets.
    pub fn unset_len(&self) -> (r: usize)
        requires
            self.wf(),
        ensures
            r == self.unset_view().len(),
    {
        proof {
            self.lemma_unset_len();
        }
        self.unset.len()
    }

    /// Whether this change neither sets nor unsets anything.
    pub fn is_empty(&self) -> (r: bool)
        ensures
            r == (self.set_view().dom().is_empty() && self.unset_view().is_empty()),
    {
        if self.set.len() > 0 {
            assert(self.set_view().dom().contains(key_at(self.set@, 0)));
        }
        if self.unset.len() > 0 {
            assert(self.unset_view().contains(name_at(self.unset@, 0)));
        }
        self.set.len() == 0 && self.unset.len() == 0
    }

    proof fn lemma_set_len(&self)
        requires
            self.wf(),
        ensures
            self.set_view().dom().len() == self.set@.len(),
            self.set_view().dom().finite(),
    {
        let s = self.set@;
        let ks = s.map_values(|e: (String, Option<Value>)| e.0@);
        assert(ks.no_duplicates()) by {
            assert forall|i: int, j: int| 0 <= i < ks.len() && 0 <= j < ks.len() && i != j implies ks[i] != ks[j] by {
                assert(ks[i] == key_at(s, i));
                assert(ks[j] == key_at(s, j));
            }
        }
        ks.unique_seq_to_set();
        assert forall|k: Seq<char>| self.set_view().dom().contains(k) <==> ks.to_set().contains(k) by {
            if has_key(s, k) {
                let i = choose|i: int| 0 <= i < s.len() && key_at(s, i) == k;
                assert(ks[i] == k);
            }
            if ks.contains(k) {
                let i = choose|i: int| 0 <= i < ks.len() && ks[i] == k;
                assert(key_at(s, i) == k);
            }
        }
        assert(self.set_view().dom() =~= ks.to_set());
    }

    proof fn lemma_unset_len(&self)
        requires
            self.wf(),
        ensures
            self.unset_view().len() == self.unset@.len(),
            self.unset_view().finite(),
    {
        let s = self.unset@;
        let ks = s.map_values(|x: String| x@);
        assert(ks.no_duplicates()) by {
            assert forall|i: int, j: int| 0 <= i < ks.len() && 0 <= j < ks.len() && i != j implies ks[i] != ks[j] by {
                assert(ks[i] == name_at(s, i));
                assert(ks[j] == name_at(s, j));
            }
        }
        ks.unique_seq_to_set();
        assert forall|k: Seq<char>| self.unset_view().contains(k) <==> ks.to_set().contains(k) by {
            if self.unset_view().contains(k) {
                let i = choose|i: int| 0 <= i < s.len() && name_at(s, i) == k;
                assert(ks[i] == k);
            }
            if ks.contains(k) {
                let i = choose|i: int| 0 <= i < ks.len() && ks[i] == k;
                assert(name_at(s, i) == k);
            }
        }
        assert(self.unset_view() =~= ks.to_set());
    }
}


/// `p` and `pu`, a pending change's set and unset halves, after `cs` and
/// `cu`, a later change's, were merged in: later wins. The set half.
pub open spec fn merged_set(
    p: Map<Seq<char>, Option<Value>>,
    cs: Map<Seq<char>, Option<Value>>,
    cu: Set<Seq<char>>,
) -> Map<Seq<char>, Option<Value>> {
    p.union_prefer_right(cs).remove_keys(cu)
}

/// The unset half of a pending change after a later change was merged in.
pub open spec fn merged_unset(
    pu: Set<Seq<char>>,
    cs: Map<Seq<char>, Option<Value>>,
    cu: Set<Seq<char>>,
) -> Set<Seq<char>> {
    pu.difference(cs.dom()).union(cu)
}

/// Whether merging `cs` and `cu` into the pending `p` and `pu` replaces
/// something that was still pending: a key set again, or unset again.
pub open spec fn supersedes(
    p: Map<Seq<char>, Option<Value>>,
    pu: Set<Seq<char>>,
    cs: Map<Seq<char>, Option<Value>>,
    cu: Set<Seq<char>>,
) -> bool {
    (exists|k: Seq<char>| cs.dom().contains(k) && p.dom().contains(k))
        || (exists|k: Seq<char>| cu.contains(k) && pu.contains(k) && !cs.dom().contains(k))
}

/// The pending change between a device's steps and the publisher that drains
/// them, with whether a pending value was ever replaced before it was
/// drained (the publisher fell behind).
#[derive(Debug)]
pub struct Outbound {
    pending: StateChange,
    fell_behind: bool,
}

impl Outbound {
    /// The pending change is well formed, and no key is both set and unset.
    pub closed spec fn wf(&self) -> bool {
        &&& self.pending.wf()
        &&& self.pending.set_view().dom().disjoint(self.pending.unset_view())
    }

    /// The keys pending as set, with their newest value.
    pub closed spec fn pending_set(&self) -> Map<Seq<char>, Option<Value>> {
        self.pending.set_view()
    }

    /// The keys pending as unset.
    pub closed spec fn pending_unset(&self) -> Set<Seq<char>> {
        self.pending.unset_view()
    }

    /// Whether a pending value was ever replaced before it was drained.
    pub closed spec fn has_fallen_behind(&self) -> bool {
        self.fell_behind
    }

    /// An empty seam that has not fallen behind.
    pub fn new() -> (r: Outbound)
        ensures
            r.wf(),
            r.pending_set() == Map::<Seq<char>, Option<Value>>::empty(),
            r.pending_unset() == Set::<Seq<char>>::empty(),
            !r.has_fallen_behind(),
    {
        Outbound { pending: StateChange::new(), fell_behind: false }
    }

    /// Whether the publisher has fallen behind at some point.
    pub fn fell_behind(&self) -> (r: bool)
        ensures
            r == self.has_fallen_behind(),
    {
        self.fell_behind
    }

    /// Merge a step's change in, later wins: a set overrides an earlier
    /// unset of the same key, and an unset overrides an earlier set. Within
    /// `change`, its unsets come after its sets.
    ///
    /// Returns whether this merge is the first to replace a pending value
    /// (the moment the publisher fell behind, to be reported once).
    pub fn merge(&mut self, change: &StateChange) -> (first_lag: bool)
        requires
            old(self).wf(),
            change.wf(),
        ensures
            final(self).wf(),
            final(self).pending_set() == merged_set(
                old(self).pending_set(),
                change.set_view(),
                change.unset_view(),
            ),
            final(self).pending_unset() == merged_unset(
                old(self).pending_unset(),
                change.set_view(),
                change.unset_view(),
            ),
            final(self).has_fallen_behind() == (old(self).has_fallen_behind() || supersedes(
                old(self).pending_set(),
                old(self).pending_unset(),
                change.set_view(),
                change.unset_view(),
            )),
            first_lag == (!old(self).has_fallen_behind() && final(self).has_fallen_behind()),
    {
        let ghost p = self.pending.set_view();
        let ghost pu = self.pending.unset_view();
        let ghost cs = change.set_view();
        let ghost cu = change.unset_view();
        let ghost csq = change.set@;
        let ghost cuq = change.unset@;
        let ghost fb0 = self.fell_behind;
        let mut superseded = false;
        let mut n: usize = 0;
        while n < change.set.len()
            invariant
                n <= change.set.len(),
                csq == change.set@,
                keys_unique(csq),
                self.pending.wf(),
                self.fell_behind == fb0,
                entries(self.pending.set@) == p.union_prefer_right(entries(csq.take(n as int))),
                names(self.pending.unset@) == pu.difference(entries(csq.take(n as int)).dom()),
                superseded == (exists|j: int| 0 <= j < n && p.dom().contains(key_at(csq, j))),
            decreases change.set.len() - n,
        {
            let key = change.set[n].0.as_str();
            let ghost before_set = self.pending.set@;
            let ghost before_unset = self.pending.unset@;
            proof {
                let t = csq.take(n as int);
                assert(key@ == key_at(csq, n as int));
                assert(forall|j: int| 0 <= j < n ==> key_at(t, j) == key_at(csq, j));
                assert(keys_unique(t));
                assert(!has_key(t, key@)) by {
                    if has_key(t, key@) {
                        let j = choose|j: int| 0 <= j < t.len() && key_at(t, j) == key@;
                        assert(key_at(csq, j) == key@);
                    }
                }
                assert(csq.take(n + 1) =~= t.push(csq[n as int]));
                lemma_entries_push(t, csq[n as int]);
            }
            match find_name(&self.pending.unset, key) {
                Some(i) => {
                    proof {
                        lemma_names_remove(before_unset, i as int);
                    }
                    self.pending.unset.remove(i);
                },
                None => {},
            }
            let v = duplicate_option(&change.set[n].1);
            let e = (String::from_str(key), v);
            match find_entry(&self.pending.set, key) {
                Some(i) => {
                    proof {
                        lemma_entries_update(before_set, i as int, e);
                        assert(has_key(before_set, key@));
                        assert(entries(before_set).dom().contains(key@));
                        assert(!entries(csq.take(n as int)).dom().contains(key@));
                        assert(p.dom().contains(key@));
                    }
                    self.pending.set.set(i, e);
                    superseded = true;
                },
                None => {
                    proof {
                        lemma_entries_push(before_set, e);
                        assert(!entries(before_set).dom().contains(key@));
                        assert(!p.dom().contains(key@));
                    }
                    self.pending.set.push(e);
                },
            }
            proof {
                let t1 = csq.take(n + 1);
                assert(entries(self.pending.set@) =~= p.union_prefer_right(entries(t1)));
                assert(names(self.pending.unset@) =~= pu.difference(entries(t1).dom()));
                assert(key_at(csq, n as int) == key@);
                if superseded {
                    if !p.dom().contains(key@) {
                        let j = choose|j: int| 0 <= j < n && p.dom().contains(key_at(csq, j));
                        assert(0 <= j < n + 1 && p.dom().contains(key_at(csq, j)));
                    }
                } else {
                    assert forall|j: int| 0 <= j < n + 1 implies !p.dom().contains(key_at(csq, j)) by {
                        if j < n {
                        } else {
                            assert(j == n);
                        }
                    }
                }
            }
            n += 1;
        }
        proof {
            assert(csq.take(csq.len() as int) =~= csq);
            assert(superseded == (exists|k: Seq<char>| cs.dom().contains(k) && p.dom().contains(k))) by {
                if superseded {
                    let j = choose|j: int| 0 <= j < n && p.dom().contains(key_at(csq, j));
                    assert(cs.dom().contains(key_at(csq, j)));
                }
                if exists|k: Seq<char>| cs.dom().contains(k) && p.dom().contains(k) {
                    let k = choose|k: Seq<char>| cs.dom().contains(k) && p.dom().contains(k);
                    let j = choose|j: int| 0 <= j < csq.len() && key_at(csq, j) == k;
                    assert(0 <= j < n && p.dom().contains(key_at(csq, j)));
                }
            }
        }
        let ghost s1 = p.union_prefer_right(cs);
        let ghost u1 = pu.difference(cs.dom());
        let ghost sup1 = superseded;
        let mut m: usize = 0;
        while m < change.unset.len()
            invariant
                m <= change.unset.len(),
                cuq == change.unset@,
                names_unique(cuq),
                self.pending.wf(),
                self.fell_behind == fb0,
                entries(self.pending.set@) == s1.remove_keys(names(cuq.take(m as int))),
                names(self.pending.unset@) == u1.union(names(cuq.take(m as int))),
                superseded == (sup1 || exists|j: int| 0 <= j < m && u1.contains(name_at(cuq, j))),
            decreases change.unset.len() - m,
        {
            let key = change.unset[m].as_str();
            let ghost before_set = self.pending.set@;
            let ghost before_unset = self.pending.unset@;
            proof {
                let t = cuq.take(m as int);
                assert(key@ == name_at(cuq, m as int));
                assert(forall|j: int| 0 <= j < m ==> name_at(t, j) == name_at(cuq, j));
                assert(!names(t).contains(key@)) by {
                    if names(t).contains(key@) {
                        let j = choose|j: int| 0 <= j < t.len() && name_at(t, j) == key@;
                        assert(name_at(cuq, j) == key@);
                    }
                }
                assert(names(cuq.take(m + 1)) =~= names(t).insert(key@)) by {
                    let t1 = cuq.take(m + 1);
                    assert forall|k: Seq<char>| names(t1).contains(k) <==> names(t).insert(key@).contains(k) by {
                        if names(t1).contains(k) {
                            let j = choose|j: int| 0 <= j < t1.len() && name_at(t1, j) == k;
                            if j < m {
                                assert(name_at(t, j) == k);
                            }
                        }
                        if names(t).contains(k) {
                            let j = choose|j: int| 0 <= j < t.len() && name_at(t, j) == k;
                            assert(name_at(t1, j) == k);
                        }
                        if k == key@ {
                            assert(name_at(t1, m as int) == k);
                        }
                    }
                }
            }
            match find_entry(&self.pending.set, key) {
                Some(i) => {
                    proof {
                        lemma_entries_remove(before_set, i as int);
                    }
                    self.pending.set.remove(i);
                },
                None => {
                    assert(entries(before_set).remove(key@) =~= entries(before_set));
                },
            }
            match find_name(&self.pending.unset, key) {
                Some(i) => {
                    superseded = true;
                },
                None => {
                    let x = String::from_str(key);
                    proof {
                        lemma_names_push(before_unset, x);
                    }
                    self.pending.unset.push(x);
                },
            }
            proof {
                let t1 = cuq.take(m + 1);
                assert(entries(self.pending.set@) =~= s1.remove_keys(names(t1)));
                assert(names(self.pending.unset@) =~= u1.union(names(t1)));
                assert(name_at(cuq, m as int) == key@);
                let in_u1 = u1.contains(key@);
                assert(names(before_unset).contains(key@) == in_u1);
                if superseded {
                    if !sup1 && !in_u1 {
                        let j = choose|j: int| 0 <= j < m && u1.contains(name_at(cuq, j));
                        assert(0 <= j < m + 1 && u1.contains(name_at(cuq, j)));
                    }
                } else {
                    assert forall|j: int| 0 <= j < m + 1 implies !u1.contains(name_at(cuq, j)) by {
                        if j == m {
                        }
                    }
                }
            }
            m += 1;
        }
        proof {
            assert(cuq.take(cuq.len() as int) =~= cuq);
            let sup2 = exists|k: Seq<char>| cu.contains(k) && pu.contains(k) && !cs.dom().contains(k);
            assert((exists|j: int| 0 <= j < m && u1.contains(name_at(cuq, j))) == sup2) by {
                if exists|j: int| 0 <= j < m && u1.contains(name_at(cuq, j)) {
                    let j = choose|j: int| 0 <= j < m && u1.contains(name_at(cuq, j));
                    assert(cu.contains(name_at(cuq, j)));
                }
                if sup2 {
                    let k = choose|k: Seq<char>| cu.contains(k) && pu.contains(k) && !cs.dom().contains(k);
                    let j = choose|j: int| 0 <= j < cuq.len() && name_at(cuq, j) == k;
                    assert(0 <= j < m && u1.contains(name_at(cuq, j)));
                }
            }
            assert(self.pending.set_view().dom().disjoint(self.pending.unset_view()));
            assert(superseded == supersedes(p, pu, cs, cu));
        }
        let first_lag = superseded && !self.fell_behind;
        self.fell_behind = self.fell_behind || superseded;
        first_lag
    }

    /// Take everything pending, leaving the seam empty.
    pub fn take(&mut self) -> (r: StateChange)
        requires
            old(self).wf(),
        ensures
            final(self).wf(),
            r.wf(),
            r.set_view() == old(self).pending_set(),
            r.unset_view() == old(self).pending_unset(),
            final(self).pending_set() == Map::<Seq<char>, Option<Value>>::empty(),
            final(self).pending_unset() == Set::<Seq<char>>::empty(),
            final(self).has_fallen_behind() == old(self).has_fallen_behind(),
    {
        let mut r = StateChange::new();
        std::mem::swap(&mut r, &mut self.pending);
        r
    }
}


/// Later wins: after a change is merged in, a key it unsets is pending as
/// unset and not as set, and a key it sets without unsetting it is pending
/// as set to the change's value and not as unset; a key it does not touch
/// keeps what was pending.
pub proof fn lemma_later_wins(
    p: Map<Seq<char>, Option<Value>>,
    pu: Set<Seq<char>>,
    cs: Map<Seq<char>, Option<Value>>,
    cu: Set<Seq<char>>,
    k: Seq<char>,
)
    ensures
        cu.contains(k) ==> !merged_set(p, cs, cu).dom().contains(k) && merged_unset(pu, cs, cu).contains(k),
        cs.dom().contains(k) && !cu.contains(k) ==> merged_set(p, cs, cu).dom().contains(k)
            && merged_set(p, cs, cu)[k] == cs[k] && !merged_unset(pu, cs, cu).contains(k),
        !cs.dom().contains(k) && !cu.contains(k) ==> (merged_set(p, cs, cu).dom().contains(k) == p.dom().contains(k))
            && (p.dom().contains(k) ==> merged_set(p, cs, cu)[k] == p[k])
            && (merged_unset(pu, cs, cu).contains(k) == pu.contains(k)),
{
}

/// No key comes out of the seam both set and unset: merging keeps the two
/// halves of the pending change disjoint.
pub proof fn lemma_merge_keeps_halves_disjoint(
    p: Map<Seq<char>, Option<Value>>,
    pu: Set<Seq<char>>,
    cs: Map<Seq<char>, Option<Value>>,
    cu: Set<Seq<char>>,
)
    requires
        p.dom().disjoint(pu),
    ensures
        merged_set(p, cs, cu).dom().disjoint(merged_unset(pu, cs, cu)),
{
}


/// The seam keeps state, not history: what is pending after a merge is only
/// keys that were pending or that the change touched, so the pending change
/// never outgrows the set of keys written.
pub proof fn lemma_merge_stays_within_written_keys(
    p: Map<Seq<char>, Option<Value>>,
    pu: Set<Seq<char>>,
    cs: Map<Seq<char>, Option<Value>>,
    cu: Set<Seq<char>>,
)
    ensures
        merged_set(p, cs, cu).dom().subset_of(p.dom().union(cs.dom())),
        merged_unset(pu, cs, cu).subset_of(pu.union(cu)),
{
}

} // verus!
