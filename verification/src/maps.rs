//! String-keyed maps kept as association lists in insertion order.
//!
//! The catalogue needs three small maps (aliases, links, groups) whose
//! contents are fully visible to the verifier, whose iteration order is
//! deterministic, and whose serialized form round-trips.  A vector of
//! `(key, value)` pairs with pairwise-distinct keys gives all three.

use vstd::prelude::*;
use crate::text::str_eq;

verus! {

/// Index of the first entry with key `k`, or `-1` when `k` is absent.
pub open spec fn find_key<V>(s: Seq<(Seq<char>, V)>, k: Seq<char>) -> int
    decreases s.len(),
{
    if s.len() == 0 {
        -1
    } else if s[0].0 == k {
        0
    } else {
        let r = find_key(s.drop_first(), k);
        if r == -1 {
            -1
        } else {
            r + 1
        }
    }
}

pub open spec fn map_has_key<V>(s: Seq<(Seq<char>, V)>, k: Seq<char>) -> bool {
    exists|i: int| 0 <= i < s.len() && s[i].0 == k
}

/// The value stored under `k` (meaningful only when `map_has_key`).
pub open spec fn map_value_of<V>(s: Seq<(Seq<char>, V)>, k: Seq<char>) -> V {
    s[find_key(s, k)].1
}

/// Keys are pairwise distinct.
pub open spec fn map_wf<V>(s: Seq<(Seq<char>, V)>) -> bool {
    forall|i: int, j: int| 0 <= i < j < s.len() ==> s[i].0 != s[j].0
}

/// Upsert: replace in place when the key exists, append otherwise.
pub open spec fn map_insert<V>(s: Seq<(Seq<char>, V)>, k: Seq<char>, v: V) -> Seq<
    (Seq<char>, V),
> {
    let i = find_key(s, k);
    if i == -1 {
        s.push((k, v))
    } else {
        s.update(i, (k, v))
    }
}

/// Remove the entry under `k`, keeping the order of the rest.
pub open spec fn map_remove<V>(s: Seq<(Seq<char>, V)>, k: Seq<char>) -> Seq<(Seq<char>, V)> {
    let i = find_key(s, k);
    if i == -1 {
        s
    } else {
        s.remove(i)
    }
}

pub proof fn lemma_find_key<V>(s: Seq<(Seq<char>, V)>, k: Seq<char>)
    ensures
        find_key(s, k) == -1 ==> !map_has_key(s, k),
        find_key(s, k) != -1 ==> 0 <= find_key(s, k) < s.len() && s[find_key(s, k)].0 == k
            && forall|j: int| 0 <= j < find_key(s, k) ==> s[j].0 != k,
        map_has_key(s, k) <==> find_key(s, k) != -1,
    decreases s.len(),
{
    if s.len() == 0 {
    } else if s[0].0 == k {
    } else {
        lemma_find_key(s.drop_first(), k);
        assert(forall|j: int| 1 <= j < s.len() ==> s[j] == s.drop_first()[j - 1]);
        if find_key(s, k) == -1 {
            assert(forall|i: int| 0 <= i < s.len() ==> s[i].0 != k);
        } else {
            assert(map_has_key(s, k));
        }
    }
}

/// The first occurrence determines `find_key`.
pub proof fn lemma_find_key_at<V>(s: Seq<(Seq<char>, V)>, k: Seq<char>, i: int)
    requires
        0 <= i < s.len(),
        s[i].0 == k,
        forall|j: int| 0 <= j < i ==> s[j].0 != k,
    ensures
        find_key(s, k) == i,
{
    lemma_find_key(s, k);
}

/// `find_key` looks only at keys.
pub proof fn lemma_find_key_same_keys<V1, V2>(
    s1: Seq<(Seq<char>, V1)>,
    s2: Seq<(Seq<char>, V2)>,
    k: Seq<char>,
)
    requires
        s1.len() == s2.len(),
        forall|i: int| 0 <= i < s1.len() ==> s1[i].0 == s2[i].0,
    ensures
        find_key(s1, k) == find_key(s2, k),
    decreases s1.len(),
{
    if s1.len() == 0 {
    } else {
        lemma_find_key_same_keys(s1.drop_first(), s2.drop_first(), k);
    }
}

pub proof fn lemma_find_key_push_absent<V>(s: Seq<(Seq<char>, V)>, k: Seq<char>, v: V)
    requires
        !map_has_key(s, k),
    ensures
        find_key(s.push((k, v)), k) == s.len(),
    decreases s.len(),
{
    if s.len() == 0 {
        assert(s.push((k, v))[0].0 == k);
    } else {
        assert(s[0].0 != k);
        assert(s.push((k, v))[0].0 != k);
        assert(!map_has_key(s.drop_first(), k)) by {
            if map_has_key(s.drop_first(), k) {
                let i = choose|i: int|
                    0 <= i < s.drop_first().len() && s.drop_first()[i].0 == k;
                assert(s[i + 1].0 == k);
            }
        }
        lemma_find_key_push_absent(s.drop_first(), k, v);
        assert(s.push((k, v)).drop_first() =~= s.drop_first().push((k, v)));
    }
}

pub proof fn lemma_find_key_push_other<V>(s: Seq<(Seq<char>, V)>, x: (Seq<char>, V), k: Seq<char>)
    requires
        x.0 != k,
    ensures
        find_key(s.push(x), k) == find_key(s, k),
    decreases s.len(),
{
    if s.len() == 0 {
        assert(s.push(x)[0].0 != k);
        assert(s.push(x).drop_first() =~= s);
    } else {
        lemma_find_key_push_other(s.drop_first(), x, k);
        assert(s.push(x).drop_first() =~= s.drop_first().push(x));
        assert(s.push(x)[0] == s[0]);
    }
}

/// After an upsert the key is present and holds the new value.
pub proof fn lemma_map_insert_found<V>(s: Seq<(Seq<char>, V)>, k: Seq<char>, v: V)
    ensures
        map_has_key(map_insert(s, k, v), k),
        map_value_of(map_insert(s, k, v), k) == v,
{
    lemma_find_key(s, k);
    if find_key(s, k) == -1 {
        lemma_find_key_push_absent(s, k, v);
        assert(s.push((k, v))[s.len() as int].0 == k);
    } else {
        let i = find_key(s, k);
        let u = s.update(i, (k, v));
        lemma_find_key_same_keys(u, s, k);
        assert(u[i].0 == k);
    }
}

/// An upsert under `k` leaves every other key and its value alone.
pub proof fn lemma_map_insert_other<V>(s: Seq<(Seq<char>, V)>, k: Seq<char>, v: V, k2: Seq<char>)
    requires
        k2 != k,
    ensures
        map_has_key(map_insert(s, k, v), k2) == map_has_key(s, k2),
        map_has_key(s, k2) ==> map_value_of(map_insert(s, k, v), k2) == map_value_of(s, k2),
{
    lemma_find_key(s, k);
    lemma_find_key(s, k2);
    if find_key(s, k) == -1 {
        let p = s.push((k, v));
        lemma_find_key_push_other(s, (k, v), k2);
        lemma_find_key(p, k2);
        if map_has_key(s, k2) {
            assert(p[find_key(p, k2)] == s[find_key(s, k2)]);
        }
    } else {
        let i = find_key(s, k);
        let u = s.update(i, (k, v));
        lemma_find_key_same_keys(u, s, k2);
        lemma_find_key(u, k2);
        if map_has_key(s, k2) {
            assert(s[find_key(s, k2)].0 == k2);
            assert(find_key(s, k2) != i);
            assert(u[find_key(u, k2)] == s[find_key(s, k2)]);
        }
    }
}

/// Removing a key from a well-formed map really removes it.
pub proof fn lemma_map_remove_absent<V>(s: Seq<(Seq<char>, V)>, k: Seq<char>)
    requires
        map_wf(s),
    ensures
        !map_has_key(map_remove(s, k), k),
{
    lemma_find_key(s, k);
    if find_key(s, k) != -1 {
        let i = find_key(s, k);
        let r = s.remove(i);
        assert forall|j: int| 0 <= j < r.len() implies r[j].0 != k by {
            let p0 = if j < i { j } else { j + 1 };
            assert(r[j] == s[p0]);
            if s[p0].0 == k {
                assert(s[i].0 == k);
            }
        }
    }
}

/// Map from alias or link names to strings (targets or URIs).
#[derive(Debug, PartialEq, Eq)]
pub struct NameMap {
    entries: Vec<(String, String)>,
}

impl View for NameMap {
    type V = Seq<(Seq<char>, Seq<char>)>;

    closed spec fn view(&self) -> Self::V {
        Seq::new(self.entries@.len(), |i: int| (self.entries@[i].0@, self.entries@[i].1@))
    }
}

/// Values of every entry whose value equals `from` are replaced by `to`;
/// keys and order are untouched.
pub open spec fn retarget_spec(
    s: Seq<(Seq<char>, Seq<char>)>,
    from: Seq<char>,
    to: Seq<char>,
) -> Seq<(Seq<char>, Seq<char>)> {
    Seq::new(s.len(), |i: int| (s[i].0, if s[i].1 == from { to } else { s[i].1 }))
}

impl NameMap {
    pub open spec fn wf(&self) -> bool {
        map_wf(self@)
    }

    pub fn new() -> (r: NameMap)
        ensures
            r@ == Seq::<(Seq<char>, Seq<char>)>::empty(),
            r.wf(),
    {
        let r = NameMap { entries: Vec::new() };
        proof {
            assert(r@ =~= Seq::<(Seq<char>, Seq<char>)>::empty());
        }
        r
    }

    pub fn len(&self) -> (r: usize)
        ensures
            r == self@.len(),
    {
        self.entries.len()
    }

    pub fn is_empty(&self) -> (r: bool)
        ensures
            r == (self@.len() == 0),
    {
        self.entries.len() == 0
    }

    /// Index of the entry holding `key`, if any.
    fn index_of(&self, key: &str) -> (r: Option<usize>)
        ensures
            match r {
                Some(i) => find_key(self@, key@) == i && i < self@.len(),
                None => find_key(self@, key@) == -1,
            },
    {
        let n = self.entries.len();
        let mut i: usize = 0;
        while i < n
            invariant
                0 <= i <= n,
                n == self@.len(),
                forall|j: int| 0 <= j < i ==> self@[j].0 != key@,
            decreases n - i,
        {
            let e = &self.entries[i];
            if str_eq(e.0.as_str(), key) {
                proof {
                    lemma_find_key_at(self@, key@, i as int);
                }
                return Some(i);
            }
            i = i + 1;
        }
        proof {
            lemma_find_key(self@, key@);
        }
        None
    }

    pub fn contains_key(&self, key: &str) -> (r: bool)
        ensures
            r == map_has_key(self@, key@),
    {
        proof {
            lemma_find_key(self@, key@);
        }
        match self.index_of(key) {
            Some(_) => true,
            None => false,
        }
    }

    pub fn get(&self, key: &str) -> (r: Option<&String>)
        ensures
            match r {
                Some(v) => map_has_key(self@, key@) && v@ == map_value_of(self@, key@),
                None => !map_has_key(self@, key@),
            },
    {
        proof {
            lemma_find_key(self@, key@);
        }
        match self.index_of(key) {
            Some(i) => Some(&self.entries[i].1),
            None => None,
        }
    }

    pub fn insert(&mut self, key: String, value: String)
        requires
            old(self).wf(),
        ensures
            final(self)@ == map_insert(old(self)@, key@, value@),
            final(self).wf(),
    {
        match self.index_of(key.as_str()) {
            Some(i) => {
                self.entries.remove(i);
                self.entries.insert(i, (key, value));
                proof {
                    assert(final(self)@ =~= map_insert(old(self)@, key@, value@));
                    lemma_find_key(old(self)@, key@);
                    assert(old(self)@[i as int].0 == key@);
                    assert forall|p: int, q: int|
                        0 <= p < q < final(self)@.len() implies final(self)@[p].0
                        != final(self)@[q].0 by {
                        assert(final(self)@[p].0 == old(self)@[p].0);
                        assert(final(self)@[q].0 == old(self)@[q].0);
                        assert(old(self)@[p].0 != old(self)@[q].0);
                    }
                }
            },
            None => {
                self.entries.push((key, value));
                proof {
                    assert(final(self)@ =~= map_insert(old(self)@, key@, value@));
                    lemma_find_key(old(self)@, key@);
                    assert forall|p: int, q: int|
                        0 <= p < q < final(self)@.len() implies final(self)@[p].0
                        != final(self)@[q].0 by {
                        if q < old(self)@.len() {
                            assert(old(self)@[p].0 != old(self)@[q].0);
                        } else {
                            assert(final(self)@[q].0 == key@);
                            assert(!map_has_key(old(self)@, key@));
                        }
                    }
                }
            },
        }
    }

    pub fn remove(&mut self, key: &str) -> (r: Option<String>)
        requires
            old(self).wf(),
        ensures
            final(self)@ == map_remove(old(self)@, key@),
            final(self).wf(),
            match r {
                Some(v) => map_has_key(old(self)@, key@) && v@ == map_value_of(
                    old(self)@,
                    key@,
                ),
                None => !map_has_key(old(self)@, key@),
            },
    {
        proof {
            lemma_find_key(old(self)@, key@);
        }
        match self.index_of(key) {
            Some(i) => {
                let pair = self.entries.remove(i);
                proof {
                    assert(final(self)@ =~= map_remove(old(self)@, key@));
                    let removed = old(self)@.remove(i as int);
                    assert forall|p: int, q: int|
                        0 <= p < q < removed.len() implies removed[p].0 != removed[q].0 by {
                        let p0 = if p < i { p } else { p + 1 };
                        let q0 = if q < i { q } else { q + 1 };
                        assert(removed[p] == old(self)@[p0]);
                        assert(removed[q] == old(self)@[q0]);
                        assert(old(self)@[p0].0 != old(self)@[q0].0);
                    }
                }
                Some(pair.1)
            },
            None => None,
        }
    }

    /// The stored entries, in order.
    pub fn items(&self) -> (r: &Vec<(String, String)>)
        ensures
            r@.len() == self@.len(),
            forall|i: int|
                0 <= i < r@.len() ==> r@[i].0@ == self@[i].0 && r@[i].1@ == self@[i].1,
    {
        &self.entries
    }

    /// Rewrite every value equal to `from` into `to` (the alias-side cascade
    /// of a link rename).
    pub fn retarget(&mut self, from: &str, to: &str)
        requires
            old(self).wf(),
        ensures
            final(self)@ == retarget_spec(old(self)@, from@, to@),
            final(self).wf(),
    {
        let n = self.entries.len();
        let mut out: Vec<(String, String)> = Vec::new();
        let mut i: usize = 0;
        while i < n
            invariant
                0 <= i <= n,
                n == old(self)@.len(),
                self == old(self),
                out@.len() == i,
                forall|j: int|
                    0 <= j < i ==> out@[j].0@ == old(self)@[j].0 && out@[j].1@ == (if old(
                        self,
                    )@[j].1 == from@ {
                        to@
                    } else {
                        old(self)@[j].1
                    }),
            decreases n - i,
        {
            let e = &self.entries[i];
            let k = e.0.clone();
            let v = if str_eq(e.1.as_str(), from) {
                to.to_owned()
            } else {
                e.1.clone()
            };
            out.push((k, v));
            i = i + 1;
        }
        self.entries = out;
        proof {
            assert(final(self)@ =~= retarget_spec(old(self)@, from@, to@));
            assert forall|p: int, q: int|
                0 <= p < q < final(self)@.len() implies final(self)@[p].0
                != final(self)@[q].0 by {
                assert(old(self)@[p].0 != old(self)@[q].0);
            }
        }
    }
}

/// Map from group names to their ordered member lists.
#[derive(Debug, PartialEq, Eq)]
pub struct ListMap {
    entries: Vec<(String, Vec<String>)>,
}

impl View for ListMap {
    type V = Seq<(Seq<char>, Seq<Seq<char>>)>;

    closed spec fn view(&self) -> Self::V {
        Seq::new(
            self.entries@.len(),
            |i: int| (self.entries@[i].0@, self.entries@[i].1.deep_view()),
        )
    }
}

/// Members equal to `from` are replaced by `to` in every list, preserving
/// order and duplicate occurrences; keys are untouched.
pub open spec fn rename_members_spec(
    ms: Seq<Seq<char>>,
    from: Seq<char>,
    to: Seq<char>,
) -> Seq<Seq<char>> {
    Seq::new(ms.len(), |j: int| if ms[j] == from { to } else { ms[j] })
}

pub open spec fn rename_in_lists_spec(
    s: Seq<(Seq<char>, Seq<Seq<char>>)>,
    from: Seq<char>,
    to: Seq<char>,
) -> Seq<(Seq<char>, Seq<Seq<char>>)> {
    Seq::new(s.len(), |i: int| (s[i].0, rename_members_spec(s[i].1, from, to)))
}

impl ListMap {
    pub open spec fn wf(&self) -> bool {
        map_wf(self@)
    }

    pub fn new() -> (r: ListMap)
        ensures
            r@ == Seq::<(Seq<char>, Seq<Seq<char>>)>::empty(),
            r.wf(),
    {
        let r = ListMap { entries: Vec::new() };
        proof {
            assert(r@ =~= Seq::<(Seq<char>, Seq<Seq<char>>)>::empty());
        }
        r
    }

    pub fn len(&self) -> (r: usize)
        ensures
            r == self@.len(),
    {
        self.entries.len()
    }

    pub fn is_empty(&self) -> (r: bool)
        ensures
            r == (self@.len() == 0),
    {
        self.entries.len() == 0
    }

    fn index_of(&self, key: &str) -> (r: Option<usize>)
        ensures
            match r {
                Some(i) => find_key(self@, key@) == i && i < self@.len(),
                None => find_key(self@, key@) == -1,
            },
    {
        let n = self.entries.len();
        let mut i: usize = 0;
        while i < n
            invariant
                0 <= i <= n,
                n == self@.len(),
                forall|j: int| 0 <= j < i ==> self@[j].0 != key@,
            decreases n - i,
        {
            let e = &self.entries[i];
            if str_eq(e.0.as_str(), key) {
                proof {
                    lemma_find_key_at(self@, key@, i as int);
                }
                return Some(i);
            }
            i = i + 1;
        }
        proof {
            lemma_find_key(self@, key@);
        }
        None
    }

    pub fn contains_key(&self, key: &str) -> (r: bool)
        ensures
            r == map_has_key(self@, key@),
    {
        proof {
            lemma_find_key(self@, key@);
        }
        match self.index_of(key) {
            Some(_) => true,
            None => false,
        }
    }

    pub fn get(&self, key: &str) -> (r: Option<&Vec<String>>)
        ensures
            match r {
                Some(v) => map_has_key(self@, key@) && v.deep_view() == map_value_of(
                    self@,
                    key@,
                ),
                None => !map_has_key(self@, key@),
            },
    {
        proof {
            lemma_find_key(self@, key@);
        }
        match self.index_of(key) {
            Some(i) => Some(&self.entries[i].1),
            None => None,
        }
    }

    pub fn insert(&mut self, key: String, value: Vec<String>)
        requires
            old(self).wf(),
        ensures
            final(self)@ == map_insert(old(self)@, key@, value.deep_view()),
            final(self).wf(),
    {
        match self.index_of(key.as_str()) {
            Some(i) => {
                self.entries.remove(i);
                self.entries.insert(i, (key, value));
                proof {
                    assert(final(self)@ =~= map_insert(old(self)@, key@, value.deep_view()));
                    lemma_find_key(old(self)@, key@);
                    assert(old(self)@[i as int].0 == key@);
                    assert forall|p: int, q: int|
                        0 <= p < q < final(self)@.len() implies final(self)@[p].0
                        != final(self)@[q].0 by {
                        assert(final(self)@[p].0 == old(self)@[p].0);
                        assert(final(self)@[q].0 == old(self)@[q].0);
                        assert(old(self)@[p].0 != old(self)@[q].0);
                    }
                }
            },
            None => {
                self.entries.push((key, value));
                proof {
                    assert(final(self)@ =~= map_insert(old(self)@, key@, value.deep_view()));
                    lemma_find_key(old(self)@, key@);
                    assert forall|p: int, q: int|
                        0 <= p < q < final(self)@.len() implies final(self)@[p].0
                        != final(self)@[q].0 by {
                        if q < old(self)@.len() {
                            assert(old(self)@[p].0 != old(self)@[q].0);
                        } else {
                            assert(final(self)@[q].0 == key@);
                            assert(!map_has_key(old(self)@, key@));
                        }
                    }
                }
            },
        }
    }

    pub fn remove(&mut self, key: &str) -> (r: Option<Vec<String>>)
        requires
            old(self).wf(),
        ensures
            final(self)@ == map_remove(old(self)@, key@),
            final(self).wf(),
            match r {
                Some(v) => map_has_key(old(self)@, key@) && v.deep_view() == map_value_of(
                    old(self)@,
                    key@,
                ),
                None => !map_has_key(old(self)@, key@),
            },
    {
        proof {
            lemma_find_key(old(self)@, key@);
        }
        match self.index_of(key) {
            Some(i) => {
                let pair = self.entries.remove(i);
                proof {
                    assert(final(self)@ =~= map_remove(old(self)@, key@));
                    let removed = old(self)@.remove(i as int);
                    assert forall|p: int, q: int|
                        0 <= p < q < removed.len() implies removed[p].0 != removed[q].0 by {
                        let p0 = if p < i { p } else { p + 1 };
                        let q0 = if q < i { q } else { q + 1 };
                        assert(removed[p] == old(self)@[p0]);
                        assert(removed[q] == old(self)@[q0]);
                        assert(old(self)@[p0].0 != old(self)@[q0].0);
                    }
                }
                Some(pair.1)
            },
            None => None,
        }
    }

    pub fn items(&self) -> (r: &Vec<(String, Vec<String>)>)
        ensures
            r@.len() == self@.len(),
            forall|i: int|
                0 <= i < r@.len() ==> r@[i].0@ == self@[i].0 && r@[i].1.deep_view()
                    == self@[i].1,
    {
        &self.entries
    }

    /// Rewrite every member equal to `from` into `to` in every list (the
    /// group-side cascade of an alias rename).
    pub fn rename_entries(&mut self, from: &str, to: &str)
        requires
            old(self).wf(),
        ensures
            final(self)@ == rename_in_lists_spec(old(self)@, from@, to@),
            final(self).wf(),
    {
        let n = self.entries.len();
        let mut out: Vec<(String, Vec<String>)> = Vec::new();
        let mut i: usize = 0;
        while i < n
            invariant
                0 <= i <= n,
                n == old(self)@.len(),
                self == old(self),
                out@.len() == i,
                forall|j: int|
                    0 <= j < i ==> out@[j].0@ == old(self)@[j].0 && out@[j].1.deep_view()
                        == rename_members_spec(old(self)@[j].1, from@, to@),
            decreases n - i,
        {
            let e = &self.entries[i];
            let k = e.0.clone();
            let m = e.1.len();
            let mut members: Vec<String> = Vec::new();
            let mut j: usize = 0;
            while j < m
                invariant
                    0 <= j <= m,
                    0 <= i < n,
                    n == old(self)@.len(),
                    self == old(self),
                    m == old(self)@[i as int].1.len(),
                    e == &self.entries@[i as int],
                    members@.len() == j,
                    forall|t: int|
                        0 <= t < j ==> members@[t]@ == rename_members_spec(
                            old(self)@[i as int].1,
                            from@,
                            to@,
                        )[t],
                decreases m - j,
            {
                let piece = if str_eq(e.1[j].as_str(), from) {
                    to.to_owned()
                } else {
                    e.1[j].clone()
                };
                members.push(piece);
                j = j + 1;
            }
            proof {
                assert(members.deep_view() =~= rename_members_spec(
                    old(self)@[i as int].1,
                    from@,
                    to@,
                ));
            }
            out.push((k, members));
            i = i + 1;
        }
        self.entries = out;
        proof {
            assert(final(self)@ =~= rename_in_lists_spec(old(self)@, from@, to@));
            assert forall|p: int, q: int|
                0 <= p < q < final(self)@.len() implies final(self)@[p].0
                != final(self)@[q].0 by {
                assert(old(self)@[p].0 != old(self)@[q].0);
            }
        }
    }
}

} // verus!
