//! Values kept by name, in the order of their names.
use crate::text::{before, lemma_before_strict, lemma_before_trans, place, same, views, Place};
use vstd::prelude::*;

verus! {

/// A map from names to values, walked in the order of the names.
#[derive(Debug, Clone)]
pub struct NameMap<V> {
    items: Vec<(String, V)>,
}

/// Every name comes before the next.
pub open spec fn in_order<V>(e: Seq<(String, V)>) -> bool {
    forall|i: int, j: int| 0 <= i < j < e.len() ==> before(#[trigger] e[i].0@, #[trigger] e[j].0@)
}

/// The names of the entries, in order.
pub open spec fn keys<V>(e: Seq<(String, V)>) -> Seq<Seq<char>> {
    Seq::new(e.len(), |i: int| e[i].0@)
}

/// The place of `key` among the entries, or their number where it is not there.
pub open spec fn position<V>(e: Seq<(String, V)>, key: Seq<char>) -> nat
    decreases e.len(),
{
    if e.len() == 0 || e[0].0@ == key {
        0
    } else {
        1 + position(e.skip(1), key)
    }
}

/// The value kept under `key`.
pub open spec fn lookup<V>(e: Seq<(String, V)>, key: Seq<char>) -> Option<V> {
    let p = position(e, key) as int;
    if p < e.len() {
        Some(e[p].1)
    } else {
        None
    }
}

/// How many entries at the front come before `key`.
pub open spec fn slot<V>(e: Seq<(String, V)>, key: Seq<char>) -> nat
    decreases e.len(),
{
    if e.len() == 0 || !before(e[0].0@, key) {
        0
    } else {
        1 + slot(e.skip(1), key)
    }
}

/// The entries with `key` set to `value`: an entry of that name keeps its place, a new one takes
/// the place that its name has in the order.
pub open spec fn inserted<V>(e: Seq<(String, V)>, key: String, value: V) -> Seq<(String, V)> {
    let p = slot(e, key@) as int;
    if p < e.len() && e[p].0@ == key@ {
        e.update(p, (e[p].0, value))
    } else {
        e.insert(p, (key, value))
    }
}

/// The entries without the one of that name.
pub open spec fn removed<V>(e: Seq<(String, V)>, key: Seq<char>) -> Seq<(String, V)> {
    let p = position(e, key) as int;
    if p < e.len() {
        e.remove(p)
    } else {
        e
    }
}

pub proof fn lemma_position<V>(e: Seq<(String, V)>, key: Seq<char>)
    ensures
        position(e, key) <= e.len(),
        position(e, key) < e.len() ==> e[position(e, key) as int].0@ == key,
        forall|i: int| 0 <= i < position(e, key) ==> (#[trigger] e[i]).0@ != key,
    decreases e.len(),
{
    if e.len() > 0 && e[0].0@ != key {
        lemma_position(e.skip(1), key);
        assert forall|i: int| 0 <= i < position(e, key) implies (#[trigger] e[i]).0@ != key by {
            if i > 0 {
                assert(e.skip(1)[i - 1] == e[i]);
            }
        }
    }
}

/// A place that holds the first entry of a name is its position.
pub proof fn lemma_position_is<V>(e: Seq<(String, V)>, key: Seq<char>, p: int)
    requires
        0 <= p <= e.len(),
        p < e.len() ==> e[p].0@ == key,
        forall|i: int| 0 <= i < p ==> (#[trigger] e[i]).0@ != key,
    ensures
        position(e, key) == p,
{
    lemma_position(e, key);
    let q = position(e, key) as int;
    if q < p {
        assert(e[q].0@ != key);
    } else if p < q {
        assert(e[p].0@ != key);
    }
}

pub proof fn lemma_slot<V>(e: Seq<(String, V)>, key: Seq<char>)
    ensures
        slot(e, key) <= e.len(),
        slot(e, key) < e.len() ==> !before(e[slot(e, key) as int].0@, key),
        forall|i: int| 0 <= i < slot(e, key) ==> before((#[trigger] e[i]).0@, key),
    decreases e.len(),
{
    if e.len() > 0 && before(e[0].0@, key) {
        lemma_slot(e.skip(1), key);
        assert forall|i: int| 0 <= i < slot(e, key) implies before((#[trigger] e[i]).0@, key) by {
            if i > 0 {
                assert(e.skip(1)[i - 1] == e[i]);
            }
        }
    }
}

/// The order of strings is total.
proof fn lemma_before_total(a: Seq<char>, b: Seq<char>)
    ensures
        before(a, b) || a == b || before(b, a),
{
    assert(a.take(0) =~= b.take(0));
    lemma_total_from(a, b, 0);
}

proof fn lemma_total_from(a: Seq<char>, b: Seq<char>, n: int)
    requires
        0 <= n <= a.len(),
        n <= b.len(),
        a.take(n) == b.take(n),
    ensures
        before(a, b) || a == b || before(b, a),
    decreases a.len() - n,
{
    if n == a.len() && n == b.len() {
        assert(a.take(n) =~= a);
        assert(b.take(n) =~= b);
    } else if n == a.len() {
        assert(crate::text::differ_at(a, b, n));
    } else if n == b.len() {
        assert(crate::text::differ_at(b, a, n));
    } else if a[n] < b[n] {
        assert(crate::text::differ_at(a, b, n));
    } else if b[n] < a[n] {
        assert(crate::text::differ_at(b, a, n));
    } else {
        assert(a.take(n + 1) =~= a.take(n).push(a[n]));
        assert(b.take(n + 1) =~= b.take(n).push(b[n]));
        lemma_total_from(a, b, n + 1);
    }
}

/// Setting a name keeps the order.
pub proof fn lemma_inserted_in_order<V>(e: Seq<(String, V)>, key: String, value: V)
    requires
        in_order(e),
    ensures
        in_order(inserted(e, key, value)),
{
    let p = slot(e, key@) as int;
    lemma_slot(e, key@);
    let f = inserted(e, key, value);
    if p < e.len() && e[p].0@ == key@ {
        assert forall|i: int, j: int| 0 <= i < j < f.len() implies before(
            #[trigger] f[i].0@,
            #[trigger] f[j].0@,
        ) by {
            assert(f[i].0 == e[i].0);
            assert(f[j].0 == e[j].0);
        }
    } else {
        if p < e.len() {
            lemma_before_total(e[p].0@, key@);
        }
        assert forall|i: int, j: int| 0 <= i < j < f.len() implies before(
            #[trigger] f[i].0@,
            #[trigger] f[j].0@,
        ) by {
            if j < p {
                assert(before(e[i].0@, e[j].0@));
            } else if j == p {
                assert(before(e[i].0@, key@));
            } else if i < p {
                assert(f[j] == e[j - 1]);
                assert(before(e[i].0@, e[j - 1].0@));
            } else if i == p {
                assert(f[j] == e[j - 1]);
                if j - 1 > p {
                    assert(before(e[p].0@, e[j - 1].0@));
                    lemma_before_trans(key@, e[p].0@, e[j - 1].0@);
                }
            } else {
                assert(f[i] == e[i - 1]);
                assert(f[j] == e[j - 1]);
                assert(before(e[i - 1].0@, e[j - 1].0@));
            }
        }
    }
}

/// A name that was set reads as what it was set to, and setting it changes no other.
pub proof fn law_insert_then_get<V>(e: Seq<(String, V)>, key: String, value: V, other: Seq<char>)
    requires
        in_order(e),
    ensures
        lookup(inserted(e, key, value), key@) == Some(value),
        other != key@ ==> lookup(inserted(e, key, value), other) == lookup(e, other),
{
    let p = slot(e, key@) as int;
    lemma_slot(e, key@);
    let f = inserted(e, key, value);
    assert forall|i: int| 0 <= i < p implies (#[trigger] f[i]).0@ != key@ by {
        assert(f[i] == e[i]);
        lemma_before_strict(e[i].0@, key@);
    }
    lemma_position_is(f, key@, p);
    if other != key@ {
        let q = position(e, other) as int;
        lemma_position(e, other);
        if p < e.len() && e[p].0@ == key@ {
            assert forall|i: int| 0 <= i < q implies (#[trigger] f[i]).0@ != other by {
                assert(f[i].0 == e[i].0);
                assert(e[i].0@ != other);
            }
            lemma_position_is(f, other, q);
        } else {
            let r = if q < p {
                q
            } else {
                q + 1
            };
            assert forall|i: int| 0 <= i < r implies (#[trigger] f[i]).0@ != other by {
                if i < p {
                    assert(f[i] == e[i]);
                } else if i > p {
                    assert(f[i] == e[i - 1]);
                }
            }
            lemma_position_is(f, other, r);
        }
    }
}

/// A name that was removed is gone, and removing it changes no other.
pub proof fn law_remove_then_get<V>(e: Seq<(String, V)>, key: Seq<char>, other: Seq<char>)
    requires
        in_order(e),
    ensures
        lookup(removed(e, key), key) is None,
        other != key ==> lookup(removed(e, key), other) == lookup(e, other),
{
    let p = position(e, key) as int;
    lemma_position(e, key);
    let f = removed(e, key);
    assert forall|i: int| 0 <= i < f.len() implies (#[trigger] f[i]).0@ != key by {
        if p < e.len() {
            if i < p {
                assert(e[i].0@ != key);
            } else {
                assert(f[i] == e[i + 1]);
                assert(before(e[p].0@, e[i + 1].0@));
                lemma_before_strict(e[p].0@, e[i + 1].0@);
            }
        } else {
            assert(e[i].0@ != key);
        }
    }
    lemma_position_is(f, key, f.len() as int);
    if other != key {
        let q = position(e, other) as int;
        lemma_position(e, other);
        if p < e.len() {
            let r = if q < p {
                q
            } else {
                q - 1
            };
            assert forall|i: int| 0 <= i < r implies (#[trigger] f[i]).0@ != other by {
                if i < p {
                    assert(e[i].0@ != other);
                } else {
                    assert(f[i] == e[i + 1]);
                    assert(e[i + 1].0@ != other);
                }
            }
            lemma_position_is(f, other, r);
        }
    }
}

impl<V> NameMap<V> {
    /// The names with their values, in order.
    pub closed spec fn entries(self) -> Seq<(String, V)> {
        self.items@
    }

    /// The names are in order. Every map that is made and changed through these methods is.
    pub open spec fn wf(self) -> bool {
        in_order(self.entries())
    }

    /// A map without names.
    pub fn new() -> (r: Self)
        ensures
            r.entries() == Seq::<(String, V)>::empty(),
            r.wf(),
    {
        NameMap { items: Vec::new() }
    }

    /// The names, in order.
    pub fn names(&self) -> (r: Vec<String>)
        ensures
            views(r@) == keys(self.entries()),
    {
        let mut out: Vec<String> = Vec::new();
        let mut i: usize = 0;
        while i < self.items.len()
            invariant
                i <= self.items@.len(),
                views(out@) =~= keys(self.items@).take(i as int),
            decreases self.items@.len() - i,
        {
            let ghost prior = out@;
            out.push(self.items[i].0.clone());
            assert(views(out@) =~= views(prior).push(self.items@[i as int].0@));
            i += 1;
        }
        assert(keys(self.items@).take(self.items@.len() as int) =~= keys(self.items@));
        out
    }

    /// How many names there are.
    pub fn len(&self) -> (r: usize)
        ensures
            r == self.entries().len(),
    {
        self.items.len()
    }

    /// The name at place `i`.
    pub fn key(&self, i: usize) -> (r: &String)
        requires
            i < self.entries().len(),
        ensures
            *r == self.entries()[i as int].0,
    {
        &self.items[i].0
    }

    /// The value at place `i`.
    pub fn value(&self, i: usize) -> (r: &V)
        requires
            i < self.entries().len(),
        ensures
            *r == self.entries()[i as int].1,
    {
        &self.items[i].1
    }

    /// The place of `name`.
    pub fn find(&self, name: &str) -> (r: Option<usize>)
        ensures
            match r {
                Some(i) => i == position(self.entries(), name@) && i < self.entries().len(),
                None => position(self.entries(), name@) == self.entries().len(),
            },
    {
        let mut i: usize = 0;
        while i < self.items.len()
            invariant
                i <= self.items@.len(),
                forall|k: int| 0 <= k < i ==> (#[trigger] self.items@[k]).0@ != name@,
            decreases self.items@.len() - i,
        {
            if same(self.items[i].0.as_str(), name) {
                proof {
                    lemma_position_is(self.items@, name@, i as int);
                }
                return Some(i);
            }
            i += 1;
        }
        proof {
            lemma_position_is(self.items@, name@, i as int);
        }
        None
    }

    /// The value kept under `name`.
    pub fn get(&self, name: &str) -> (r: Option<&V>)
        ensures
            match r {
                Some(v) => lookup(self.entries(), name@) == Some(*v),
                None => lookup(self.entries(), name@) is None,
            },
    {
        match self.find(name) {
            Some(i) => Some(&self.items[i].1),
            None => None,
        }
    }

    /// The value kept under `name`, to be changed.
    pub fn get_mut(&mut self, name: &str) -> (r: Option<&mut V>)
        ensures
            match r {
                Some(v) => {
                    let e = old(self).entries();
                    let p = position(e, name@) as int;
                    &&& lookup(e, name@) == Some(*v)
                    &&& final(self).entries() == e.update(p, (e[p].0, *final(v)))
                },
                None => lookup(old(self).entries(), name@) is None && *final(self) == *old(self),
            },
            old(self).wf() ==> final(self).wf(),
    {
        match self.find(name) {
            Some(i) => {
                let slot = &mut self.items[i];
                Some(&mut slot.1)
            },
            None => None,
        }
    }

    /// Whether there is a value under `name`.
    pub fn contains_key(&self, name: &str) -> (r: bool)
        ensures
            r == (lookup(self.entries(), name@) is Some),
    {
        self.find(name).is_some()
    }

    /// Sets the value of a name.
    pub fn insert(&mut self, name: String, value: V)
        ensures
            final(self).entries() == inserted(old(self).entries(), name, value),
            old(self).wf() ==> final(self).wf(),
    {
        let mut i: usize = 0;
        assert(self.items@.skip(0) =~= self.items@);
        while i < self.items.len() && matches!(place(self.items[i].0.as_str(), name.as_str()), Place::Before)
            invariant
                i <= self.items@.len(),
                self.items == old(self).items,
                slot(self.items@, name@) == i + slot(self.items@.skip(i as int), name@),
            decreases self.items@.len() - i,
        {
            assert(self.items@.skip(i as int)[0] == self.items@[i as int]);
            assert(self.items@.skip(i as int).skip(1) =~= self.items@.skip(i as int + 1));
            i += 1;
        }
        proof {
            if i < self.items@.len() {
                assert(self.items@.skip(i as int)[0] == self.items@[i as int]);
            }
            if self.wf() {
                lemma_inserted_in_order(self.items@, name, value);
            }
        }
        if i < self.items.len() && same(self.items[i].0.as_str(), name.as_str()) {
            let kept = self.items[i].0.clone();
            self.items[i] = (kept, value);
        } else {
            self.items.insert(i, (name, value));
        }
    }

    /// Drops a name.
    pub fn remove(&mut self, name: &str) -> (r: Option<V>)
        ensures
            final(self).entries() == removed(old(self).entries(), name@),
            r == lookup(old(self).entries(), name@),
            old(self).wf() ==> final(self).wf(),
    {
        match self.find(name) {
            Some(i) => {
                let ghost e = self.items@;
                assert(in_order(e) ==> in_order(e.remove(i as int))) by {
                    let f = e.remove(i as int);
                    assert forall|a: int, b: int| 0 <= a < b < f.len() && in_order(e) implies before(
                        #[trigger] f[a].0@,
                        #[trigger] f[b].0@,
                    ) by {
                        let c = if a < i {
                            a
                        } else {
                            a + 1
                        };
                        let d = if b < i {
                            b
                        } else {
                            b + 1
                        };
                        assert(f[a] == e[c]);
                        assert(f[b] == e[d]);
                    }
                }
                let (_, v) = self.items.remove(i);
                Some(v)
            },
            None => None,
        }
    }
}

} // verus!
