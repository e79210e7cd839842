//! What a save keeps of the file that was there, and what it brings in.
use crate::doc::{
    added, expanded, expanded_to, integers_to, is_text_of, lemma_found, lemma_key_listed, merged,
    merged_to, part_of, profiled, pruned, setting, text_tree, trimmed, trimmed_to, updated,
    updated_to, with_buttons, with_element, with_setting, without_binding, written, Document, Part,
};
use crate::text::has_suffix;
use crate::tree::{
    assigned, ended, find_from, plain, put, retained, unreturned, valued, valued_entries, Data,
    Decor, Entry, Tree,
};
use vstd::prelude::*;

verus! {

/// The entries of `m` that `a` has too are where they were, under the same keys, with the same
/// comments around the keys, around values and around headings.
pub open spec fn keeps(a: Tree, m: Tree) -> bool
    decreases a,
{
    if a.is_table() && m.is_table() {
        &&& m.decor() == a.decor()
        &&& m.entries().len() >= a.entries().len()
        &&& forall|i: int|
            #![trigger a.entries()[i]]
            0 <= i < a.entries().len() && a.shows_at(i) ==> {
                &&& m.entries()[i].key == a.entries()[i].key
                &&& m.entries()[i].around == a.entries()[i].around
                &&& keeps(a.entries()[i].item, m.entries()[i].item)
            }
    } else if a.is_value() && m is Value {
        m.decor() == a.decor()
    } else {
        true
    }
}

/// Everything that `b` says, `m` says too: the same values under the same keys, at every depth.
pub open spec fn says(m: Tree, b: Tree) -> bool
    decreases b,
{
    if b.is_table() {
        &&& m.is_table()
        &&& forall|key: Seq<char>|
            (#[trigger] b.get(key)) matches Some(v) ==> m.get(key) is Some && says(
                m.get(key)->0,
                v,
            )
    } else if b is Value {
        m is Value && m->Value_0 == b->Value_0
    } else {
        true
    }
}

/// A search finds the same in two lists with the same keys, as far as the shorter goes.
proof fn lemma_same_keys(e: Seq<Entry>, f: Seq<Entry>, key: Seq<char>, i: int)
    requires
        0 <= i,
        e.len() == f.len(),
        forall|k: int| 0 <= k < e.len() ==> (#[trigger] e[k]).key == f[k].key,
    ensures
        find_from(e, key, i) == find_from(f, key, i),
    decreases e.len() - i,
{
    if i < e.len() {
        assert(e[i].key == f[i].key);
        if e[i].key != key {
            lemma_same_keys(e, f, key, i + 1);
        }
    }
}

proof fn lemma_pushed(e: Seq<Entry>, x: Entry, key: Seq<char>, i: int)
    requires
        0 <= i <= e.len(),
    ensures
        find_from(e.push(x), key, i) == (match find_from(e, key, i) {
            Some(k) => Some(k),
            None => if x.key == key {
                Some(e.len() as int)
            } else {
                None
            },
        }),
    decreases e.len() - i,
{
    if i < e.len() {
        if e[i].key != key {
            lemma_pushed(e, x, key, i + 1);
        }
    } else {
        assert(find_from(e.push(x), key, i + 1) is None);
    }
}

/// What one changed entry changes: what shows under its own key, and nothing else.
proof fn lemma_updated_get(t: Tree, i: int, item: Tree, key: Seq<char>)
    requires
        t.is_table(),
        find_from(t.entries(), t.entries()[i].key, 0) == Some(i),
        item !is Nothing,
    ensures
        ({
            let m = t.with_entries(
                t.entries().update(i, Entry { item, ..t.entries()[i] }),
            );
            m.get(key) == if key == t.entries()[i].key {
                Some(item)
            } else {
                t.get(key)
            }
        }),
{
    let e = t.entries();
    lemma_found(e, e[i].key, 0);
    let f = e.update(i, Entry { item, ..e[i] });
    lemma_same_keys(e, f, key, 0);
    lemma_found(e, key, 0);
}

/// What one entry that is put in changes.
proof fn lemma_put_get(t: Tree, at: Seq<char>, item: Tree, key: Seq<char>)
    requires
        t.is_table(),
        t is Table ==> item !is Nothing,
    ensures
        t.with_entries(put(t.entries(), at, item)).get(key) == if key == at {
            Some(item)
        } else {
            t.get(key)
        },
        t.with_entries(assigned(t.entries(), at, item)).get(key) == if key == at {
            Some(item)
        } else {
            t.get(key)
        },
{
    let e = t.entries();
    lemma_found(e, at, 0);
    lemma_found(e, key, 0);
    match find_from(e, at, 0) {
        Some(i) => {
            lemma_same_keys(e, put(e, at, item), key, 0);
            lemma_same_keys(e, assigned(e, at, item), key, 0);
        },
        None => {
            lemma_pushed(e, Entry { key: at, around: plain(), item }, key, 0);
        },
    }
}

proof fn lemma_shown_is_whole(t: Tree, key: Seq<char>)
    requires
        t.whole(),
    ensures
        t.get(key) matches Some(v) ==> v.whole() && v !is Nothing,
{
    lemma_found(t.entries(), key, 0);
    if let Some(i) = t.find(key) {
        assert(t.entries()[i].item.whole());
    }
}

// What is kept.

/// What the entries of `a` are once the first `n` keys of `b` were brought in.
proof fn lemma_merged_keeps(a: Tree, b: Tree, n: nat)
    requires
        a.is_table(),
        b.is_table(),
        b.whole(),
        n <= b.keys().len(),
    ensures
        merged_to(a, b, n).len() >= a.entries().len(),
        forall|i: int|
            #![trigger a.entries()[i]]
            0 <= i < a.entries().len() && a.shows_at(i) ==> {
                let x = merged_to(a, b, n)[i];
                &&& x.key == a.entries()[i].key
                &&& x.around == a.entries()[i].around
                &&& keeps(a.entries()[i].item, x.item)
                &&& a is Table ==> x.item !is Nothing
                &&& !b.keys().take(n as int).contains(x.key) ==> x.item == a.entries()[i].item
            },
    decreases b, n,
{
    if n == 0 {
        assert forall|i: int| #![trigger a.entries()[i]] 0 <= i < a.entries().len() && a.shows_at(
            i,
        ) implies keeps(a.entries()[i].item, a.entries()[i].item) by {
            lemma_keeps_itself(a.entries()[i].item);
        }
    } else {
        let m = (n - 1) as nat;
        lemma_merged_keeps(a, b, m);
        let key = b.keys()[m as int];
        let e = merged_to(a, b, m);
        let f = merged_to(a, b, n);
        let t = a.with_entries(e);
        let before = b.keys().take(m as int);
        let after = b.keys().take(n as int);
        assert(after =~= before.push(key));
        assert(!before.contains(key)) by {
            if before.contains(key) {
                let j = choose|j: int| 0 <= j < before.len() && before[j] == key;
                assert(b.keys()[j] == b.keys()[m as int]);
            }
        }
        assert forall|k: Seq<char>| before.contains(k) implies #[trigger] after.contains(k) by {
            let j = choose|j: int| 0 <= j < before.len() && before[j] == k;
            assert(after[j] == k);
        }
        assert(after.contains(key)) by {
            assert(after[m as int] == key);
        }
        lemma_found(e, key, 0);
        match b.get(key) {
            Some(v) => {
                lemma_shown_is_whole(b, key);
                lemma_found(b.entries(), key, 0);
                assert forall|i: int|
                    #![trigger a.entries()[i]]
                    0 <= i < a.entries().len() && a.shows_at(i) implies {
                    let x = f[i];
                    &&& x.key == a.entries()[i].key
                    &&& x.around == a.entries()[i].around
                    &&& keeps(a.entries()[i].item, x.item)
                    &&& a is Table ==> x.item !is Nothing
                    &&& !after.contains(x.key) ==> x.item == a.entries()[i].item
                } by {
                    let was = a.entries()[i].item;
                    assert(e[i].key == a.entries()[i].key);
                    assert(t.shows_at(i));
                    match t.find(key) {
                        Some(at) => {
                            if at == i {
                                assert(!before.contains(e[i].key));
                                assert(e[i].item == was);
                                if v.is_table() {
                                    if was.is_table() {
                                        law_merging_keeps_comments(was, v);
                                    }
                                    assert(f[i].item == merged(was, v));
                                }
                            } else {
                                assert(f[i] == e[i]);
                            }
                        },
                        None => {
                            if find_from(e, key, 0) == Some(i) {
                                assert(t.find(key) == Some(i));
                            }
                            assert(f == put(e, key, added(a, v)));
                            assert(f[i] == e[i]);
                        },
                    }
                }
            },
            None => {},
        }
    }
}

proof fn lemma_keeps_itself(a: Tree)
    ensures
        keeps(a, a),
    decreases a,
{
    if a.is_table() {
        assert forall|i: int| #![trigger a.entries()[i]] 0 <= i < a.entries().len() && a.shows_at(
            i,
        ) implies keeps(a.entries()[i].item, a.entries()[i].item) by {
            lemma_keeps_itself(a.entries()[i].item);
        }
    }
}

/// Merging leaves every key of a table in its place, with the comments around the key, around its
/// value and around its heading.
pub proof fn law_merging_keeps_comments(a: Tree, b: Tree)
    requires
        a.is_table(),
        b.is_table(),
        b.whole(),
    ensures
        keeps(a, merged(a, b)),
    decreases b, b.keys().len() + 1,
{
    lemma_merged_keeps(a, b, b.keys().len());
}

/// The root of a document once the first `n` keys of `b` were brought in.
proof fn lemma_updated_keeps(a: Tree, b: Tree, n: nat)
    requires
        a is Table,
        b is Table,
        b.whole(),
        forall|i: int|
            #![trigger a.entries()[i]]
            0 <= i < a.entries().len() ==> (b.get(a.entries()[i].key) matches Some(v)
                ==> v.is_table()),
        n <= b.keys().len(),
    ensures
        updated_to(a, b, n).len() >= a.entries().len(),
        forall|i: int|
            #![trigger a.entries()[i]]
            0 <= i < a.entries().len() && a.shows_at(i) ==> {
                let x = updated_to(a, b, n)[i];
                &&& x.key == a.entries()[i].key
                &&& x.around == a.entries()[i].around
                &&& keeps(a.entries()[i].item, x.item)
                &&& x.item !is Nothing
                &&& !b.keys().take(n as int).contains(x.key) ==> x.item == a.entries()[i].item
            },
    decreases n,
{
    if n == 0 {
        assert forall|i: int| #![trigger a.entries()[i]] 0 <= i < a.entries().len() && a.shows_at(
            i,
        ) implies keeps(a.entries()[i].item, a.entries()[i].item) by {
            lemma_keeps_itself(a.entries()[i].item);
        }
    } else {
        let m = (n - 1) as nat;
        lemma_updated_keeps(a, b, m);
        let key = b.keys()[m as int];
        let e = updated_to(a, b, m);
        let f = updated_to(a, b, n);
        let t = a.with_entries(e);
        let before = b.keys().take(m as int);
        let after = b.keys().take(n as int);
        assert(after =~= before.push(key));
        assert(!before.contains(key)) by {
            if before.contains(key) {
                let j = choose|j: int| 0 <= j < before.len() && before[j] == key;
                assert(b.keys()[j] == b.keys()[m as int]);
            }
        }
        assert forall|k: Seq<char>| before.contains(k) implies #[trigger] after.contains(k) by {
            let j = choose|j: int| 0 <= j < before.len() && before[j] == k;
            assert(after[j] == k);
        }
        assert(after.contains(key)) by {
            assert(after[m as int] == key);
        }
        lemma_found(e, key, 0);
        match b.get(key) {
            Some(v) => {
                lemma_shown_is_whole(b, key);
                assert forall|i: int|
                    #![trigger a.entries()[i]]
                    0 <= i < a.entries().len() && a.shows_at(i) implies {
                    let x = f[i];
                    &&& x.key == a.entries()[i].key
                    &&& x.around == a.entries()[i].around
                    &&& keeps(a.entries()[i].item, x.item)
                    &&& x.item !is Nothing
                    &&& !after.contains(x.key) ==> x.item == a.entries()[i].item
                } by {
                    let was = a.entries()[i].item;
                    assert(e[i].key == a.entries()[i].key);
                    assert(t.shows_at(i));
                    match t.find(key) {
                        Some(at) => {
                            if at == i {
                                assert(!before.contains(e[i].key));
                                assert(e[i].item == was);
                                if was.is_table() {
                                    law_merging_keeps_comments(was, v);
                                }
                            }
                        },
                        None => {
                            if find_from(e, key, 0) == Some(i) {
                                assert(t.find(key) == Some(i));
                            }
                        },
                    }
                }
            },
            None => {},
        }
    }
}

/// Saving leaves every section and every setting of the file in its place, with the comments around
/// the key, around its value and around its heading. What it brings under a key that the root of the
/// file has is a section: a setting outside any section is replaced with what is around it.
pub proof fn law_saving_keeps_comments(a: Tree, b: Tree)
    requires
        a is Table,
        b is Table,
        b.whole(),
        forall|i: int|
            #![trigger a.entries()[i]]
            0 <= i < a.entries().len() ==> (b.get(a.entries()[i].key) matches Some(v)
                ==> v.is_table()),
    ensures
        keeps(a, updated(a, b)),
{
    lemma_updated_keeps(a, b, b.keys().len());
}

/// A save leaves what is behind the last setting of the file behind the last setting, and the saved
/// text ends with it: with all of it, but for carriage returns.
pub proof fn law_saving_keeps_the_end_of_the_file(
    original: Seq<char>,
    want: Tree,
    text: Seq<char>,
)
    requires
        is_text_of(text, want, ended(original)),
    ensures
        exists|d: Document|
            d@ == want && d.tail() == ended(original) && #[trigger] d.print() == text,
        has_suffix(text, unreturned(ended(original))),
{
}

// What arrives.

proof fn lemma_says_itself(b: Tree)
    ensures
        says(b, b),
    decreases b,
{
    if b.is_table() {
        assert forall|key: Seq<char>| (#[trigger] b.get(key)) matches Some(v) implies says(
            b.get(key)->0,
            b.get(key)->0,
        ) by {
            lemma_says_itself(b.get(key)->0);
        }
    }
}

proof fn lemma_says_trans(x: Tree, y: Tree, z: Tree)
    requires
        says(x, y),
        says(y, z),
    ensures
        says(x, z),
    decreases z,
{
    if z.is_table() {
        assert forall|key: Seq<char>| (#[trigger] z.get(key)) is Some implies x.get(key) is Some
            && says(x.get(key)->0, z.get(key)->0) by {
            assert(y.get(key) is Some);
            lemma_says_trans(x.get(key)->0, y.get(key)->0, z.get(key)->0);
        }
    }
}

/// A table under headings of its own says what the table says.
proof fn lemma_expanded_says(t: Tree)
    requires
        t.whole(),
    ensures
        says(expanded(t), t),
        expanded(t) !is Nothing,
    decreases t, t.keys().len() + 1,
{
    if t.is_table() {
        let m = expanded(t);
        lemma_expanded_to_says(t, t.keys().len(), m.decor());
        assert forall|key: Seq<char>| (#[trigger] t.get(key)) is Some implies m.get(key) is Some
            && says(m.get(key)->0, t.get(key)->0) by {
            lemma_found(t.entries(), key, 0);
            let i = t.find(key)->0;
            let j = lemma_key_listed(t, i, t.entries().len() as int);
            assert(t.keys()[j] == key);
        }
    } else {
        lemma_says_itself(t);
    }
}

proof fn lemma_expanded_to_says(t: Tree, n: nat, d: Decor)
    requires
        t.is_table(),
        t.whole(),
        n <= t.keys().len(),
    ensures
        forall|j: int|
            #![trigger t.keys()[j]]
            0 <= j < n && t.get(t.keys()[j]) is Some ==> {
                let got = Tree::Table(expanded_to(t, n), d).get(t.keys()[j]);
                got is Some && says(got->0, t.get(t.keys()[j])->0)
            },
    decreases t, n,
{
    if n > 0 {
        let m = (n - 1) as nat;
        lemma_expanded_to_says(t, m, d);
        let key = t.keys()[m as int];
        let e = expanded_to(t, m);
        assert forall|j: int|
            #![trigger t.keys()[j]]
            0 <= j < n && t.get(t.keys()[j]) is Some implies {
            let got = Tree::Table(expanded_to(t, n), d).get(t.keys()[j]);
            got is Some && says(got->0, t.get(t.keys()[j])->0)
        } by {
            let k = t.keys()[j];
            let old_table = Tree::Table(e, d);
            lemma_shown_is_whole(t, k);
            lemma_shown_is_whole(t, key);
            if j < m {
                assert(t.keys()[j] != t.keys()[m as int]);
                assert(old_table.get(k) is Some);
            }
            if let Some(v) = t.get(key) {
                lemma_found(t.entries(), key, 0);
                let item = if v.is_table() {
                    expanded(v)
                } else if t is Inline && v.is_value() {
                    v.with_decor(plain())
                } else {
                    v
                };
                if v.is_table() {
                    lemma_expanded_says(v);
                }
                lemma_put_get(old_table, key, item, k);
                assert(expanded_to(t, n) == put(e, key, item));
                assert(old_table.with_entries(put(e, key, item)) == Tree::Table(
                    put(e, key, item),
                    d,
                ));
            }
        }
    }
}

proof fn lemma_valued_keys(t: Tree, n: nat)
    requires
        n <= t.entries().len(),
    ensures
        valued_entries(t, n).len() == n,
        forall|i: int|
            0 <= i < n ==> (#[trigger] valued_entries(t, n)[i]) == (if t.entries()[i].item is Nothing {
                t.entries()[i]
            } else {
                Entry {
                    key: t.entries()[i].key,
                    around: plain(),
                    item: valued(t.entries()[i].item).with_decor(plain()),
                }
            }),
    decreases n,
{
    if n > 0 {
        lemma_valued_keys(t, (n - 1) as nat);
    }
}

/// A table in braces says what the table says.
proof fn lemma_valued_says(t: Tree)
    ensures
        says(valued(t), t),
    decreases t,
{
    match t {
        Tree::Table(e, _) => {
            let m = valued(t);
            lemma_valued_keys(t, e.len());
            assert forall|key: Seq<char>| (#[trigger] t.get(key)) is Some implies m.get(key) is Some
                && says(m.get(key)->0, t.get(key)->0) by {
                lemma_found(e, key, 0);
                lemma_same_keys(e, m.entries(), key, 0);
                let i = t.find(key)->0;
                let v = e[i].item;
                lemma_valued_says(v);
                let x = valued(v).with_decor(plain());
                assert(m.get(key) == Some(x));
                assert(says(x, v)) by {
                    lemma_same_entries(valued(v), x);
                    lemma_says_alike(valued(v), x, v);
                }
            }
        },
        _ => {
            lemma_says_itself(t);
        },
    }
}

proof fn lemma_same_entries(t: Tree, x: Tree)
    requires
        x == t.with_decor(plain()),
    ensures
        x.kind() == t.kind(),
        x.entries() == t.entries(),
        t is Value ==> x->Value_0 == t->Value_0,
        forall|key: Seq<char>| #[trigger] x.get(key) == t.get(key),
{
}

/// What is around something does not change what it says.
proof fn lemma_says_alike(t: Tree, x: Tree, v: Tree)
    requires
        says(t, v),
        x.kind() == t.kind(),
        t is Value ==> x->Value_0 == t->Value_0,
        forall|key: Seq<char>| #[trigger] x.get(key) == t.get(key),
    ensures
        says(x, v),
{
    if v.is_table() {
        assert forall|key: Seq<char>| (#[trigger] v.get(key)) is Some implies x.get(key) is Some
            && says(x.get(key)->0, v.get(key)->0) by {
            assert(x.get(key) == t.get(key));
        }
    }
}

proof fn lemma_merged_says(a: Tree, b: Tree, n: nat)
    requires
        a.is_table(),
        b.is_table(),
        b.whole(),
        n <= b.keys().len(),
    ensures
        forall|j: int|
            #![trigger b.keys()[j]]
            0 <= j < n && b.get(b.keys()[j]) is Some ==> {
                let got = a.with_entries(merged_to(a, b, n)).get(b.keys()[j]);
                got is Some && says(got->0, b.get(b.keys()[j])->0)
            },
    decreases b, n,
{
    if n > 0 {
        let m = (n - 1) as nat;
        lemma_merged_says(a, b, m);
        let key = b.keys()[m as int];
        let e = merged_to(a, b, m);
        let t = a.with_entries(e);
        lemma_shown_is_whole(b, key);
        lemma_found(e, key, 0);
        if let Some(v) = b.get(key) {
            lemma_found(b.entries(), key, 0);
            let next = a.with_entries(merged_to(a, b, n));
            match t.find(key) {
                Some(i) => {
                    let slot = e[i].item;
                    let item = if v.is_table() {
                        merged(slot, v)
                    } else if slot.is_value() && v.is_value() {
                        v.with_decor(slot.decor())
                    } else {
                        v
                    };
                    if v.is_table() && slot.is_table() {
                        law_merging_brings_settings(slot, v);
                    } else {
                        lemma_says_itself(v);
                    }
                    assert(says(item, v));
                    assert forall|j: int|
                        #![trigger b.keys()[j]]
                        0 <= j < n && b.get(b.keys()[j]) is Some implies {
                        let got = next.get(b.keys()[j]);
                        got is Some && says(got->0, b.get(b.keys()[j])->0)
                    } by {
                        let k = b.keys()[j];
                        lemma_updated_get(t, i, item, k);
                        if j < m {
                            assert(b.keys()[j] != b.keys()[m as int]);
                            assert(t.get(k) is Some);
                        }
                    }
                },
                None => {
                    let item = added(a, v);
                    lemma_expanded_says(v);
                    lemma_valued_says(expanded(v));
                    if a is Inline {
                        lemma_says_trans(valued(expanded(v)), expanded(v), v);
                    }
                    assert forall|j: int|
                        #![trigger b.keys()[j]]
                        0 <= j < n && b.get(b.keys()[j]) is Some implies {
                        let got = next.get(b.keys()[j]);
                        got is Some && says(got->0, b.get(b.keys()[j])->0)
                    } by {
                        let k = b.keys()[j];
                        lemma_put_get(t, key, item, k);
                        if j < m {
                            assert(b.keys()[j] != b.keys()[m as int]);
                            assert(t.get(k) is Some);
                        }
                    }
                },
            }
        }
    }
}

/// Once `b` was merged in, everything that it says is there.
pub proof fn law_merging_brings_settings(a: Tree, b: Tree)
    requires
        a.is_table(),
        b.is_table(),
        b.whole(),
    ensures
        says(merged(a, b), b),
    decreases b, b.keys().len() + 1,
{
    let m = merged(a, b);
    lemma_merged_says(a, b, b.keys().len());
    assert forall|key: Seq<char>| (#[trigger] b.get(key)) is Some implies m.get(key) is Some && says(
        m.get(key)->0,
        b.get(key)->0,
    ) by {
        lemma_found(b.entries(), key, 0);
        let i = b.find(key)->0;
        let j = lemma_key_listed(b, i, b.entries().len() as int);
        assert(b.keys()[j] == key);
    }
}

proof fn lemma_updated_says(a: Tree, b: Tree, n: nat)
    requires
        a is Table,
        b is Table,
        b.whole(),
        n <= b.keys().len(),
    ensures
        forall|j: int|
            #![trigger b.keys()[j]]
            0 <= j < n && b.get(b.keys()[j]) is Some ==> {
                let got = a.with_entries(updated_to(a, b, n)).get(b.keys()[j]);
                got is Some && says(got->0, b.get(b.keys()[j])->0)
            },
    decreases n,
{
    if n > 0 {
        let m = (n - 1) as nat;
        lemma_updated_says(a, b, m);
        let key = b.keys()[m as int];
        let e = updated_to(a, b, m);
        let t = a.with_entries(e);
        lemma_shown_is_whole(b, key);
        lemma_found(e, key, 0);
        if let Some(v) = b.get(key) {
            let next = a.with_entries(updated_to(a, b, n));
            match t.find(key) {
                Some(i) => {
                    let slot = e[i].item;
                    let item = merged(slot, v);
                    if v.is_table() && slot.is_table() {
                        law_merging_brings_settings(slot, v);
                    } else {
                        lemma_says_itself(v);
                    }
                    assert forall|j: int|
                        #![trigger b.keys()[j]]
                        0 <= j < n && b.get(b.keys()[j]) is Some implies {
                        let got = next.get(b.keys()[j]);
                        got is Some && says(got->0, b.get(b.keys()[j])->0)
                    } by {
                        let k = b.keys()[j];
                        lemma_updated_get(t, i, item, k);
                        if j < m {
                            assert(b.keys()[j] != b.keys()[m as int]);
                            assert(t.get(k) is Some);
                        }
                    }
                },
                None => {
                    lemma_expanded_says(v);
                    assert forall|j: int|
                        #![trigger b.keys()[j]]
                        0 <= j < n && b.get(b.keys()[j]) is Some implies {
                        let got = next.get(b.keys()[j]);
                        got is Some && says(got->0, b.get(b.keys()[j])->0)
                    } by {
                        let k = b.keys()[j];
                        lemma_put_get(t, key, expanded(v), k);
                        if j < m {
                            assert(b.keys()[j] != b.keys()[m as int]);
                            assert(t.get(k) is Some);
                        }
                    }
                },
            }
        }
    }
}

/// Once new settings were saved, the document says all of them.
pub proof fn law_saving_brings_settings(a: Tree, b: Tree)
    requires
        a is Table,
        b is Table,
        b.whole(),
    ensures
        says(updated(a, b), b),
{
    let m = updated(a, b);
    lemma_updated_says(a, b, b.keys().len());
    assert forall|key: Seq<char>| (#[trigger] b.get(key)) is Some implies m.get(key) is Some && says(
        m.get(key)->0,
        b.get(key)->0,
    ) by {
        lemma_found(b.entries(), key, 0);
        let i = b.find(key)->0;
        let j = lemma_key_listed(b, i, b.entries().len() as int);
        assert(b.keys()[j] == key);
    }
}

// What is dropped.

proof fn lemma_retained(e: Seq<Entry>, names: Seq<Seq<char>>, key: Seq<char>)
    ensures
        ({
            let f = retained(e, names);
            match find_from(e, key, 0) {
                Some(i) => if names.contains(key) {
                    find_from(f, key, 0) matches Some(k) && f[k] == e[i]
                } else {
                    find_from(f, key, 0) is None
                },
                None => find_from(f, key, 0) is None,
            }
        }),
    decreases e.len(),
{
    reveal(Seq::filter);
    let keep = |x: Entry| names.contains(x.key);
    if e.len() > 0 {
        let rest = e.drop_last();
        let x = e.last();
        lemma_retained(rest, names, key);
        assert(e =~= rest.push(x));
        lemma_pushed(rest, x, key, 0);
        let g = retained(rest, names);
        lemma_pushed(g, x, key, 0);
        lemma_found(rest, key, 0);
        lemma_found(g, key, 0);
        assert(retained(e, names) == if keep(x) {
            g.push(x)
        } else {
            g
        });
    }
}

/// Dropping bindings leaves those that are still wanted as they are, takes the others out, and
/// touches no other section.
pub proof fn law_only_stale_bindings_go(t: Tree, names: Seq<Seq<char>>, key: Seq<char>)
    requires
        t is Table,
    ensures
        key != "buttons"@ ==> pruned(t, names).get(key) == t.get(key),
        t.get("buttons"@) matches Some(b) ==> b is Table ==> setting(
            pruned(t, names),
            "buttons"@,
            key,
        ) == (if names.contains(key) {
            setting(t, "buttons"@, key)
        } else {
            None
        }),
{
    lemma_found(t.entries(), "buttons"@, 0);
    if let Some(i) = t.find("buttons"@) {
        let b = t.entries()[i].item;
        if b is Table {
            let item = b.with_entries(retained(b.entries(), names));
            lemma_updated_get(t, i, item, key);
            lemma_updated_get(t, i, item, "buttons"@);
            lemma_retained(b.entries(), names, key);
            lemma_found(b.entries(), key, 0);
            lemma_found(item.entries(), key, 0);
        }
    }
}

proof fn lemma_trimmed(m: Tree, b: Tree, n: nat, key: Seq<char>)
    requires
        m.is_table(),
        b.is_table(),
        b.whole(),
        n <= b.keys().len(),
    ensures
        ({
            let t = m.with_entries(trimmed_to(m, b, n));
            match m.find(key) {
                Some(i) if b.keys().contains(key) => {
                    let was = m.entries()[i];
                    &&& t.find(key) matches Some(j) && {
                        &&& 0 <= j < t.entries().len()
                        &&& t.entries()[j].key == key
                        &&& t.entries()[j].around == was.around
                        &&& t.entries()[j].item == (match b.get(key) {
                            Some(v) if b.keys().take(n as int).contains(key) => trimmed(was.item, v),
                            _ => was.item,
                        })
                    }
                },
                _ => t.find(key) is None,
            }
        }),
    decreases n,
{
    let ks = b.keys();
    lemma_found(m.entries(), key, 0);
    if n == 0 {
        lemma_retained(m.entries(), ks, key);
        lemma_found(retained(m.entries(), ks), key, 0);
    } else {
        let k = ks[n - 1];
        let e = trimmed_to(m, b, (n - 1) as nat);
        let t = m.with_entries(e);
        let f = trimmed_to(m, b, n);
        let before = ks.take(n - 1);
        let after = ks.take(n as int);
        assert(after =~= before.push(k));
        lemma_trimmed(m, b, (n - 1) as nat, key);
        lemma_trimmed(m, b, (n - 1) as nat, k);
        lemma_found(e, key, 0);
        lemma_found(e, k, 0);
        assert(after[n - 1] == k);
        if before.contains(key) {
            let j = choose|j: int| 0 <= j < before.len() && before[j] == key;
            assert(after[j] == key);
            assert(ks[j] == key);
        }
        if before.contains(k) {
            let j = choose|j: int| 0 <= j < before.len() && before[j] == k;
            assert(ks[j] == ks[n - 1]);
        }
        if let (Some(v), Some(at)) = (b.get(k), t.find(k)) {
            lemma_same_keys(e, f, key, 0);
        }
    }
}

/// Nothing stands in `m` that does not in `b`, at any depth.
pub open spec fn only(m: Tree, b: Tree) -> bool
    decreases b,
{
    m.is_table() && b.is_table() ==> forall|key: Seq<char>|
        (#[trigger] m.get(key)) is Some ==> b.get(key) is Some && only(m.get(key)->0, b.get(key)->0)
}

proof fn lemma_key_of_whole(b: Tree, key: Seq<char>, n: int)
    requires
        b.whole(),
        0 <= n <= b.entries().len(),
        b.keys_to(n).contains(key),
    ensures
        exists|i: int| 0 <= i < n && (#[trigger] b.entries()[i]).key == key,
    decreases n,
{
    let j = choose|j: int| 0 <= j < b.keys_to(n).len() && b.keys_to(n)[j] == key;
    if n > 0 {
        assert(b.entries()[n - 1].item.whole());
        if j == b.keys_to(n).len() - 1 {
            assert(b.entries()[n - 1].key == key);
        } else {
            assert(b.keys_to(n - 1)[j] == key);
            lemma_key_of_whole(b, key, n - 1);
        }
    }
}

proof fn lemma_keys_are_shown(b: Tree, key: Seq<char>)
    requires
        b.whole(),
        b.is_table(),
    ensures
        b.keys().contains(key) == (b.get(key) is Some),
{
    lemma_found(b.entries(), key, 0);
    if b.keys().contains(key) {
        lemma_key_of_whole(b, key, b.entries().len() as int);
        let i = find_from(b.entries(), key, 0)->0;
        assert(b.entries()[i].item.whole());
    }
    if let Some(i) = b.find(key) {
        let j = lemma_key_listed(b, i, b.entries().len() as int);
        assert(b.keys()[j] == key);
    }
}

proof fn lemma_trimmed_get(m: Tree, b: Tree, key: Seq<char>)
    requires
        m.is_table(),
        b.is_table(),
        b.whole(),
    ensures
        trimmed(m, b).get(key) == (match (m.get(key), b.get(key)) {
            (Some(x), Some(v)) => Some(trimmed(x, v)),
            _ => None,
        }),
{
    lemma_keys_are_shown(b, key);
    lemma_trimmed(m, b, b.keys().len(), key);
    assert(b.keys().take(b.keys().len() as int) =~= b.keys());
}

/// Trimming leaves what is still wanted in the file, with the comments around its key, around its
/// value and around its heading.
pub proof fn law_trimming_keeps_comments(m: Tree, b: Tree, key: Seq<char>)
    requires
        m.is_table(),
        b.is_table(),
        b.whole(),
        m.get(key) is Some,
        b.get(key) is Some,
    ensures
        trimmed(m, b).decor() == m.decor(),
        ({
            let was = m.entries()[m.find(key)->0];
            let is = trimmed(m, b).entries()[trimmed(m, b).find(key)->0];
            &&& trimmed(m, b).find(key) is Some
            &&& is.key == key
            &&& is.around == was.around
            &&& is.item.decor() == was.item.decor()
        }),
{
    lemma_keys_are_shown(b, key);
    lemma_trimmed(m, b, b.keys().len(), key);
    assert(b.keys().take(b.keys().len() as int) =~= b.keys());
}

/// Trimming takes out all that is not wanted any more, and nothing else.
pub proof fn law_trimming_leaves_what_is_wanted(m: Tree, b: Tree)
    requires
        b.whole(),
    ensures
        only(trimmed(m, b), b),
        says(m, b) ==> says(trimmed(m, b), b),
    decreases b,
{
    let t = trimmed(m, b);
    if m.is_table() && b.is_table() {
        assert forall|key: Seq<char>| (#[trigger] t.get(key)) is Some implies b.get(key) is Some
            && only(t.get(key)->0, b.get(key)->0) by {
            lemma_trimmed_get(m, b, key);
            lemma_shown_is_whole(b, key);
            lemma_found(b.entries(), key, 0);
            law_trimming_leaves_what_is_wanted(m.get(key)->0, b.get(key)->0);
        }
        if says(m, b) {
            assert forall|key: Seq<char>| (#[trigger] b.get(key)) is Some implies t.get(key) is Some
                && says(t.get(key)->0, b.get(key)->0) by {
                lemma_trimmed_get(m, b, key);
                lemma_shown_is_whole(b, key);
                lemma_found(b.entries(), key, 0);
                assert(m.get(key) is Some && says(m.get(key)->0, b.get(key)->0));
                law_trimming_leaves_what_is_wanted(m.get(key)->0, b.get(key)->0);
            }
        }
    }
}

/// A saved device profile says all that the profile says, and has exactly its controls: none that
/// the profile does not have, and of each nothing that the profile does not say. Other sections are
/// as merging leaves them.
pub proof fn law_saved_profiles_have_their_controls(a: Tree, b: Tree, key: Seq<char>)
    requires
        a is Table,
        b is Table,
        b.whole(),
    ensures
        says(profiled(a, b), b),
        b.get("control"@) matches Some(v) ==> v.is_table() ==> {
            &&& profiled(a, b).get("control"@) matches Some(c) && c.is_table() && only(c, v)
            &&& (setting(profiled(a, b), "control"@, key) is Some) == (setting(
                b,
                "control"@,
                key,
            ) is Some)
        },
        key != "control"@ ==> profiled(a, b).get(key) == updated(a, b).get(key),
{
    let m = updated(a, b);
    let p = profiled(a, b);
    law_saving_brings_settings(a, b);
    lemma_found(m.entries(), "control"@, 0);
    if let (Some(i), Some(v)) = (m.find("control"@), b.get("control"@)) {
        let x = m.entries()[i].item;
        lemma_shown_is_whole(b, "control"@);
        lemma_updated_get(m, i, trimmed(x, v), key);
        lemma_updated_get(m, i, trimmed(x, v), "control"@);
        assert(m.get("control"@) == Some(x));
        assert(says(x, v));
        law_trimming_leaves_what_is_wanted(x, v);
        assert forall|k: Seq<char>| (#[trigger] b.get(k)) is Some implies p.get(k) is Some && says(
            p.get(k)->0,
            b.get(k)->0,
        ) by {
            assert(m.get(k) is Some && says(m.get(k)->0, b.get(k)->0));
            lemma_updated_get(m, i, trimmed(x, v), k);
        }
        if v.is_table() {
            let c = trimmed(x, v);
            assert(c.get(key) is Some ==> v.get(key) is Some);
            assert(v.get(key) is Some ==> c.get(key) is Some);
        }
    }
}

// What reads back.

/// A setting that was written reads back, and every other setting reads as before.
pub proof fn law_settings_read_back(
    t: Tree,
    section: Seq<char>,
    key: Seq<char>,
    v: Tree,
    other: Seq<char>,
    name: Seq<char>,
)
    requires
        t is Table,
        t.get(section) matches Some(s) && s.is_table(),
        v !is Nothing,
    ensures
        setting(with_setting(t, section, key, v), section, key) == Some(v),
        (other, name) != (section, key) ==> setting(
            with_setting(t, section, key, v),
            other,
            name,
        ) == setting(t, other, name),
{
    lemma_found(t.entries(), section, 0);
    let i = t.find(section)->0;
    let s = t.entries()[i].item;
    let item = s.with_entries(assigned(s.entries(), key, v));
    lemma_updated_get(t, i, item, section);
    lemma_updated_get(t, i, item, other);
    lemma_put_get(s, key, v, key);
    lemma_put_get(s, key, v, name);
}

/// A binding that was written reads back, field by field, whatever form it was written in.
pub proof fn law_bindings_read_back(send: Seq<char>, mode: Seq<char>, led: Seq<char>)
    ensures
        part_of(Some(written(send, mode, led)), Part::Send) == send,
        part_of(Some(written(send, mode, led)), Part::Mode) == mode,
        part_of(Some(written(send, mode, led)), Part::Led) == led,
{
    reveal_strlit("send");
    reveal_strlit("mode");
    reveal_strlit("led");
    assert("send"@ != "mode"@) by {
        assert("send"@[0] != "mode"@[0]);
    }
    assert("send"@.len() != "led"@.len());
    assert("mode"@.len() != "led"@.len());
    let zero = Tree::Inline(Seq::empty(), plain());
    let one = zero.with_entries(put(zero.entries(), "send"@, text_tree(send)));
    let two = if mode == "momentary"@ {
        one
    } else {
        one.with_entries(put(one.entries(), "mode"@, text_tree(mode)))
    };
    let names = seq!["send"@, "mode"@, "led"@];
    assert forall|k: int| 0 <= k < 3 implies {
        let key = #[trigger] names[k];
        &&& one.get(key) == (if key == "send"@ {
            Some(text_tree(send))
        } else {
            None
        })
        &&& key != "mode"@ || mode == "momentary"@ ==> two.get(key) == one.get(key)
        &&& key == "mode"@ && mode != "momentary"@ ==> two.get(key) == Some(text_tree(mode))
    } by {
        lemma_put_get(zero, "send"@, text_tree(send), names[k]);
        lemma_put_get(one, "mode"@, text_tree(mode), names[k]);
    }
    assert(names[0] == "send"@ && names[1] == "mode"@ && names[2] == "led"@);
    lemma_put_get(two, "led"@, text_tree(led), "send"@);
    lemma_put_get(two, "led"@, text_tree(led), "mode"@);
    lemma_put_get(two, "led"@, text_tree(led), "led"@);
}

/// A number that was written into a list reads back, every other number of the list stays, and every
/// other setting reads as before.
pub proof fn law_elements_read_back(
    t: Tree,
    section: Seq<char>,
    key: Seq<char>,
    at: int,
    n: i64,
    place: int,
    name: Seq<char>,
)
    requires
        t is Table,
        t.get(section) matches Some(s) && s.is_table(),
        setting(t, section, key) matches Some(v) && 0 <= at < v.elements().len(),
    ensures
        ({
            let was = setting(t, section, key)->0;
            let now = setting(with_element(t, section, key, at, n), section, key)->0;
            &&& setting(with_element(t, section, key, at, n), section, key) is Some
            &&& now.elements().len() == was.elements().len()
            &&& now.elements()[at].integer() == Some(n)
            &&& place != at ==> now.element(place) == was.element(place)
        }),
        name != key ==> setting(with_element(t, section, key, at, n), section, name) == setting(
            t,
            section,
            name,
        ),
{
    lemma_found(t.entries(), section, 0);
    let i = t.find(section)->0;
    let s = t.entries()[i].item;
    lemma_found(s.entries(), key, 0);
    let j = s.find(key)->0;
    let v = s.entries()[j].item;
    let x = Tree::Value(
        Data::Array(v.elements().update(at, Tree::Value(Data::Integer(n), plain()))),
        v.decor(),
    );
    let inner = s.with_entries(s.entries().update(j, Entry { item: x, ..s.entries()[j] }));
    lemma_updated_get(s, j, x, key);
    lemma_updated_get(s, j, x, name);
    lemma_updated_get(t, i, inner, section);
}

/// The numbers of a list are read in order.
pub proof fn law_numbers_are_read_in_order(t: Tree, n: int)
    requires
        0 <= n <= t.elements().len(),
        forall|k: int| 0 <= k < n ==> (#[trigger] t.elements()[k]).integer() is Some,
    ensures
        integers_to(t, n).len() == n,
        forall|k: int|
            0 <= k < n ==> t.elements()[k].integer() == Some(#[trigger] integers_to(t, n)[k]),
    decreases n,
{
    if n > 0 {
        law_numbers_are_read_in_order(t, n - 1);
        assert(t.elements()[n - 1].integer() is Some);
    }
}

/// A binding that has nothing but the defaults is written as a bare text, and any other as what it
/// sends and what is not the default, each under its name.
pub proof fn law_a_binding_is_written_short_where_it_can_be(
    send: Seq<char>,
    mode: Seq<char>,
    led: Seq<char>,
)
    ensures
        written(send, "momentary"@, "follow"@).text() == Some(send),
        mode != "momentary"@ || led != "follow"@ ==> {
            let t = written(send, mode, led);
            &&& t is Inline
            &&& t.get("send"@) matches Some(f) && f.text() == Some(send)
            &&& mode == "momentary"@ ==> t.get("mode"@) is None
            &&& mode != "momentary"@ ==> (t.get("mode"@) matches Some(f) && f.text() == Some(mode))
            &&& led == "follow"@ ==> t.get("led"@) is None
            &&& led != "follow"@ ==> (t.get("led"@) matches Some(f) && f.text() == Some(led))
        },
{
    reveal_strlit("send");
    reveal_strlit("mode");
    reveal_strlit("led");
    assert("send"@[0] != "mode"@[0]);
    assert("send"@.len() == 4 && "mode"@.len() == 4 && "led"@.len() == 3);
    let zero = Tree::Inline(Seq::empty(), plain());
    let one = zero.with_entries(put(zero.entries(), "send"@, text_tree(send)));
    let two = if mode == "momentary"@ {
        one
    } else {
        one.with_entries(put(one.entries(), "mode"@, text_tree(mode)))
    };
    assert(zero.get("send"@) is None && zero.get("mode"@) is None && zero.get("led"@) is None);
    lemma_put_get(zero, "send"@, text_tree(send), "send"@);
    lemma_put_get(zero, "send"@, text_tree(send), "mode"@);
    lemma_put_get(zero, "send"@, text_tree(send), "led"@);
    lemma_put_get(one, "mode"@, text_tree(mode), "send"@);
    lemma_put_get(one, "mode"@, text_tree(mode), "mode"@);
    lemma_put_get(one, "mode"@, text_tree(mode), "led"@);
    lemma_put_get(two, "led"@, text_tree(led), "send"@);
    lemma_put_get(two, "led"@, text_tree(led), "mode"@);
    lemma_put_get(two, "led"@, text_tree(led), "led"@);
}

/// A binding in the short form, or a table that leaves a field out, means the defaults.
pub proof fn law_what_is_left_out_means_the_defaults(send: Seq<char>, t: Tree)
    ensures
        part_of(Some(text_tree(send)), Part::Send) == send,
        part_of(Some(text_tree(send)), Part::Mode) == "momentary"@,
        part_of(Some(text_tree(send)), Part::Led) == "follow"@,
        t is Inline && t.get("send"@) is None ==> part_of(Some(t), Part::Send) == "none"@,
        t is Inline && t.get("mode"@) is None ==> part_of(Some(t), Part::Mode) == "momentary"@,
        t is Inline && t.get("led"@) is None ==> part_of(Some(t), Part::Led) == "follow"@,
{
}

proof fn lemma_removed_get(e: Seq<Entry>, at: int, key: Seq<char>, i: int)
    requires
        0 <= at < e.len(),
        0 <= i <= e.len(),
        e[at].key != key,
    ensures
        ({
            let f = e.remove(at);
            let j = if i <= at {
                i
            } else {
                i - 1
            };
            match find_from(e, key, i) {
                Some(k) => find_from(f, key, j) == Some(
                    if k < at {
                        k
                    } else {
                        k - 1
                    },
                ),
                None => find_from(f, key, j) is None,
            }
        }),
    decreases e.len() - i,
{
    let f = e.remove(at);
    if i < e.len() {
        lemma_removed_get(e, at, key, i + 1);
        if i < at {
            assert(f[i] == e[i]);
        } else if i > at {
            assert(f[i - 1] == e[i]);
        }
    }
}

/// A binding that is taken out is gone, and every other one reads as before.
pub proof fn law_a_binding_taken_out_is_gone(t: Tree, name: Seq<char>, other: Seq<char>)
    requires
        t is Table,
        t.get("buttons"@) matches Some(b) && b is Table && forall|i: int, j: int|
            0 <= i < j < b.entries().len() ==> (#[trigger] b.entries()[i]).key
                != (#[trigger] b.entries()[j]).key,
    ensures
        setting(without_binding(t, name), "buttons"@, name) is None,
        other != name ==> setting(without_binding(t, name), "buttons"@, other) == setting(
            t,
            "buttons"@,
            other,
        ),
{
    lemma_found(t.entries(), "buttons"@, 0);
    let i = t.find("buttons"@)->0;
    let b = t.entries()[i].item;
    let e = b.entries();
    lemma_found(e, name, 0);
    lemma_found(e, other, 0);
    let left = match find_from(e, name, 0) {
        Some(at) => e.remove(at),
        None => e,
    };
    lemma_updated_get(t, i, b.with_entries(left), "buttons"@);
    lemma_found(left, name, 0);
    if let Some(at) = find_from(e, name, 0) {
        if let Some(k) = find_from(left, name, 0) {
            let o = if k < at {
                k
            } else {
                k + 1
            };
            assert(left[k] == e[o]);
            assert(e[at].key == name && e[o].key == name);
            if o < at {
                assert(e[o].key != e[at].key);
            } else {
                assert(e[at].key != e[o].key);
            }
        }
        if other != name {
            lemma_removed_get(e, at, other, 0);
        }
    }
}

/// A document without a section for bindings gets an empty one, and one that has it is left alone.
pub proof fn law_bindings_get_a_section(t: Tree, section: Seq<char>, key: Seq<char>)
    requires
        t is Table,
    ensures
        with_buttons(t).get("buttons"@) is Some,
        t.get("buttons"@) is Some ==> with_buttons(t) == t,
        section != "buttons"@ ==> setting(with_buttons(t), section, key) == setting(t, section, key),
{
    let b = Tree::Table(Seq::empty(), plain());
    lemma_put_get(t, "buttons"@, b, "buttons"@);
    lemma_put_get(t, "buttons"@, b, section);
}

} // verus!
