//! Editing a settings file without losing what its author wrote around the settings.
//!
//! The file is mostly comments explaining what the fields do, so a changed setting is written into
//! the document in place, and only the values change.
use crate::config::Binding;
use crate::namemap::{keys, NameMap};
use crate::text::{among, has_suffix, quotable, same, views};
use crate::tree::{
    assign_in, assigned, child_of, child_of_mut, element_of, empty_table, ended, ending, find_from,
    insert_into, integer_item, integer_of, keys_of, kind_of, new_inline, new_table, parse_document,
    parsed, plain, print_document, printed, put, remove_from, replace_value, retain_in, retained,
    root, root_of, root_of_mut, set_element, spaced, text_item, text_of, tree, undecorated,
    unreturned, valued, valued_elements, valued_entries, Data, Decor, Entry, Kind, Tree,
};
use vstd::prelude::*;

verus! {

// Tables under headings of their own.

/// A table with every table in it under a heading of its own. Arrays are left alone.
pub open spec fn expanded(t: Tree) -> Tree
    decreases t, t.keys().len() + 1,
{
    if t.is_table() {
        Tree::Table(
            expanded_to(t, t.keys().len()),
            if t is Table {
                t.decor()
            } else {
                plain()
            },
        )
    } else {
        t
    }
}

/// The entries for the first `n` keys. What comes out of braces loses the spacing that it had there.
pub open spec fn expanded_to(t: Tree, n: nat) -> Seq<Entry>
    decreases t, n,
{
    if n == 0 || n > t.keys().len() {
        Seq::empty()
    } else {
        let key = t.keys()[n - 1];
        let rest = expanded_to(t, (n - 1) as nat);
        match t.get(key) {
            Some(v) => if v is Nothing {
                rest
            } else if v.is_table() {
                put(rest, key, expanded(v))
            } else if t is Inline && v.is_value() {
                put(rest, key, v.with_decor(plain()))
            } else {
                put(rest, key, v)
            },
            None => rest,
        }
    }
}

/// Rewrite inline tables as full `[section]` tables, recursively.
///
/// A section the file did not already have arrives as one very long line. That is valid and
/// unreadable, and an inline table cannot carry a comment of its own, which matters here, because
/// these files are meant to be edited by hand.
///
/// Arrays are left alone: `ccs = [16, 17, ...]` belongs on one line.
pub fn expand_inline_tables(item: &toml_edit::Item) -> (r: toml_edit::Item)
    ensures
        tree(r) == expanded(tree(*item)),
    decreases tree(*item),
{
    let kind = kind_of(item);
    if kind != Kind::Inline && kind != Kind::Table {
        return item.clone();
    }
    let mut out = empty_table(item);
    let keys = keys_of(item);
    let ghost t = tree(*item);
    let mut n: usize = 0;
    while n < keys.len()
        invariant
            n <= keys@.len(),
            t == tree(*item),
            t.is_table(),
            kind == t.kind(),
            views(keys@) == t.keys(),
            tree(out) == Tree::Table(
                expanded_to(t, n as nat),
                if t is Table {
                    t.decor()
                } else {
                    plain()
                },
            ),
        decreases keys@.len() - n,
    {
        let key = &keys[n];
        assert(views(keys@)[n as int] == key@);
        if let Some(v) = child_of(item, key.as_str()) {
            match kind_of(v) {
                Kind::Nothing => {},
                Kind::Inline | Kind::Table => {
                    let x = expand_inline_tables(v);
                    insert_into(&mut out, key.as_str(), x);
                },
                Kind::Value => {
                    let x = if kind == Kind::Inline {
                        undecorated(v)
                    } else {
                        v.clone()
                    };
                    insert_into(&mut out, key.as_str(), x);
                },
                Kind::Tables => {
                    insert_into(&mut out, key.as_str(), v.clone());
                },
            }
        }
        n += 1;
    }
    out
}

// Merging.

/// A table with the values of `b` brought into it, key by key: replacing a table would replace its
/// comments with none. Where one of the two is no table, `b` itself.
pub open spec fn merged(a: Tree, b: Tree) -> Tree
    decreases b, b.keys().len() + 1,
{
    if a.is_table() && b.is_table() {
        a.with_entries(merged_to(a, b, b.keys().len()))
    } else {
        b
    }
}

/// The entries of `a` with the first `n` keys of `b` brought in. A value takes the place of a value
/// with the comments around it.
pub open spec fn merged_to(a: Tree, b: Tree, n: nat) -> Seq<Entry>
    decreases b, n,
{
    if n == 0 || n > b.keys().len() {
        a.entries()
    } else {
        let key = b.keys()[n - 1];
        let e = merged_to(a, b, (n - 1) as nat);
        match b.get(key) {
            Some(v) => match a.with_entries(e).find(key) {
                Some(i) => {
                    let slot = e[i].item;
                    let item = if v.is_table() {
                        merged(slot, v)
                    } else if slot.is_value() && v.is_value() {
                        v.with_decor(slot.decor())
                    } else {
                        v
                    };
                    e.update(i, Entry { item, ..e[i] })
                },
                None => put(e, key, added(a, v)),
            },
            None => e,
        }
    }
}

/// What a new key of `a` gets: a table under a heading of its own, unless `a` is in braces.
pub open spec fn added(a: Tree, v: Tree) -> Tree {
    if a is Inline {
        valued(expanded(v))
    } else {
        expanded(v)
    }
}

/// What a table holds once `v` was brought in under `key`.
pub open spec fn brought(t: Tree, key: Seq<char>, v: Tree) -> Seq<Entry> {
    let e = t.entries();
    match t.find(key) {
        Some(i) => {
            let slot = e[i].item;
            let item = if v.is_table() {
                merged(slot, v)
            } else if slot.is_value() && v.is_value() {
                v.with_decor(slot.decor())
            } else {
                v
            };
            e.update(i, Entry { item, ..e[i] })
        },
        None => put(e, key, added(t, v)),
    }
}

fn bring(existing: &mut toml_edit::Item, key: &str, v: &toml_edit::Item)
    requires
        tree(*old(existing)).is_table(),
        tree(*v).whole(),
    ensures
        tree(*final(existing)) == tree(*old(existing)).with_entries(
            brought(tree(*old(existing)), key@, tree(*v)),
        ),
    decreases tree(*v), 1nat,
{
    let from = kind_of(v);
    match child_of_mut(existing, key) {
        Some(slot) => {
            if from == Kind::Inline || from == Kind::Table {
                merge_preserving(slot, v);
            } else {
                let to = kind_of(slot);
                if from == Kind::Value && (to == Kind::Value || to == Kind::Inline) {
                    replace_value(slot, v);
                } else {
                    *slot = v.clone();
                }
            }
        },
        None => {
            let x = expand_inline_tables(v);
            insert_into(existing, key, x);
        },
    }
}

/// Copy the values of `fresh` into `existing`, leaving its formatting alone.
///
/// Recursing rather than assigning wholesale is the point: replacing a table would replace its
/// comments with none.
pub fn merge_preserving(existing: &mut toml_edit::Item, fresh: &toml_edit::Item)
    requires
        tree(*fresh).whole(),
    ensures
        tree(*final(existing)) == merged(tree(*old(existing)), tree(*fresh)),
    decreases tree(*fresh), 0nat,
{
    let ghost a = tree(*existing);
    let ghost b = tree(*fresh);
    let to = kind_of(existing);
    let from = kind_of(fresh);
    if (to != Kind::Inline && to != Kind::Table) || (from != Kind::Inline && from != Kind::Table) {
        *existing = fresh.clone();
        return;
    }
    let keys = keys_of(fresh);
    let mut n: usize = 0;
    assert(a.with_entries(merged_to(a, b, 0)) == a);
    while n < keys.len()
        invariant
            n <= keys@.len(),
            b == tree(*fresh),
            a.is_table(),
            b.is_table(),
            b.whole(),
            views(keys@) == b.keys(),
            tree(*existing) == a.with_entries(merged_to(a, b, n as nat)),
        decreases keys@.len() - n,
    {
        let key = &keys[n];
        assert(views(keys@)[n as int] == key@);
        if let Some(v) = child_of(fresh, key.as_str()) {
            assert(tree(*v).whole());
            bring(existing, key.as_str(), v);
        }
        n += 1;
    }
}

// Trimming.

/// A table without what `b` does not have, at every depth. Where one of the two is no table, as it
/// is.
pub open spec fn trimmed(m: Tree, b: Tree) -> Tree
    decreases b, b.keys().len() + 1,
{
    if m.is_table() && b.is_table() {
        m.with_entries(trimmed_to(m, b, b.keys().len()))
    } else {
        m
    }
}

/// The entries of `m` under keys that `b` has, those under the first `n` of these keys trimmed.
pub open spec fn trimmed_to(m: Tree, b: Tree, n: nat) -> Seq<Entry>
    decreases b, n,
{
    if n == 0 || n > b.keys().len() {
        retained(m.entries(), b.keys())
    } else {
        let key = b.keys()[n - 1];
        let e = trimmed_to(m, b, (n - 1) as nat);
        match (b.get(key), m.with_entries(e).find(key)) {
            (Some(v), Some(i)) => e.update(i, Entry { item: trimmed(e[i].item, v), ..e[i] }),
            _ => e,
        }
    }
}

proof fn lemma_inline_keys(t: Tree, n: int)
    requires
        t is Inline,
        0 <= n <= t.entries().len(),
    ensures
        t.keys_to(n).len() == n,
        forall|i: int| 0 <= i < n ==> #[trigger] t.keys_to(n)[i] == t.entries()[i].key,
    decreases n,
{
    if n > 0 {
        lemma_inline_keys(t, n - 1);
    }
}

proof fn lemma_retained_next(e: Seq<Entry>, names: Seq<Seq<char>>, n: int)
    requires
        0 <= n < e.len(),
    ensures
        retained(e.take(n + 1), names) == if names.contains(e[n].key) {
            retained(e.take(n), names).push(e[n])
        } else {
            retained(e.take(n), names)
        },
{
    reveal(Seq::filter);
    assert(e.take(n + 1).drop_last() =~= e.take(n));
    assert(e.take(n + 1).last() == e[n]);
}

proof fn lemma_found_behind(a: Seq<Entry>, b: Seq<Entry>, key: Seq<char>, i: int)
    requires
        0 <= i <= a.len(),
        forall|k: int| 0 <= k < a.len() ==> (#[trigger] a[k]).key != key,
        b.len() > 0,
        b[0].key == key,
    ensures
        find_from(a + b, key, i) == Some(a.len() as int),
    decreases a.len() - i,
{
    if i < a.len() {
        assert((a + b)[i] == a[i]);
        lemma_found_behind(a, b, key, i + 1);
    } else {
        assert((a + b)[i] == b[0]);
    }
}

/// Takes out of a table what is under keys other than these.
fn retain_keys(existing: &mut toml_edit::Item, names: &Vec<String>)
    requires
        tree(*old(existing)).is_table(),
    ensures
        tree(*final(existing)) == tree(*old(existing)).with_entries(
            retained(tree(*old(existing)).entries(), views(names@)),
        ),
{
    if kind_of(existing) == Kind::Table {
        retain_in(existing, names);
        return;
    }
    let ghost t = tree(*existing);
    let ghost e = t.entries();
    let ghost ks = views(names@);
    let all = keys_of(existing);
    proof {
        lemma_inline_keys(t, e.len() as int);
        reveal(Seq::filter);
        assert(e.take(0) =~= Seq::empty());
        assert(retained(e.take(0), ks) + e.skip(0) =~= e);
    }
    let mut n: usize = 0;
    while n < all.len()
        invariant
            t is Inline,
            e == t.entries(),
            ks == views(names@),
            n <= all@.len() == e.len(),
            forall|i: int| 0 <= i < e.len() ==> #[trigger] views(all@)[i] == e[i].key,
            tree(*existing) == t.with_entries(retained(e.take(n as int), ks) + e.skip(n as int)),
        decreases all@.len() - n,
    {
        let ghost a = retained(e.take(n as int), ks);
        let ghost b = e.skip(n as int);
        proof {
            assert(views(all@)[n as int] == e[n as int].key);
            lemma_retained_next(e, ks, n as int);
        }
        if !among(names, all[n].as_str()) {
            proof {
                e.take(n as int).filter_lemma(|x: Entry| ks.contains(x.key));
                assert forall|k: int| 0 <= k < a.len() implies (#[trigger] a[k]).key
                    != all@[n as int]@ by {
                    assert(ks.contains(a[k].key));
                }
                lemma_found_behind(a, b, all@[n as int]@, 0);
                assert((a + b).remove(a.len() as int) =~= a + e.skip(n as int + 1));
            }
            remove_from(existing, all[n].as_str());
        } else {
            assert(a + b =~= a.push(e[n as int]) + e.skip(n as int + 1));
        }
        n += 1;
    }
    proof {
        assert(e.take(e.len() as int) =~= e);
        assert(retained(e, ks) + e.skip(e.len() as int) =~= retained(e, ks));
    }
}

/// Take out of `existing` what `fresh` does not have.
fn trim_to(existing: &mut toml_edit::Item, fresh: &toml_edit::Item)
    requires
        tree(*fresh).whole(),
    ensures
        tree(*final(existing)) == trimmed(tree(*old(existing)), tree(*fresh)),
    decreases tree(*fresh),
{
    let ghost m = tree(*existing);
    let ghost b = tree(*fresh);
    let to = kind_of(existing);
    let from = kind_of(fresh);
    if (to != Kind::Inline && to != Kind::Table) || (from != Kind::Inline && from != Kind::Table) {
        return;
    }
    let keys = keys_of(fresh);
    retain_keys(existing, &keys);
    let mut n: usize = 0;
    while n < keys.len()
        invariant
            n <= keys@.len(),
            b == tree(*fresh),
            m.is_table(),
            b.is_table(),
            b.whole(),
            views(keys@) == b.keys(),
            tree(*existing) == m.with_entries(trimmed_to(m, b, n as nat)),
        decreases keys@.len() - n,
    {
        let key = &keys[n];
        assert(views(keys@)[n as int] == key@);
        if let Some(v) = child_of(fresh, key.as_str()) {
            assert(tree(*v).whole());
            if let Some(slot) = child_of_mut(existing, key.as_str()) {
                trim_to(slot, v);
            }
        }
        n += 1;
    }
}

// Printing.

/// Where a search for a key ends.
pub proof fn lemma_found(e: Seq<Entry>, key: Seq<char>, i: int)
    requires
        0 <= i,
    ensures
        find_from(e, key, i) matches Some(k) ==> i <= k < e.len() && e[k].key == key,
        find_from(e, key, i) is None ==> forall|k: int| i <= k < e.len() ==> (#[trigger] e[k]).key
            != key,
    decreases e.len() - i,
{
    if i < e.len() && e[i].key != key {
        lemma_found(e, key, i + 1);
    }
}

/// Every key under which something shows is among the keys.
pub proof fn lemma_key_listed(t: Tree, i: int, n: int) -> (j: int)
    requires
        0 <= i < n <= t.entries().len(),
        t.shows_at(i),
    ensures
        0 <= j < t.keys_to(n).len(),
        t.keys_to(n)[j] == t.entries()[i].key,
    decreases n,
{
    if i == n - 1 {
        t.keys_to(n).len() - 1
    } else {
        lemma_key_listed(t, i, n - 1)
    }
}

/// Whether every text in these entries can be written.
pub open spec fn all_printable(e: Seq<Entry>) -> bool {
    forall|i: int| #![trigger e[i]] 0 <= i < e.len() ==> e[i].item.printable()
}

proof fn lemma_printable_entries(t: Tree, e: Seq<Entry>)
    requires
        t.printable(),
        all_printable(e),
    ensures
        t.with_entries(e).printable(),
{
    if t.is_table() {
        assert(t.with_entries(e).entries() == e);
        assert(t.with_entries(e).elements() == Seq::<Tree>::empty());
    }
}

proof fn lemma_printable_decor(t: Tree, d: Decor)
    requires
        t.printable(),
    ensures
        t.with_decor(d).printable(),
{
    let x = t.with_decor(d);
    assert(x.entries() == t.entries());
    assert(x.elements() == t.elements());
}

proof fn lemma_printable_slot(t: Tree, i: int, item: Tree)
    requires
        t.printable(),
        item.printable(),
        0 <= i < t.entries().len(),
    ensures
        t.with_entries(t.entries().update(i, Entry { item, ..t.entries()[i] })).printable(),
{
    lemma_printable_entries(t, t.entries().update(i, Entry { item, ..t.entries()[i] }));
}

proof fn lemma_printable_get(t: Tree, key: Seq<char>)
    requires
        t.printable(),
    ensures
        t.get(key) matches Some(v) ==> v.printable(),
        t.find(key) matches Some(i) ==> 0 <= i < t.entries().len()
            && t.entries()[i].item.printable(),
{
}

proof fn lemma_printable_put(e: Seq<Entry>, key: Seq<char>, item: Tree)
    requires
        all_printable(e),
        item.printable(),
    ensures
        all_printable(put(e, key, item)),
        all_printable(assigned(e, key, item)),
{
    lemma_found(e, key, 0);
}

proof fn lemma_printable_retained(e: Seq<Entry>, names: Seq<Seq<char>>)
    requires
        all_printable(e),
    ensures
        all_printable(retained(e, names)),
    decreases e.len(),
{
    reveal(Seq::filter);
    if e.len() > 0 {
        let rest = e.drop_last();
        assert(all_printable(rest)) by {
            assert forall|i: int|
                #![trigger rest[i]]
                0 <= i < rest.len() implies rest[i].item.printable() by {
                assert(rest[i] == e[i]);
            }
        }
        lemma_printable_retained(rest, names);
        assert(e.last() == e[e.len() - 1]);
    }
}

proof fn lemma_printable_valued(t: Tree)
    requires
        t.printable(),
    ensures
        valued(t).printable(),
    decreases t, t.entries().len() + t.elements().len() + 1,
{
    match t {
        Tree::Table(e, _) => {
            lemma_printable_valued_entries(t, e.len());
            assert(valued(t).entries() == valued_entries(t, e.len()));
        },
        Tree::Tables(s) => {
            lemma_printable_valued_elements(t, s.len());
            assert(valued(t).elements() == valued_elements(t, s.len()));
        },
        _ => {},
    }
}

proof fn lemma_printable_valued_entries(t: Tree, n: nat)
    requires
        t.printable(),
        n <= t.entries().len(),
    ensures
        all_printable(valued_entries(t, n)),
    decreases t, n,
{
    if n > 0 {
        lemma_printable_valued_entries(t, (n - 1) as nat);
        let v = t.entries()[n - 1].item;
        assert(v.printable());
        lemma_printable_valued(v);
        lemma_printable_decor(valued(v), plain());
    }
}

proof fn lemma_printable_valued_elements(t: Tree, n: nat)
    requires
        t.printable(),
        n <= t.elements().len(),
    ensures
        forall|i: int|
            0 <= i < valued_elements(t, n).len() ==> (#[trigger] valued_elements(
                t,
                n,
            )[i]).printable(),
    decreases t, n,
{
    if n > 0 {
        lemma_printable_valued_elements(t, (n - 1) as nat);
        let v = t.elements()[n - 1];
        assert(v.printable());
        lemma_printable_valued(v);
        lemma_printable_decor(valued(v), spaced(true));
        lemma_printable_decor(valued(v), spaced(false));
        let rest = valued_elements(t, (n - 1) as nat);
        let all = valued_elements(t, n);
        let first = forall|i: int| 0 <= i < rest.len() ==> #[trigger] rest[i] is Nothing;
        assert(all == rest.push(valued(v).with_decor(spaced(first))));
        assert forall|i: int| 0 <= i < all.len() implies (#[trigger] all[i]).printable() by {
            if i < rest.len() {
                assert(all[i] == rest[i]);
            }
        }
    }
}

proof fn lemma_printable_expanded(t: Tree)
    requires
        t.printable(),
    ensures
        expanded(t).printable(),
    decreases t, t.keys().len() + 1,
{
    if t.is_table() {
        lemma_printable_expanded_to(t, t.keys().len());
        assert(expanded(t).entries() == expanded_to(t, t.keys().len()));
    }
}

proof fn lemma_printable_expanded_to(t: Tree, n: nat)
    requires
        t.printable(),
    ensures
        all_printable(expanded_to(t, n)),
    decreases t, n,
{
    if 0 < n <= t.keys().len() {
        let key = t.keys()[n - 1];
        let rest = expanded_to(t, (n - 1) as nat);
        lemma_printable_expanded_to(t, (n - 1) as nat);
        lemma_printable_get(t, key);
        if let Some(v) = t.get(key) {
            lemma_printable_decor(v, plain());
            lemma_printable_put(rest, key, v);
            lemma_printable_put(rest, key, v.with_decor(plain()));
            if v.is_table() {
                lemma_printable_expanded(v);
                lemma_printable_put(rest, key, expanded(v));
            }
        }
    }
}

proof fn lemma_printable_added(a: Tree, v: Tree)
    requires
        v.printable(),
    ensures
        added(a, v).printable(),
{
    lemma_printable_expanded(v);
    lemma_printable_valued(expanded(v));
}

proof fn lemma_printable_merged(a: Tree, b: Tree)
    requires
        a.printable(),
        b.printable(),
    ensures
        merged(a, b).printable(),
    decreases b, b.keys().len() + 1,
{
    if a.is_table() && b.is_table() {
        lemma_printable_merged_to(a, b, b.keys().len());
        lemma_printable_entries(a, merged_to(a, b, b.keys().len()));
    }
}

proof fn lemma_printable_merged_to(a: Tree, b: Tree, n: nat)
    requires
        a.printable(),
        b.printable(),
        a.is_table(),
    ensures
        all_printable(merged_to(a, b, n)),
    decreases b, n,
{
    if 0 < n <= b.keys().len() {
        let key = b.keys()[n - 1];
        let e = merged_to(a, b, (n - 1) as nat);
        lemma_printable_merged_to(a, b, (n - 1) as nat);
        lemma_printable_get(b, key);
        if let Some(v) = b.get(key) {
            match a.with_entries(e).find(key) {
                Some(i) => {
                    let slot = e[i].item;
                    assert(slot.printable());
                    if v.is_table() {
                        lemma_printable_merged(slot, v);
                    } else {
                        lemma_printable_decor(v, slot.decor());
                    }
                },
                None => {
                    lemma_printable_added(a, v);
                    lemma_printable_put(e, key, added(a, v));
                },
            }
        }
    }
}

proof fn lemma_printable_trimmed(m: Tree, b: Tree)
    requires
        m.printable(),
    ensures
        trimmed(m, b).printable(),
    decreases b, b.keys().len() + 1,
{
    if m.is_table() && b.is_table() {
        lemma_printable_trimmed_to(m, b, b.keys().len());
        lemma_printable_entries(m, trimmed_to(m, b, b.keys().len()));
    }
}

proof fn lemma_printable_trimmed_to(m: Tree, b: Tree, n: nat)
    requires
        m.printable(),
        m.is_table(),
    ensures
        all_printable(trimmed_to(m, b, n)),
    decreases b, n,
{
    if n == 0 || n > b.keys().len() {
        lemma_printable_retained(m.entries(), b.keys());
    } else {
        let key = b.keys()[n - 1];
        let e = trimmed_to(m, b, (n - 1) as nat);
        lemma_printable_trimmed_to(m, b, (n - 1) as nat);
        if let (Some(v), Some(i)) = (b.get(key), m.with_entries(e).find(key)) {
            assert(e[i].item.printable());
            lemma_printable_trimmed(e[i].item, v);
        }
    }
}

// Whole documents.

/// What the root of a document holds once that of another was brought in.
pub open spec fn updated(a: Tree, b: Tree) -> Tree {
    a.with_entries(updated_to(a, b, b.keys().len()))
}

/// The entries of `a` with the first `n` keys of `b` brought in.
pub open spec fn updated_to(a: Tree, b: Tree, n: nat) -> Seq<Entry>
    decreases n,
{
    if n == 0 || n > b.keys().len() {
        a.entries()
    } else {
        let key = b.keys()[n - 1];
        let e = updated_to(a, b, (n - 1) as nat);
        match b.get(key) {
            Some(v) => match a.with_entries(e).find(key) {
                Some(i) => e.update(i, Entry { item: merged(e[i].item, v), ..e[i] }),
                None => assigned(e, key, expanded(v)),
            },
            None => e,
        }
    }
}

proof fn lemma_printable_updated_to(a: Tree, b: Tree, n: nat)
    requires
        a.printable(),
        b.printable(),
    ensures
        all_printable(updated_to(a, b, n)),
    decreases n,
{
    if 0 < n <= b.keys().len() {
        let key = b.keys()[n - 1];
        let e = updated_to(a, b, (n - 1) as nat);
        lemma_printable_updated_to(a, b, (n - 1) as nat);
        lemma_printable_get(b, key);
        if let Some(v) = b.get(key) {
            lemma_printable_entries(a, e);
            lemma_printable_get(a.with_entries(e), key);
            match a.with_entries(e).find(key) {
                Some(i) => {
                    assert(e[i].item.printable());
                    lemma_printable_merged(e[i].item, v);
                },
                None => {
                    lemma_printable_expanded(v);
                    lemma_printable_put(e, key, expanded(v));
                },
            }
        }
    }
}

/// What the root of a settings file holds once the bindings that are not among `names` are dropped.
pub open spec fn pruned(t: Tree, names: Seq<Seq<char>>) -> Tree {
    match t.find("buttons"@) {
        Some(i) => {
            let b = t.entries()[i].item;
            if b is Table {
                t.with_entries(
                    t.entries().update(
                        i,
                        Entry {
                            item: b.with_entries(retained(b.entries(), names)),
                            ..t.entries()[i]
                        },
                    ),
                )
            } else {
                t
            }
        },
        None => t,
    }
}

/// What the root of a device profile holds once that of a new one was brought in: no controls, and
/// nothing of a control, that the new one does not have.
pub open spec fn profiled(a: Tree, b: Tree) -> Tree {
    let m = updated(a, b);
    match (m.find("control"@), b.get("control"@)) {
        (Some(i), Some(v)) => m.with_entries(
            m.entries().update(
                i,
                Entry { item: trimmed(m.entries()[i].item, v), ..m.entries()[i] },
            ),
        ),
        _ => m,
    }
}

/// What stands in a section under a key.
pub open spec fn setting(t: Tree, section: Seq<char>, key: Seq<char>) -> Option<Tree> {
    match t.get(section) {
        Some(s) => s.get(key),
        None => None,
    }
}

/// What a document holds once a setting has that value. A section that is not there is not added.
pub open spec fn with_setting(t: Tree, section: Seq<char>, key: Seq<char>, v: Tree) -> Tree {
    match t.find(section) {
        Some(i) => {
            let s = t.entries()[i].item;
            t.with_entries(
                t.entries().update(
                    i,
                    Entry { item: s.with_entries(assigned(s.entries(), key, v)), ..t.entries()[i] },
                ),
            )
        },
        None => t,
    }
}

/// What a document holds once an element of an array setting is that number.
pub open spec fn with_element(
    t: Tree,
    section: Seq<char>,
    key: Seq<char>,
    at: int,
    n: i64,
) -> Tree {
    match t.find(section) {
        Some(i) => {
            let s = t.entries()[i].item;
            match s.find(key) {
                Some(j) => {
                    let v = s.entries()[j].item;
                    let x = Tree::Value(
                        Data::Array(
                            v.elements().update(at, Tree::Value(Data::Integer(n), plain())),
                        ),
                        v.decor(),
                    );
                    let inner = s.with_entries(
                        s.entries().update(j, Entry { item: x, ..s.entries()[j] }),
                    );
                    t.with_entries(t.entries().update(i, Entry { item: inner, ..t.entries()[i] }))
                },
                None => t,
            }
        },
        None => t,
    }
}

/// The numbers among the first `n` elements of an array.
pub open spec fn integers_to(t: Tree, n: int) -> Seq<i64>
    decreases n,
{
    if n <= 0 {
        Seq::empty()
    } else {
        match t.element(n - 1) {
            Some(x) => match x.integer() {
                Some(v) => integers_to(t, n - 1).push(v),
                None => integers_to(t, n - 1),
            },
            None => integers_to(t, n - 1),
        }
    }
}

/// The fields of a binding.
#[derive(Debug, Clone, Copy, PartialEq, Eq, Structural)]
pub enum Part {
    Send,
    Mode,
    Led,
}

impl Part {
    pub open spec fn name(self) -> Seq<char> {
        match self {
            Part::Send => "send"@,
            Part::Mode => "mode"@,
            Part::Led => "led"@,
        }
    }

    /// What a table means that says nothing of the field.
    pub open spec fn default_text(self) -> Seq<char> {
        match self {
            Part::Send => "none"@,
            Part::Mode => "momentary"@,
            Part::Led => "follow"@,
        }
    }

    fn key(self) -> (r: &'static str)
        ensures
            r@ == self.name(),
    {
        match self {
            Part::Send => "send",
            Part::Mode => "mode",
            Part::Led => "led",
        }
    }

    fn default_string(self) -> (r: String)
        ensures
            r@ == self.default_text(),
    {
        match self {
            Part::Send => "none".to_owned(),
            Part::Mode => "momentary".to_owned(),
            Part::Led => "follow".to_owned(),
        }
    }
}

/// One field of a binding, whatever form it is written in. The shorthand form is a bare string
/// meaning what to send.
pub open spec fn part_of(binding: Option<Tree>, part: Part) -> Seq<char> {
    match binding {
        None => Seq::empty(),
        Some(t) => match t.text() {
            Some(s) => if part is Send {
                s
            } else {
                part.default_text()
            },
            None => match t.get(part.name()) {
                Some(f) => match f.text() {
                    Some(s) => s,
                    None => part.default_text(),
                },
                None => part.default_text(),
            },
        },
    }
}

pub open spec fn text_tree(s: Seq<char>) -> Tree {
    Tree::Value(Data::Text(s, false), plain())
}

/// How a binding is written: in the short form when the defaults apply, else as a table of what
/// does not. Someone reading the file should see `play = "cc 1 118"`, not a table repeating two
/// defaults.
pub open spec fn written(send: Seq<char>, mode: Seq<char>, led: Seq<char>) -> Tree {
    if mode == "momentary"@ && led == "follow"@ {
        text_tree(send)
    } else {
        let one = put(Seq::empty(), "send"@, text_tree(send));
        let two = if mode == "momentary"@ {
            one
        } else {
            put(one, "mode"@, text_tree(mode))
        };
        let three = if led == "follow"@ {
            two
        } else {
            put(two, "led"@, text_tree(led))
        };
        Tree::Inline(three, plain())
    }
}

fn write_binding(send: &str, mode: &str, led: &str) -> (r: toml_edit::Item)
    ensures
        tree(r) == written(send@, mode@, led@),
{
    let plain_mode = same(mode, "momentary");
    let plain_led = same(led, "follow");
    if plain_mode && plain_led {
        return text_item(send);
    }
    let mut t = new_inline();
    insert_into(&mut t, "send", text_item(send));
    if !plain_mode {
        insert_into(&mut t, "mode", text_item(mode));
    }
    if !plain_led {
        insert_into(&mut t, "led", text_item(led));
    }
    t
}

/// What a document holds once it has a section for bindings.
pub open spec fn with_buttons(t: Tree) -> Tree {
    if t.get("buttons"@) is None {
        t.with_entries(assigned(t.entries(), "buttons"@, Tree::Table(Seq::empty(), plain())))
    } else {
        t
    }
}

/// What a document holds once a binding is taken out.
pub open spec fn without_binding(t: Tree, name: Seq<char>) -> Tree {
    match t.find("buttons"@) {
        Some(i) => {
            let b = t.entries()[i].item;
            let left = match find_from(b.entries(), name, 0) {
                Some(at) => b.entries().remove(at),
                None => b.entries(),
            };
            t.with_entries(
                t.entries().update(i, Entry { item: b.with_entries(left), ..t.entries()[i] }),
            )
        },
        None => t,
    }
}

/// An entry that is put back changes nothing.
proof fn lemma_same_entry(t: Tree, key: Seq<char>)
    ensures
        t.find(key) matches Some(i) ==> t.with_entries(
            t.entries().update(i, Entry { item: t.entries()[i].item, ..t.entries()[i] }),
        ) == t,
{
    if let Some(i) = t.find(key) {
        assert(t.entries().update(
            i,
            Entry { item: t.entries()[i].item, ..t.entries()[i] },
        ) =~= t.entries());
    }
}

proof fn lemma_printable_setting(t: Tree, section: Seq<char>, key: Seq<char>, v: Tree)
    requires
        t.printable(),
        v.printable(),
    ensures
        with_setting(t, section, key, v).printable(),
{
    lemma_printable_get(t, section);
    if let Some(i) = t.find(section) {
        let s = t.entries()[i].item;
        lemma_printable_put(s.entries(), key, v);
        lemma_printable_entries(s, assigned(s.entries(), key, v));
        lemma_printable_slot(t, i, s.with_entries(assigned(s.entries(), key, v)));
    }
}

proof fn lemma_printable_element(t: Tree, section: Seq<char>, key: Seq<char>, at: int, n: i64)
    requires
        t.printable(),
    ensures
        setting(t, section, key) matches Some(v) && v.element(at) is Some ==> with_element(
            t,
            section,
            key,
            at,
            n,
        ).printable(),
{
    lemma_printable_get(t, section);
    if let Some(i) = t.find(section) {
        let s = t.entries()[i].item;
        lemma_printable_get(s, key);
        if let Some(j) = s.find(key) {
            let v = s.entries()[j].item;
            let number = Tree::Value(Data::Integer(n), plain());
            let x = Tree::Value(Data::Array(v.elements().update(at, number)), v.decor());
            assert(number.printable());
            if v.element(at) is Some {
                assert(x.elements() == v.elements().update(at, number));
                assert(x.printable());
                lemma_printable_slot(s, j, x);
                lemma_printable_slot(
                    t,
                    i,
                    s.with_entries(s.entries().update(j, Entry { item: x, ..s.entries()[j] })),
                );
            }
        }
    }
}

proof fn lemma_printable_buttons(t: Tree)
    requires
        t.printable(),
    ensures
        with_buttons(t).printable(),
{
    let none = Tree::Table(Seq::empty(), plain());
    assert(none.printable());
    lemma_printable_put(t.entries(), "buttons"@, none);
    lemma_printable_entries(t, assigned(t.entries(), "buttons"@, none));
}

proof fn lemma_printable_written(send: Seq<char>, mode: Seq<char>, led: Seq<char>)
    requires
        quotable(send),
        quotable(mode),
        quotable(led),
    ensures
        written(send, mode, led).printable(),
{
    let one = put(Seq::empty(), "send"@, text_tree(send));
    lemma_printable_put(Seq::empty(), "send"@, text_tree(send));
    lemma_printable_put(one, "mode"@, text_tree(mode));
    lemma_printable_put(one, "led"@, text_tree(led));
    lemma_printable_put(put(one, "mode"@, text_tree(mode)), "led"@, text_tree(led));
}

proof fn lemma_printable_without(t: Tree, name: Seq<char>)
    requires
        t.printable(),
    ensures
        without_binding(t, name).printable(),
{
    lemma_printable_get(t, "buttons"@);
    if let Some(i) = t.find("buttons"@) {
        let b = t.entries()[i].item;
        let left = match find_from(b.entries(), name, 0) {
            Some(at) => b.entries().remove(at),
            None => b.entries(),
        };
        lemma_found(b.entries(), name, 0);
        assert(all_printable(left));
        lemma_printable_entries(b, left);
        lemma_printable_slot(t, i, b.with_entries(left));
    }
}

/// A settings file, read for editing.
pub struct Document {
    doc: toml_edit::DocumentMut,
}

impl View for Document {
    type V = Tree;

    closed spec fn view(&self) -> Tree {
        root(self.doc)
    }
}

impl Document {
    /// The text that it is written as.
    pub closed spec fn print(self) -> Seq<char> {
        printed(self.doc)
    }

    /// The comments and the blank lines behind the last setting.
    pub closed spec fn tail(self) -> Seq<char> {
        ending(self.doc)
    }

    /// The root is a table.
    pub open spec fn wf(self) -> bool {
        self@ is Table
    }

    /// Read a document.
    pub fn parse(text: &str) -> (r: Result<Self, String>)
        ensures
            match r {
                Ok(d) => {
                    &&& parsed(text@) == Ok::<Tree, Seq<char>>(d@)
                    &&& d.wf()
                    &&& d@.whole()
                    &&& d@.printable()
                    &&& d.tail() == ended(text@)
                    &&& has_suffix(text@, d.tail())
                },
                Err(e) => parsed(text@) == Err::<Tree, Seq<char>>(e@),
            },
    {
        match parse_document(text) {
            Ok(doc) => Ok(Document { doc }),
            Err(e) => Err(e),
        }
    }

    /// Write the document out. Its tail comes last, with plain line ends. What was read always can
    /// be, and so can texts of which [`is_quotable`](crate::text::is_quotable) holds.
    pub fn text(&self) -> (r: String)
        requires
            self.wf(),
            self@.printable(),
        ensures
            r@ == self.print(),
            has_suffix(r@, unreturned(self.tail())),
    {
        print_document(&self.doc)
    }

    /// Bring in what another document holds, leaving the formatting alone.
    pub fn update(&mut self, fresh: &Document)
        requires
            old(self).wf(),
            fresh@.whole(),
        ensures
            final(self).wf(),
            final(self).tail() == old(self).tail(),
            final(self)@ == updated(old(self)@, fresh@),
            old(self)@.printable() && fresh@.printable() ==> final(self)@.printable(),
    {
        let ghost a = self@;
        let ghost b = fresh@;
        proof {
            if a.printable() && b.printable() {
                lemma_printable_updated_to(a, b, b.keys().len());
                lemma_printable_entries(a, updated_to(a, b, b.keys().len()));
            }
        }
        let from = root_of(&fresh.doc);
        let keys = keys_of(from);
        let to = root_of_mut(&mut self.doc);
        let mut n: usize = 0;
        assert(a.with_entries(updated_to(a, b, 0)) == a);
        while n < keys.len()
            invariant
                n <= keys@.len(),
                a is Table,
                b.whole(),
                tree(*from) == b,
                views(keys@) == b.keys(),
                tree(*to) == a.with_entries(updated_to(a, b, n as nat)),
            decreases keys@.len() - n,
        {
            let key = &keys[n];
            assert(views(keys@)[n as int] == key@);
            if let Some(v) = child_of(from, key.as_str()) {
                assert(tree(*v).whole());
                match child_of_mut(to, key.as_str()) {
                    Some(slot) => {
                        merge_preserving(slot, v);
                    },
                    None => {
                        assign_in(to, key.as_str(), expand_inline_tables(v));
                    },
                }
            }
            n += 1;
        }
    }

    /// Drop the bindings that are not among the names.
    pub fn retain(&mut self, names: &NameMap<Binding>)
        requires
            old(self).wf(),
        ensures
            final(self).wf(),
            final(self).tail() == old(self).tail(),
            final(self)@ == pruned(old(self)@, keys(names.entries())),
            old(self)@.printable() ==> final(self)@.printable(),
    {
        let listed = names.names();
        proof {
            lemma_same_entry(self@, "buttons"@);
            if self@.printable() {
                lemma_printable_get(self@, "buttons"@);
                if let Some(i) = self@.find("buttons"@) {
                    let b = self@.entries()[i].item;
                    let left = retained(b.entries(), keys(names.entries()));
                    lemma_printable_retained(b.entries(), keys(names.entries()));
                    lemma_printable_entries(b, left);
                    lemma_printable_slot(self@, i, b.with_entries(left));
                }
            }
        }
        let top = root_of_mut(&mut self.doc);
        if let Some(b) = child_of_mut(top, "buttons") {
            if kind_of(b) == Kind::Table {
                retain_in(b, &listed);
            }
        }
    }

    /// Drop the controls of a device profile that another one does not have, and what it does not
    /// have of a control.
    fn trim_controls(&mut self, fresh: &Document)
        requires
            old(self).wf(),
            fresh@.whole(),
        ensures
            final(self).wf(),
            final(self).tail() == old(self).tail(),
            final(self)@ == (match (old(self)@.find("control"@), fresh@.get("control"@)) {
                (Some(i), Some(v)) => old(self)@.with_entries(
                    old(self)@.entries().update(
                        i,
                        Entry {
                            item: trimmed(old(self)@.entries()[i].item, v),
                            ..old(self)@.entries()[i]
                        },
                    ),
                ),
                _ => old(self)@,
            }),
            old(self)@.printable() ==> final(self)@.printable(),
    {
        proof {
            lemma_same_entry(self@, "control"@);
            if self@.printable() {
                if let (Some(i), Some(v)) = (self@.find("control"@), fresh@.get("control"@)) {
                    lemma_printable_get(self@, "control"@);
                    lemma_printable_trimmed(self@.entries()[i].item, v);
                    lemma_printable_slot(self@, i, trimmed(self@.entries()[i].item, v));
                }
            }
        }
        let from = root_of(&fresh.doc);
        if let Some(v) = child_of(from, "control") {
            assert(tree(*v).whole());
            let top = root_of_mut(&mut self.doc);
            if let Some(slot) = child_of_mut(top, "control") {
                trim_to(slot, v);
            }
        }
    }

    /// A text setting, or nothing where there is none.
    pub fn get_str(&self, section: &str, key: &str) -> (r: String)
        ensures
            r@ == (match setting(self@, section@, key@) {
                Some(t) => match t.text() {
                    Some(s) => s,
                    None => Seq::empty(),
                },
                None => Seq::empty(),
            }),
    {
        if let Some(s) = child_of(root_of(&self.doc), section) {
            if let Some(v) = child_of(s, key) {
                if let Some(t) = text_of(v) {
                    return t;
                }
            }
        }
        String::new()
    }

    /// A number setting, or zero where there is none.
    pub fn get_int(&self, section: &str, key: &str) -> (r: i64)
        ensures
            r == (match setting(self@, section@, key@) {
                Some(t) => match t.integer() {
                    Some(n) => n,
                    None => 0,
                },
                None => 0,
            }),
    {
        if let Some(s) = child_of(root_of(&self.doc), section) {
            if let Some(v) = child_of(s, key) {
                if let Some(n) = integer_of(v) {
                    return n;
                }
            }
        }
        0
    }

    /// Whether settings can be written under a name: it is a section, or it is not there.
    pub fn is_section(&self, section: &str) -> (r: bool)
        ensures
            r == (self@.get(section@) matches Some(t) ==> t.is_table()),
    {
        match child_of(root_of(&self.doc), section) {
            Some(s) => {
                let kind = kind_of(s);
                kind == Kind::Inline || kind == Kind::Table
            },
            None => true,
        }
    }

    fn set(&mut self, section: &str, key: &str, v: toml_edit::Item) -> (r: bool)
        requires
            old(self).wf(),
            old(self)@.get(section@) matches Some(t) ==> t.is_table(),
        ensures
            final(self).wf(),
            final(self).tail() == old(self).tail(),
            r == (old(self)@.get(section@) is Some),
            final(self)@ == with_setting(old(self)@, section@, key@, tree(v)),
            old(self)@.printable() && tree(v).printable() ==> final(self)@.printable(),
    {
        proof {
            if self@.printable() && tree(v).printable() {
                lemma_printable_setting(self@, section@, key@, tree(v));
            }
        }
        let top = root_of_mut(&mut self.doc);
        match child_of_mut(top, section) {
            Some(s) => {
                assign_in(s, key, v);
                true
            },
            None => false,
        }
    }

    /// Write a number setting. Returns whether there was a section for it.
    pub fn set_int(&mut self, section: &str, key: &str, n: i64) -> (r: bool)
        requires
            old(self).wf(),
            old(self)@.get(section@) matches Some(t) ==> t.is_table(),
        ensures
            final(self).wf(),
            final(self).tail() == old(self).tail(),
            r == (old(self)@.get(section@) is Some),
            final(self)@ == with_setting(
                old(self)@,
                section@,
                key@,
                Tree::Value(Data::Integer(n), plain()),
            ),
            old(self)@.printable() ==> final(self)@.printable(),
    {
        self.set(section, key, integer_item(n))
    }

    /// Write a text setting. Returns whether there was a section for it.
    pub fn set_str(&mut self, section: &str, key: &str, s: &str) -> (r: bool)
        requires
            old(self).wf(),
            old(self)@.get(section@) matches Some(t) ==> t.is_table(),
        ensures
            final(self).wf(),
            final(self).tail() == old(self).tail(),
            r == (old(self)@.get(section@) is Some),
            final(self)@ == with_setting(old(self)@, section@, key@, text_tree(s@)),
            old(self)@.printable() && quotable(s@) ==> final(self)@.printable(),
    {
        self.set(section, key, text_item(s))
    }

    /// The numbers of an array setting.
    pub fn get_ints(&self, section: &str, key: &str) -> (r: Vec<i64>)
        ensures
            r@ == (match setting(self@, section@, key@) {
                Some(t) => integers_to(t, t.elements().len() as int),
                None => Seq::empty(),
            }),
    {
        let mut out: Vec<i64> = Vec::new();
        if let Some(s) = child_of(root_of(&self.doc), section) {
            if let Some(v) = child_of(s, key) {
                let ghost t = tree(*v);
                let mut n: usize = 0;
                loop
                    invariant_except_break
                        t == tree(*v),
                        n <= t.elements().len(),
                        out@ == integers_to(t, n as int),
                    ensures
                        out@ == integers_to(t, t.elements().len() as int),
                    decreases t.elements().len() - n,
                {
                    match element_of(v, n) {
                        Some(x) => {
                            if let Some(i) = integer_of(x) {
                                out.push(i);
                            }
                        },
                        None => {
                            break ;
                        },
                    }
                    n += 1;
                }
            }
        }
        out
    }

    /// Write one number of an array setting. Returns whether there is such an element.
    pub fn set_int_at(&mut self, section: &str, key: &str, at: usize, n: i64) -> (r: bool)
        requires
            old(self).wf(),
        ensures
            final(self).wf(),
            final(self).tail() == old(self).tail(),
            r == (setting(old(self)@, section@, key@) matches Some(t) && t is Value && (t.element(
                at as int,
            ) matches Some(x) && x.is_value())),
            final(self)@ == if r {
                with_element(old(self)@, section@, key@, at as int, n)
            } else {
                old(self)@
            },
            old(self)@.printable() ==> final(self)@.printable(),
    {
        proof {
            lemma_same_entry(self@, section@);
            if self@.printable() {
                lemma_printable_element(self@, section@, key@, at as int, n);
            }
        }
        let top = root_of_mut(&mut self.doc);
        match child_of_mut(top, section) {
            Some(s) => {
                proof {
                    lemma_same_entry(tree(*s), key@);
                }
                match child_of_mut(s, key) {
                    Some(v) => {
                        let fits = kind_of(v) == Kind::Value && (match element_of(v, at) {
                            Some(x) => {
                                let kind = kind_of(x);
                                kind == Kind::Value || kind == Kind::Inline
                            },
                            None => false,
                        });
                        if fits {
                            set_element(v, at, n);
                        }
                        fits
                    },
                    None => false,
                }
            },
            None => false,
        }
    }

    /// One field of a binding, whatever form it is written in.
    pub fn binding_str(&self, name: &str, part: Part) -> (r: String)
        ensures
            r@ == part_of(setting(self@, "buttons"@, name@), part),
    {
        if let Some(b) = child_of(root_of(&self.doc), "buttons") {
            if let Some(item) = child_of(b, name) {
                if let Some(s) = text_of(item) {
                    return if part == Part::Send {
                        s
                    } else {
                        part.default_string()
                    };
                }
                if let Some(f) = child_of(item, part.key()) {
                    if let Some(s) = text_of(f) {
                        return s;
                    }
                }
                return part.default_string();
            }
        }
        String::new()
    }

    /// Write a binding, using the short form when the defaults apply. Returns whether it could be:
    /// bindings that are written in braces are left alone.
    pub fn set_binding(&mut self, name: &str, send: &str, mode: &str, led: &str) -> (r: bool)
        requires
            old(self).wf(),
        ensures
            final(self).wf(),
            final(self).tail() == old(self).tail(),
            r == (with_buttons(old(self)@).get("buttons"@) matches Some(b) && b is Table),
            final(self)@ == if r {
                with_setting(
                    with_buttons(old(self)@),
                    "buttons"@,
                    name@,
                    written(send@, mode@, led@),
                )
            } else {
                with_buttons(old(self)@)
            },
            old(self)@.printable() && quotable(send@) && quotable(mode@) && quotable(led@)
                ==> final(self)@.printable(),
    {
        proof {
            if self@.printable() && quotable(send@) && quotable(mode@) && quotable(led@) {
                lemma_printable_buttons(self@);
                lemma_printable_written(send@, mode@, led@);
                lemma_printable_setting(
                    with_buttons(self@),
                    "buttons"@,
                    name@,
                    written(send@, mode@, led@),
                );
            }
        }
        let top = root_of_mut(&mut self.doc);
        if child_of(top, "buttons").is_none() {
            assign_in(top, "buttons", new_table());
        }
        proof {
            lemma_same_entry(tree(*top), "buttons"@);
        }
        match child_of_mut(top, "buttons") {
            Some(b) => {
                if kind_of(b) == Kind::Table {
                    assign_in(b, name, write_binding(send, mode, led));
                    true
                } else {
                    false
                }
            },
            None => false,
        }
    }

    /// Take a binding out. Returns whether there is a section that it could be in.
    pub fn unbind(&mut self, name: &str) -> (r: bool)
        requires
            old(self).wf(),
        ensures
            final(self).wf(),
            final(self).tail() == old(self).tail(),
            r == (old(self)@.get("buttons"@) matches Some(b) && b is Table),
            final(self)@ == if r {
                without_binding(old(self)@, name@)
            } else {
                old(self)@
            },
            old(self)@.printable() ==> final(self)@.printable(),
    {
        proof {
            lemma_same_entry(self@, "buttons"@);
            if self@.printable() {
                lemma_printable_without(self@, name@);
            }
        }
        let top = root_of_mut(&mut self.doc);
        match child_of_mut(top, "buttons") {
            Some(b) => {
                if kind_of(b) == Kind::Table {
                    remove_from(b, name);
                    true
                } else {
                    false
                }
            },
            None => false,
        }
    }
}

/// Why there is no text of a document.
#[derive(Debug)]
pub enum DocumentError {
    /// The file as it is could not be read.
    Original(String),
    /// The settings that it is to have could not be read.
    Fresh(String),
}

/// What a save comes to: the text of a document that holds `want`, with `tail` behind it.
pub open spec fn is_text_of(text: Seq<char>, want: Tree, tail: Seq<char>) -> bool {
    &&& exists|d: Document| d@ == want && d.tail() == tail && #[trigger] d.print() == text
    &&& has_suffix(text, unreturned(tail))
}

fn read_both(original: &str, fresh: &str) -> (r: Result<(Document, Document), DocumentError>)
    ensures
        match r {
            Ok((a, b)) => {
                &&& parsed(original@) == Ok::<Tree, Seq<char>>(a@)
                &&& parsed(fresh@) == Ok::<Tree, Seq<char>>(b@)
                &&& a.wf()
                &&& a@.printable()
                &&& a.tail() == ended(original@)
                &&& b@.whole()
                &&& b@.printable()
            },
            Err(DocumentError::Original(e)) => parsed(original@) == Err::<Tree, Seq<char>>(e@),
            Err(DocumentError::Fresh(e)) => {
                &&& parsed(original@) is Ok
                &&& parsed(fresh@) == Err::<Tree, Seq<char>>(e@)
            },
        },
{
    let a = match Document::parse(original) {
        Ok(d) => d,
        Err(e) => {
            return Err(DocumentError::Original(e));
        },
    };
    match Document::parse(fresh) {
        Ok(b) => Ok((a, b)),
        Err(e) => Err(DocumentError::Fresh(e)),
    }
}

/// The text of a device profile with new contents, its comments preserved, those behind its last
/// setting too. Controls that the profile
/// does not have any more are dropped, and so is what it does not say of a control any more.
pub fn save_profile(original: &str, fresh: &str) -> (r: Result<String, DocumentError>)
    ensures
        match r {
            Ok(text) => match (parsed(original@), parsed(fresh@)) {
                (Ok(a), Ok(b)) => is_text_of(text@, profiled(a, b), ended(original@)),
                _ => false,
            },
            Err(DocumentError::Original(e)) => parsed(original@) == Err::<Tree, Seq<char>>(e@),
            Err(DocumentError::Fresh(e)) => {
                &&& parsed(original@) is Ok
                &&& parsed(fresh@) == Err::<Tree, Seq<char>>(e@)
            },
        },
{
    match read_both(original, fresh) {
        Ok((mut doc, new)) => {
            doc.update(&new);
            doc.trim_controls(&new);
            let text = doc.text();
            assert(doc.print() == text@);
            Ok(text)
        },
        Err(e) => Err(e),
    }
}

/// The text of a settings file with new contents, its comments preserved, those behind its last
/// setting too. Bindings that the
/// settings do not have any more are dropped.
pub fn save_config(original: &str, fresh: &str, names: &NameMap<Binding>) -> (r: Result<
    String,
    DocumentError,
>)
    ensures
        match r {
            Ok(text) => match (parsed(original@), parsed(fresh@)) {
                (Ok(a), Ok(b)) => is_text_of(
                    text@,
                    pruned(updated(a, b), keys(names.entries())),
                    ended(original@),
                ),
                _ => false,
            },
            Err(DocumentError::Original(e)) => parsed(original@) == Err::<Tree, Seq<char>>(e@),
            Err(DocumentError::Fresh(e)) => {
                &&& parsed(original@) is Ok
                &&& parsed(fresh@) == Err::<Tree, Seq<char>>(e@)
            },
        },
{
    match read_both(original, fresh) {
        Ok((mut doc, new)) => {
            doc.update(&new);
            doc.retain(names);
            let text = doc.text();
            assert(doc.print() == text@);
            Ok(text)
        },
        Err(e) => Err(e),
    }
}

} // verus!
