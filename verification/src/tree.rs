//! What the items of a TOML document hold, and the calls that read and change them.
//!
//! A document is kept as the `toml_edit` crate keeps it, with the comments and the spacing around
//! every key and every value, so that a change of one setting leaves the rest of the file as its
//! author wrote it. [`Tree`] is what such an item holds. How a value is written (a number in
//! hexadecimal, a string in one kind of quotes or another) is no part of it, but for whether a
//! string has a form of its own.
use crate::text::{among, has_suffix, quotable, views};
use vstd::prelude::*;

verus! {

#[verifier::external_type_specification]
#[verifier::external_body]
pub struct ExItem(toml_edit::Item);

#[verifier::external_type_specification]
#[verifier::external_body]
pub struct ExDocumentMut(toml_edit::DocumentMut);

/// The comments and the spacing on both sides of something, where they are not left to the default.
pub struct Decor {
    pub before: Option<Seq<char>>,
    pub after: Option<Seq<char>>,
}

/// Default spacing on both sides, and no comment.
pub open spec fn plain() -> Decor {
    Decor { before: None, after: None }
}

/// What a value says that holds no keys.
pub enum Data {
    /// A text, and whether it is kept as it was written, which is so of all that was read.
    Text(Seq<char>, bool),
    Integer(i64),
    /// The bits of the number.
    Float(u64),
    Boolean(bool),
    Datetime(Seq<char>),
    Array(Seq<Tree>),
}

/// A key of a table with what stands under it. The comment above a setting is part of what is
/// around its key.
pub struct Entry {
    pub key: Seq<char>,
    pub around: Decor,
    pub item: Tree,
}

/// What an item holds.
pub enum Tree {
    /// An empty place, which a table does not show.
    Nothing,
    Value(Data, Decor),
    /// A table in braces, which is a value too.
    Inline(Seq<Entry>, Decor),
    /// A table under a heading of its own.
    Table(Seq<Entry>, Decor),
    /// An array of tables.
    Tables(Seq<Tree>),
}

/// The variants of [`Tree`].
#[derive(Debug, Clone, Copy, PartialEq, Eq, Structural)]
pub enum Kind {
    Nothing,
    Value,
    Inline,
    Table,
    Tables,
}

/// The place of the first entry from `i` on with that key.
pub open spec fn find_from(e: Seq<Entry>, key: Seq<char>, i: int) -> Option<int>
    decreases e.len() - i,
{
    if i < 0 || i >= e.len() {
        None
    } else if e[i].key == key {
        Some(i)
    } else {
        find_from(e, key, i + 1)
    }
}

/// The entries with `item` under that key: in the place of the one that is there, or behind them
/// all.
pub open spec fn put(e: Seq<Entry>, key: Seq<char>, item: Tree) -> Seq<Entry> {
    match find_from(e, key, 0) {
        Some(i) => e.update(i, Entry { key, around: plain(), item }),
        None => e.push(Entry { key, around: plain(), item }),
    }
}

/// The same, with what is around the key left alone where there is one.
pub open spec fn assigned(e: Seq<Entry>, key: Seq<char>, item: Tree) -> Seq<Entry> {
    match find_from(e, key, 0) {
        Some(i) => e.update(i, Entry { item, ..e[i] }),
        None => e.push(Entry { key, around: plain(), item }),
    }
}

impl Tree {
    pub open spec fn kind(self) -> Kind {
        match self {
            Tree::Nothing => Kind::Nothing,
            Tree::Value(_, _) => Kind::Value,
            Tree::Inline(_, _) => Kind::Inline,
            Tree::Table(_, _) => Kind::Table,
            Tree::Tables(_) => Kind::Tables,
        }
    }

    /// Whether it holds keys.
    pub open spec fn is_table(self) -> bool {
        self is Inline || self is Table
    }

    /// Whether it can stand behind an equals sign.
    pub open spec fn is_value(self) -> bool {
        self is Value || self is Inline
    }

    /// What it holds, by key, in order.
    pub open spec fn entries(self) -> Seq<Entry> {
        match self {
            Tree::Inline(e, _) => e,
            Tree::Table(e, _) => e,
            _ => Seq::empty(),
        }
    }

    pub open spec fn with_entries(self, e: Seq<Entry>) -> Tree {
        match self {
            Tree::Inline(_, d) => Tree::Inline(e, d),
            Tree::Table(_, d) => Tree::Table(e, d),
            _ => self,
        }
    }

    /// What is around it: for a table under a heading, around the heading.
    pub open spec fn decor(self) -> Decor {
        match self {
            Tree::Value(_, d) => d,
            Tree::Inline(_, d) => d,
            Tree::Table(_, d) => d,
            _ => plain(),
        }
    }

    pub open spec fn with_decor(self, d: Decor) -> Tree {
        match self {
            Tree::Value(v, _) => Tree::Value(v, d),
            Tree::Inline(e, _) => Tree::Inline(e, d),
            Tree::Table(e, _) => Tree::Table(e, d),
            _ => self,
        }
    }

    /// Whether the entry in a place shows. A table under a heading hides its empty places.
    pub open spec fn shows_at(self, i: int) -> bool {
        self is Table ==> self.entries()[i].item !is Nothing
    }

    /// The place of the entry that shows under that key.
    pub open spec fn find(self, key: Seq<char>) -> Option<int> {
        match find_from(self.entries(), key, 0) {
            Some(i) => if 0 <= i < self.entries().len() && self.shows_at(i) {
                Some(i)
            } else {
                None
            },
            None => None,
        }
    }

    /// What shows under that key.
    pub open spec fn get(self, key: Seq<char>) -> Option<Tree> {
        match self.find(key) {
            Some(i) => Some(self.entries()[i].item),
            None => None,
        }
    }

    /// The keys of those of the first `n` entries that show.
    pub open spec fn keys_to(self, n: int) -> Seq<Seq<char>>
        decreases n,
    {
        if n <= 0 {
            Seq::empty()
        } else if self.shows_at(n - 1) {
            self.keys_to(n - 1).push(self.entries()[n - 1].key)
        } else {
            self.keys_to(n - 1)
        }
    }

    /// The keys that show, in order.
    pub open spec fn keys(self) -> Seq<Seq<char>> {
        self.keys_to(self.entries().len() as int)
    }

    /// No place is empty and no key comes twice, at any depth.
    pub open spec fn whole(self) -> bool
        decreases self,
    {
        &&& self !is Nothing
        &&& self.keys().no_duplicates()
        &&& forall|i: int|
            #![trigger self.entries()[i]]
            0 <= i < self.entries().len() ==> self.entries()[i].item.whole()
    }

    /// Whether every text in it can be written, at any depth: as it was, or in quotes.
    pub open spec fn printable(self) -> bool
        decreases self,
    {
        &&& self matches Tree::Value(Data::Text(s, kept), _) ==> kept || quotable(s)
        &&& forall|i: int|
            #![trigger self.entries()[i]]
            0 <= i < self.entries().len() ==> self.entries()[i].item.printable()
        &&& forall|i: int|
            #![trigger self.elements()[i]]
            0 <= i < self.elements().len() ==> self.elements()[i].printable()
    }

    /// The text that it is, if it is one.
    pub open spec fn text(self) -> Option<Seq<char>> {
        match self {
            Tree::Value(Data::Text(s, _), _) => Some(s),
            _ => None,
        }
    }

    /// The elements that it is made of, if it is an array.
    pub open spec fn elements(self) -> Seq<Tree> {
        match self {
            Tree::Value(Data::Array(a), _) => a,
            Tree::Tables(a) => a,
            _ => Seq::empty(),
        }
    }

    /// The element in a place.
    pub open spec fn element(self, at: int) -> Option<Tree> {
        if 0 <= at < self.elements().len() {
            Some(self.elements()[at])
        } else {
            None
        }
    }

    /// The number that it is, if it is one.
    pub open spec fn integer(self) -> Option<i64> {
        match self {
            Tree::Value(Data::Integer(n), _) => Some(n),
            _ => None,
        }
    }
}

/// A table in a form that can stand behind an equals sign: in braces, with default spacing inside.
/// An array of tables becomes an array on one line.
pub open spec fn valued(t: Tree) -> Tree
    decreases t, t.entries().len() + t.elements().len() + 1,
{
    match t {
        Tree::Table(e, _) => Tree::Inline(valued_entries(t, e.len()), plain()),
        Tree::Tables(s) => Tree::Value(Data::Array(valued_elements(t, s.len())), plain()),
        _ => t,
    }
}

/// The first `n` entries of a table that is put in braces.
pub open spec fn valued_entries(t: Tree, n: nat) -> Seq<Entry>
    decreases t, n,
    when n <= t.entries().len()
{
    if n == 0 {
        Seq::empty()
    } else {
        let e = t.entries()[n - 1];
        valued_entries(t, (n - 1) as nat).push(
            if e.item is Nothing {
                e
            } else {
                Entry { key: e.key, around: plain(), item: valued(e.item).with_decor(plain()) }
            },
        )
    }
}

/// What is around an element of an array on one line: a space in front of all but the first.
pub open spec fn spaced(first: bool) -> Decor {
    Decor {
        before: Some(
            if first {
                Seq::empty()
            } else {
                seq![' ']
            },
        ),
        after: Some(Seq::empty()),
    }
}

/// The first `n` tables of an array of tables that is put on one line.
pub open spec fn valued_elements(t: Tree, n: nat) -> Seq<Tree>
    decreases t, n,
    when n <= t.elements().len()
{
    if n == 0 {
        Seq::empty()
    } else {
        let rest = valued_elements(t, (n - 1) as nat);
        let first = forall|i: int| 0 <= i < rest.len() ==> #[trigger] rest[i] is Nothing;
        rest.push(valued(t.elements()[n - 1]).with_decor(spaced(first)))
    }
}

/// What the items of a document are, by `toml_edit`'s own account: the variant of the item, the
/// value, whether a text has a representation of its own, the entries in the order of the table's
/// map, and the decor of each value, table and key.
pub uninterp spec fn tree(i: toml_edit::Item) -> Tree;

/// What the root of a document holds.
pub uninterp spec fn root(d: toml_edit::DocumentMut) -> Tree;

/// The text of a document.
pub uninterp spec fn printed(d: toml_edit::DocumentMut) -> Seq<char>;

/// The comments and the blank lines behind everything that the root of a document holds.
pub uninterp spec fn ending(d: toml_edit::DocumentMut) -> Seq<char>;

/// What a text holds, read as a document, or what is wrong with it.
pub uninterp spec fn parsed(text: Seq<char>) -> Result<Tree, Seq<char>>;

/// The comments and the blank lines behind the last setting of a text, read as a document.
pub uninterp spec fn ended(text: Seq<char>) -> Seq<char>;

/// A text without its carriage returns.
pub open spec fn unreturned(s: Seq<char>) -> Seq<char> {
    s.filter(|c: char| c != '\r')
}

// Documents.

/// Calls `DocumentMut::from_str`. What it returns depends on the text alone; the error is given by
/// its message. The root of what was read is a table under a heading, the parser leaves no place
/// empty and takes no key twice, and it keeps every text as it was written. What is behind the last
/// setting, up to the end of the text, is kept beside the root.
#[verifier::external_body]
pub(crate) fn parse_document(text: &str) -> (r: Result<toml_edit::DocumentMut, String>)
    ensures
        match r {
            Ok(d) => {
                &&& parsed(text@) == Ok::<Tree, Seq<char>>(root(d))
                &&& root(d) is Table
                &&& root(d).whole()
                &&& root(d).printable()
                &&& ending(d) == ended(text@)
                &&& has_suffix(text@, ending(d))
            },
            Err(e) => parsed(text@) == Err::<Tree, Seq<char>>(e@),
        },
{
    text.parse::<toml_edit::DocumentMut>().map_err(|e| e.to_string())
}

/// Calls `DocumentMut`'s `Display`, which wants a table at the root. A text that has no form of its
/// own is put in quotes, for which the quotes in a row in it are counted in a byte: 256 of them are
/// too many. The ending comes last, without carriage returns. How the rest of the text follows from
/// what the document holds is left unsaid, and so is that it reads back: a table that never had a
/// heading of its own and has lost its last entry is not written.
#[verifier::external_body]
pub(crate) fn print_document(d: &toml_edit::DocumentMut) -> (r: String)
    requires
        root(*d) is Table,
        root(*d).printable(),
    ensures
        r@ == printed(*d),
        has_suffix(r@, unreturned(ending(*d))),
{
    d.to_string()
}

/// Calls `DocumentMut::as_item`, which gives the root.
#[verifier::external_body]
pub(crate) fn root_of(d: &toml_edit::DocumentMut) -> (r: &toml_edit::Item)
    ensures
        tree(*r) == root(*d),
{
    d.as_item()
}

/// Calls `DocumentMut::as_item_mut`, which gives the root to change; the ending is no part of it.
#[verifier::external_body]
pub(crate) fn root_of_mut(d: &mut toml_edit::DocumentMut) -> (r: &mut toml_edit::Item)
    ensures
        tree(*r) == root(*old(d)),
        root(*final(d)) == tree(*final(r)),
        ending(*final(d)) == ending(*old(d)),
{
    d.as_item_mut()
}

// Items.

/// Tells the variants of `Item` apart, and those of `Value` as far as tables in braces go.
#[verifier::external_body]
pub(crate) fn kind_of(i: &toml_edit::Item) -> (r: Kind)
    ensures
        r == tree(*i).kind(),
{
    match i {
        toml_edit::Item::None => Kind::Nothing,
        toml_edit::Item::Value(toml_edit::Value::InlineTable(_)) => Kind::Inline,
        toml_edit::Item::Value(_) => Kind::Value,
        toml_edit::Item::Table(_) => Kind::Table,
        toml_edit::Item::ArrayOfTables(_) => Kind::Tables,
    }
}

/// Calls `TableLike::iter` on the table that the item is. A table under a heading passes over its
/// empty places. No key comes twice.
#[verifier::external_body]
pub(crate) fn keys_of(i: &toml_edit::Item) -> (r: Vec<String>)
    ensures
        views(r@) == tree(*i).keys(),
        views(r@).no_duplicates(),
{
    match i.as_table_like() {
        Some(t) => t.iter().map(|(k, _)| k.to_string()).collect(),
        None => Vec::new(),
    }
}

/// Calls `TableLike::get` on the table that the item is.
#[verifier::external_body]
pub(crate) fn child_of<'a>(i: &'a toml_edit::Item, key: &str) -> (r: Option<&'a toml_edit::Item>)
    ensures
        match r {
            Some(c) => tree(*i).get(key@) == Some(tree(*c)),
            None => tree(*i).get(key@) is None,
        },
{
    i.as_table_like().and_then(|t| t.get(key))
}

/// Calls `TableLike::get_mut` on the table that the item is. What is put there takes the place of
/// what was there, and the key is left alone.
#[verifier::external_body]
pub(crate) fn child_of_mut<'a>(i: &'a mut toml_edit::Item, key: &str) -> (r: Option<
    &'a mut toml_edit::Item,
>)
    ensures
        match r {
            Some(c) => {
                let t = tree(*old(i));
                &&& t.find(key@) matches Some(at) && {
                    &&& tree(*c) == t.entries()[at].item
                    &&& tree(*final(i)) == t.with_entries(
                        t.entries().update(
                            at,
                            Entry { item: tree(*final(c)), ..t.entries()[at] },
                        ),
                    )
                }
            },
            None => tree(*old(i)).find(key@) is None && tree(*final(i)) == tree(*old(i)),
        },
{
    i.as_table_like_mut().and_then(|t| t.get_mut(key))
}

/// Calls `TableLike::insert` on the table that the item is, which resets what is around a key that
/// is there. A table in braces takes values only: it puts a table in braces and an array of tables
/// on one line, and panics on an empty item.
#[verifier::external_body]
pub(crate) fn insert_into(i: &mut toml_edit::Item, key: &str, v: toml_edit::Item)
    requires
        tree(*old(i)).is_table(),
        tree(v) !is Nothing,
    ensures
        tree(*final(i)) == tree(*old(i)).with_entries(
            put(
                tree(*old(i)).entries(),
                key@,
                if tree(*old(i)) is Inline {
                    valued(tree(v))
                } else {
                    tree(v)
                },
            ),
        ),
{
    if let Some(t) = i.as_table_like_mut() {
        t.insert(key, v);
    }
}

/// Assigns through `Item`'s `IndexMut`, which panics on an item that is no table.
#[verifier::external_body]
pub(crate) fn assign_in(i: &mut toml_edit::Item, key: &str, v: toml_edit::Item)
    requires
        tree(*old(i)).is_table(),
    ensures
        tree(*final(i)) == tree(*old(i)).with_entries(
            assigned(tree(*old(i)).entries(), key@, tree(v)),
        ),
{
    i[key] = v;
}

/// Calls `TableLike::remove` on the table that the item is.
#[verifier::external_body]
pub(crate) fn remove_from(i: &mut toml_edit::Item, key: &str)
    requires
        tree(*old(i)).is_table(),
    ensures
        tree(*final(i)) == tree(*old(i)).with_entries(
            match find_from(tree(*old(i)).entries(), key@, 0) {
                Some(at) => tree(*old(i)).entries().remove(at),
                None => tree(*old(i)).entries(),
            },
        ),
{
    if let Some(t) = i.as_table_like_mut() {
        t.remove(key);
    }
}

/// The entries whose keys are among the names.
pub open spec fn retained(e: Seq<Entry>, names: Seq<Seq<char>>) -> Seq<Entry> {
    e.filter(|x: Entry| names.contains(x.key))
}

/// Calls `Table::retain` on the table under a heading that the item is.
#[verifier::external_body]
pub(crate) fn retain_in(i: &mut toml_edit::Item, names: &Vec<String>)
    requires
        tree(*old(i)) is Table,
    ensures
        tree(*final(i)) == tree(*old(i)).with_entries(
            retained(tree(*old(i)).entries(), views(names@)),
        ),
{
    if let Some(t) = i.as_table_mut() {
        t.retain(|k, _| among(names, k));
    }
}

/// `Item`'s `Clone`, which keeps what is around everything too.
pub assume_specification[ <toml_edit::Item as Clone>::clone ](
    i: &toml_edit::Item,
) -> (r: toml_edit::Item)
    ensures
        tree(r) == tree(*i),
;

/// Calls `Decor::clear` on a copy of the value.
#[verifier::external_body]
pub(crate) fn undecorated(i: &toml_edit::Item) -> (r: toml_edit::Item)
    requires
        tree(*i).is_value(),
    ensures
        tree(r) == tree(*i).with_decor(plain()),
{
    let mut c = i.clone();
    if let Some(v) = c.as_value_mut() {
        v.decor_mut().clear();
    }
    c
}

/// Calls `Value::decor_mut`: a copy of `fresh` takes the place of `slot`, with what was around
/// `slot` around it.
#[verifier::external_body]
pub(crate) fn replace_value(slot: &mut toml_edit::Item, fresh: &toml_edit::Item)
    requires
        tree(*old(slot)).is_value(),
        tree(*fresh).is_value(),
    ensures
        tree(*final(slot)) == tree(*fresh).with_decor(tree(*old(slot)).decor()),
{
    if let (Some(old), Some(new)) = (slot.as_value(), fresh.as_value()) {
        let mut replacement = new.clone();
        *replacement.decor_mut() = old.decor().clone();
        *slot = toml_edit::Item::Value(replacement);
    }
}

/// Calls `Table::new` and `Table::decor_mut`: an empty table under a heading. Around the heading is
/// what is around that of `like`, if it has one.
#[verifier::external_body]
pub(crate) fn empty_table(like: &toml_edit::Item) -> (r: toml_edit::Item)
    ensures
        tree(r) == Tree::Table(
            Seq::empty(),
            if tree(*like) is Table {
                tree(*like).decor()
            } else {
                plain()
            },
        ),
{
    let mut out = toml_edit::Table::new();
    if let Some(t) = like.as_table() {
        *out.decor_mut() = t.decor().clone();
    }
    toml_edit::Item::Table(out)
}

/// Calls `toml_edit::table`: an empty table under a heading.
#[verifier::external_body]
pub(crate) fn new_table() -> (r: toml_edit::Item)
    ensures
        tree(r) == Tree::Table(Seq::empty(), plain()),
{
    toml_edit::table()
}

/// Calls `InlineTable::new`: an empty table in braces.
#[verifier::external_body]
pub(crate) fn new_inline() -> (r: toml_edit::Item)
    ensures
        tree(r) == Tree::Inline(Seq::empty(), plain()),
{
    toml_edit::value(toml_edit::InlineTable::new())
}

/// Calls `toml_edit::value` on a text.
#[verifier::external_body]
pub(crate) fn text_item(s: &str) -> (r: toml_edit::Item)
    ensures
        tree(r) == Tree::Value(Data::Text(s@, false), plain()),
{
    toml_edit::value(s)
}

/// Calls `toml_edit::value` on a number.
#[verifier::external_body]
pub(crate) fn integer_item(n: i64) -> (r: toml_edit::Item)
    ensures
        tree(r) == Tree::Value(Data::Integer(n), plain()),
{
    toml_edit::value(n)
}

/// Calls `Item::as_str`.
#[verifier::external_body]
pub(crate) fn text_of(i: &toml_edit::Item) -> (r: Option<String>)
    ensures
        match r {
            Some(s) => tree(*i).text() == Some(s@),
            None => tree(*i).text() is None,
        },
{
    i.as_str().map(|s| s.to_string())
}

/// Calls `Item::as_integer`.
#[verifier::external_body]
pub(crate) fn integer_of(i: &toml_edit::Item) -> (r: Option<i64>)
    ensures
        r == tree(*i).integer(),
{
    i.as_integer()
}

/// Calls `Item::get` with a place: the element there, if the item is an array that has one. The
/// elements are counted by a `usize`.
#[verifier::external_body]
pub(crate) fn element_of(i: &toml_edit::Item, at: usize) -> (r: Option<&toml_edit::Item>)
    ensures
        match r {
            Some(c) => tree(*i).element(at as int) == Some(tree(*c)) && at < usize::MAX,
            None => tree(*i).element(at as int) is None,
        },
{
    i.get(at)
}

/// Assigns through `Array::get_mut`, which gives the element in a place where there is a value.
#[verifier::external_body]
pub(crate) fn set_element(i: &mut toml_edit::Item, at: usize, n: i64)
    requires
        tree(*old(i)) is Value,
        tree(*old(i)).element(at as int) matches Some(x) && x.is_value(),
    ensures
        tree(*old(i)) matches Tree::Value(Data::Array(a), d) ==> tree(*final(i)) == Tree::Value(
            Data::Array(a.update(at as int, Tree::Value(Data::Integer(n), plain()))),
            d,
        ),
{
    if let Some(v) = i.as_array_mut().and_then(|a| a.get_mut(at)) {
        *v = toml_edit::Value::from(n);
    }
}

} // verus!
