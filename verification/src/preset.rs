//! Named sets of settings.
//!
//! A preset is just a config file with a name and a sentence about what it is for. Keeping them
//! as ordinary single files is deliberate: sharing one means sending a file, and reading one means
//! opening it in an editor.
//!
//! Presets are *settings*, not hardware. The device profile ([`crate::profile`]) says which bit is
//! Play; a preset says what Play should send. Switching preset never changes the hardware
//! description, which is why switching cannot break the panel.
//!
//! Some presets are compiled in, so a fresh install has something to choose from. A user file of
//! the same name shadows a built-in one, so a shipped preset can be adjusted without being lost.
//!
//! The files are read and written elsewhere; here stands what is read from them and written to
//! them.
use crate::config::{byte_len, config_dir, dir_of, maybe_view};
use crate::text::{
    before, chars_of, has_prefix, has_suffix, in_dir, is_white, join_path, joined, lemma_run_bound,
    lemma_run_stops, occurs, parts, place, push_joined, quotable, row_at, run, same, split_on, starts_with,
    trim_start, trimmed_start, views, Place,
};
use vstd::prelude::*;

verus! {

/// Where a preset came from.
#[derive(Debug, Clone, Copy, PartialEq, Eq, Structural)]
pub enum Origin {
    /// Compiled into the driver.
    Builtin,
    /// A file in the user's presets directory.
    User,
}

/// One preset, as listed.
#[derive(Debug, Clone)]
pub struct Entry {
    /// The name used to load it.
    pub name: String,
    /// One line describing what it is for.
    pub description: String,
    /// Where it came from.
    pub origin: Origin,
    /// Whether a user file of this name shadows a built-in one.
    pub shadows_builtin: bool,
}

/// What an [`Entry`] says.
pub struct EntryView {
    pub name: Seq<char>,
    pub description: Seq<char>,
    pub origin: Origin,
    pub shadows_builtin: bool,
}

impl View for Entry {
    type V = EntryView;

    open spec fn view(&self) -> EntryView {
        EntryView {
            name: self.name@,
            description: self.description@,
            origin: self.origin,
            shadows_builtin: self.shadows_builtin,
        }
    }
}

pub open spec fn entry_views(v: Seq<Entry>) -> Seq<EntryView> {
    v.map_values(|e: Entry| e@)
}

/// A preset's name and the text of its file.
#[derive(Debug, Clone)]
pub struct PresetFile {
    pub name: String,
    pub text: String,
}

// Names.

/// Why a name cannot be a preset's.
#[derive(Debug)]
pub enum NameError {
    /// It is empty.
    Empty,
    /// It is longer than 64 bytes.
    TooLong,
    /// It holds something other than letters, digits, `-` and `_`.
    Characters(String),
}

/// What is wrong with a name, as a model.
pub enum NameFault {
    Empty,
    TooLong,
    Characters(Seq<char>),
}

impl View for NameError {
    type V = NameFault;

    open spec fn view(&self) -> NameFault {
        match *self {
            NameError::Empty => NameFault::Empty,
            NameError::TooLong => NameFault::TooLong,
            NameError::Characters(n) => NameFault::Characters(n@),
        }
    }
}

impl NameFault {
    /// The message for it.
    pub open spec fn text(self) -> Seq<char> {
        match self {
            NameFault::Empty => "a preset name cannot be empty"@,
            NameFault::TooLong => "preset names are limited to 64 characters"@,
            NameFault::Characters(n) => NAME_CHARACTERS_TEXT@ + n + "`)"@,
        }
    }
}

/// What is said of a name with other characters.
pub const NAME_CHARACTERS_TEXT: &'static str =
    "preset names may only contain letters, digits, `-` and `_` (got `";

impl NameError {
    /// The message for it.
    pub fn message(&self) -> (r: String)
        ensures
            r@ == self@.text(),
    {
        match self {
            NameError::Empty => "a preset name cannot be empty".to_owned(),
            NameError::TooLong => "preset names are limited to 64 characters".to_owned(),
            NameError::Characters(n) => {
                let mut s = NAME_CHARACTERS_TEXT.to_owned();
                s.append(n.as_str());
                s.append("`)");
                s
            },
        }
    }
}

/// A character that a preset's name may hold.
pub open spec fn name_char(c: char) -> bool {
    'a' <= c <= 'z' || 'A' <= c <= 'Z' || '0' <= c <= '9' || c == '-' || c == '_'
}

/// What is wrong with a name.
pub open spec fn name_fault(name: Seq<char>) -> Option<NameFault> {
    if name.len() == 0 {
        Some(NameFault::Empty)
    } else if byte_len(name) > 64 {
        Some(NameFault::TooLong)
    } else if exists|i: int| 0 <= i < name.len() && !name_char(#[trigger] name[i]) {
        Some(NameFault::Characters(name))
    } else {
        None
    }
}

/// Reject a name that would escape the presets directory or confuse a shell.
///
/// Preset names arrive from a config file, a command line and eventually from whatever a friend
/// called the file they sent, so this is not a formality.
pub fn check_name(name: &str) -> (r: Result<(), NameError>)
    ensures
        match r {
            Ok(()) => name_fault(name@) is None,
            Err(e) => name_fault(name@) == Some(e@),
        },
{
    if name.is_empty() {
        return Err(NameError::Empty);
    }
    if name.len() > 64 {
        return Err(NameError::TooLong);
    }
    let cs = chars_of(name);
    let mut i: usize = 0;
    while i < cs.len()
        invariant
            cs@ == name@,
            i <= cs@.len(),
            name@.len() > 0,
            byte_len(name@) <= 64,
            forall|k: int| 0 <= k < i ==> name_char(#[trigger] name@[k]),
        decreases cs@.len() - i,
    {
        let c = cs[i];
        if !(('a' <= c && c <= 'z') || ('A' <= c && c <= 'Z') || ('0' <= c && c <= '9') || c == '-'
            || c == '_') {
            assert(!name_char(name@[i as int]));
            return Err(NameError::Characters(name.to_owned()));
        }
        i += 1;
    }
    Ok(())
}

/// A name that is accepted stays in its directory: it holds no separator, no dot and no blank.
pub proof fn law_accepted_names_stay_in_the_directory(name: Seq<char>, i: int)
    requires
        name_fault(name) is None,
        0 <= i < name.len(),
    ensures
        name[i] != '/',
        name[i] != '.',
        name[i] != ' ',
        name[i] != '\\',
        name.len() > 0,
{
    assert(name_char(name[i]));
}

// Paths.

/// The directory user presets live in.
pub fn dir(xdg: &Option<String>, home: &Option<String>) -> (r: String)
    ensures
        r@ == in_dir(dir_of(maybe_view(*xdg), maybe_view(*home)), "presets"@),
{
    let d = config_dir(xdg, home);
    join_path(d.as_str(), "presets")
}

/// Path of a user preset by name, in the directory `dir`.
pub fn path_of(dir: &str, name: &str) -> (r: Result<String, NameError>)
    ensures
        match r {
            Ok(p) => name_fault(name@) is None && p@ == in_dir(dir@, name@ + ".toml"@),
            Err(e) => name_fault(name@) == Some(e@),
        },
{
    match check_name(name) {
        Ok(()) => {},
        Err(e) => {
            return Err(e);
        },
    }
    let mut file = name.to_owned();
    file.append(".toml");
    Ok(join_path(dir, file.as_str()))
}

/// The preset that a file is, by its name: what stands before `.toml`.
pub open spec fn stem_of(file: Seq<char>) -> Option<Seq<char>> {
    let n = file.len() - 5;
    if n > 0 && file.skip(n) == ".toml"@ {
        Some(file.take(n))
    } else {
        None
    }
}

/// The preset that a file is, by its name.
pub fn preset_stem(file: &str) -> (r: Option<String>)
    ensures
        maybe_view(r) == stem_of(file@),
{
    let cs = chars_of(file);
    if cs.len() <= 5 {
        return None;
    }
    let n: usize = cs.len() - 5;
    let tail = crate::text::piece(&cs, n, cs.len());
    assert(tail@ =~= file@.skip(n as int));
    if same(tail.as_str(), ".toml") {
        let stem = crate::text::piece(&cs, 0, n);
        assert(stem@ =~= file@.take(n as int));
        Some(stem)
    } else {
        None
    }
}

// Descriptions.

/// The string under `key` in the table `section` of the TOML document that `text` is; nothing
/// where it is no document, or has no such string.
pub uninterp spec fn toml_entry(
    text: Seq<char>,
    section: Seq<char>,
    key: Seq<char>,
) -> Option<Seq<char>>;

/// `toml::Table`'s `FromStr`, and then `Table::get`, `Value::as_table` and `Value::as_str`: the
/// string under `key` in `section` depends on the text and the two names alone. How a TOML
/// document is read is not stated.
#[verifier::external_body]
fn read_toml_entry(text: &str, section: &str, key: &str) -> (r: Option<String>)
    ensures
        maybe_view(r) == toml_entry(text@, section@, key@),
{
    text.parse::<toml::Table>().ok().and_then(
        |t| t.get(section)?.as_table()?.get(key)?.as_str().map(str::to_string),
    )
}

/// What `toml::Value` writes for a string: it in quotes.
pub uninterp spec fn toml_quoted(s: Seq<char>) -> Seq<char>;

/// The `[preset]` table at the front of a preset's text, from the quoted name and description.
pub open spec fn header(quoted_name: Seq<char>, quoted_description: Seq<char>) -> Seq<char> {
    "[preset]\nname = "@ + quoted_name + "\ndescription = "@ + quoted_description + "\n\n"@
}

/// `toml::Value::from(..).to_string()` writes a string as a TOML value, which depends on the
/// string alone. A document that starts with a header in which it stands as the description, behind
/// a name written likewise, has the string for its description, if it can be read at all; the
/// header alone can be. It counts the quotes in a row in a byte, so there are never 256. Which kind
/// of quotes it takes, and what it escapes, is not stated.
#[verifier::external_body]
fn toml_string(s: &str) -> (r: String)
    requires
        quotable(s@),
    ensures
        r@ == toml_quoted(s@),
        forall|name: Seq<char>, rest: Seq<char>|
            quotable(name) ==> (#[trigger] toml_entry(
                header(toml_quoted(name), r@) + rest,
                "preset"@,
                "description"@,
            ) matches Some(d) ==> d == s@),
        forall|name: Seq<char>|
            quotable(name) ==> #[trigger] toml_entry(
                header(toml_quoted(name), r@),
                "preset"@,
                "description"@,
            ) == Some(s@),
{
    toml::Value::from(s).to_string()
}

/// A description, empty where there is none.
pub open spec fn or_empty(found: Option<Seq<char>>) -> Seq<char> {
    match found {
        Some(d) => d,
        None => Seq::empty(),
    }
}

/// The description that was found, empty where none was.
pub fn described_as(found: Option<String>) -> (r: String)
    ensures
        r@ == or_empty(maybe_view(found)),
{
    match found {
        Some(d) => d,
        None => String::new(),
    }
}

/// What a config's text says that it is for.
pub open spec fn description_of(text: Seq<char>) -> Seq<char> {
    or_empty(toml_entry(text, "preset"@, "description"@))
}

/// Read the `[preset]` header out of a config file's text.
///
/// Done by parsing rather than by string search so a description containing a bracket cannot
/// confuse it.
pub fn describe(text: &str) -> (r: String)
    ensures
        r@ == description_of(text@),
{
    described_as(read_toml_entry(text, "preset", "description"))
}

// The list.

/// Whether one of the files has that name.
pub open spec fn has_name(files: Seq<PresetFile>, name: Seq<char>) -> bool {
    exists|i: int| 0 <= i < files.len() && (#[trigger] files[i]).name@ == name
}

fn find_name(files: &[PresetFile], name: &str) -> (r: Option<usize>)
    ensures
        match r {
            Some(i) => i < files@.len() && files@[i as int].name@ == name@ && forall|k: int|
                0 <= k < i ==> (#[trigger] files@[k]).name@ != name@,
            None => !has_name(files@, name@),
        },
{
    let mut i: usize = 0;
    while i < files.len()
        invariant
            i <= files@.len(),
            forall|k: int| 0 <= k < i ==> (#[trigger] files@[k]).name@ != name@,
        decreases files@.len() - i,
    {
        if same(files[i].name.as_str(), name) {
            return Some(i);
        }
        i += 1;
    }
    None
}

/// How many entries at the front do not come after `name`.
pub open spec fn entry_slot(v: Seq<EntryView>, name: Seq<char>) -> nat
    decreases v.len(),
{
    if v.len() == 0 || before(name, v[0].name) {
        0
    } else {
        1 + entry_slot(v.skip(1), name)
    }
}

/// The entries with one more, behind those whose names do not come after its own.
pub open spec fn with_entry(v: Seq<EntryView>, e: EntryView) -> Seq<EntryView> {
    v.insert(entry_slot(v, e.name) as int, e)
}

/// The entries of the first `n` user files: those with a name that a preset can have.
pub open spec fn user_entries(
    user: Seq<PresetFile>,
    builtin: Seq<PresetFile>,
    n: int,
) -> Seq<EntryView>
    decreases n,
{
    if n <= 0 {
        Seq::empty()
    } else {
        let rest = user_entries(user, builtin, n - 1);
        let f = user[n - 1];
        if name_fault(f.name@) is None {
            with_entry(
                rest,
                EntryView {
                    name: f.name@,
                    description: description_of(f.text@),
                    origin: Origin::User,
                    shadows_builtin: has_name(builtin, f.name@),
                },
            )
        } else {
            rest
        }
    }
}

/// Whether a user file that can be a preset has that name.
pub open spec fn user_has(user: Seq<PresetFile>, name: Seq<char>) -> bool {
    name_fault(name) is None && has_name(user, name)
}

/// All entries of the user files, and those of the first `n` built-in presets that none of them
/// shadows.
pub open spec fn all_entries(
    user: Seq<PresetFile>,
    builtin: Seq<PresetFile>,
    n: int,
) -> Seq<EntryView>
    decreases n,
{
    if n <= 0 {
        user_entries(user, builtin, user.len() as int)
    } else {
        let rest = all_entries(user, builtin, n - 1);
        let f = builtin[n - 1];
        if user_has(user, f.name@) {
            rest
        } else {
            with_entry(
                rest,
                EntryView {
                    name: f.name@,
                    description: description_of(f.text@),
                    origin: Origin::Builtin,
                    shadows_builtin: false,
                },
            )
        }
    }
}

fn insert_entry(v: &mut Vec<Entry>, e: Entry)
    ensures
        entry_views(final(v)@) == with_entry(entry_views(old(v)@), e@),
{
    let mut p: usize = 0;
    let ghost all = entry_views(v@);
    assert(all.skip(0) =~= all);
    while p < v.len() && !matches!(place(e.name.as_str(), v[p].name.as_str()), Place::Before)
        invariant
            p <= v@.len(),
            v@ == old(v)@,
            all == entry_views(v@),
            entry_slot(all, e.name@) == p + entry_slot(all.skip(p as int), e.name@),
        decreases v@.len() - p,
    {
        assert(all.skip(p as int)[0] == v@[p as int]@);
        assert(all.skip(p as int).skip(1) =~= all.skip(p as int + 1));
        p += 1;
    }
    proof {
        if p < v@.len() {
            assert(all.skip(p as int)[0] == v@[p as int]@);
        }
    }
    v.insert(p, e);
    assert(entry_views(v@) =~= all.insert(p as int, e@));
}

/// Every preset available, built-in and user, sorted by name.
///
/// A user file shadows a built-in of the same name, and only the user one is listed, with a flag,
/// so the interface can say so. `user` holds the files of the user's directory.
pub fn list(user: &[PresetFile], builtin: &[PresetFile]) -> (r: Vec<Entry>)
    ensures
        entry_views(r@) == all_entries(user@, builtin@, builtin@.len() as int),
{
    let mut out: Vec<Entry> = Vec::new();
    let mut i: usize = 0;
    assert(entry_views(out@) =~= Seq::empty());
    while i < user.len()
        invariant
            i <= user@.len(),
            entry_views(out@) == user_entries(user@, builtin@, i as int),
        decreases user@.len() - i,
    {
        let f = &user[i];
        if check_name(f.name.as_str()).is_ok() {
            let e = Entry {
                name: f.name.clone(),
                description: describe(f.text.as_str()),
                origin: Origin::User,
                shadows_builtin: find_name(builtin, f.name.as_str()).is_some(),
            };
            insert_entry(&mut out, e);
        }
        i += 1;
    }
    let mut i: usize = 0;
    while i < builtin.len()
        invariant
            i <= builtin@.len(),
            entry_views(out@) == all_entries(user@, builtin@, i as int),
        decreases builtin@.len() - i,
    {
        let f = &builtin[i];
        let shadowed = check_name(f.name.as_str()).is_ok() && find_name(
            user,
            f.name.as_str(),
        ).is_some();
        if !shadowed {
            let e = Entry {
                name: f.name.clone(),
                description: describe(f.text.as_str()),
                origin: Origin::Builtin,
                shadows_builtin: false,
            };
            insert_entry(&mut out, e);
        }
        i += 1;
    }
    out
}

/// No name of the list comes before the one in front of it.
pub open spec fn names_ascend(v: Seq<EntryView>) -> bool {
    forall|i: int, j: int|
        0 <= i < j < v.len() ==> !before(#[trigger] v[j].name, #[trigger] v[i].name)
}

proof fn lemma_entry_slot(v: Seq<EntryView>, name: Seq<char>)
    ensures
        entry_slot(v, name) <= v.len(),
        entry_slot(v, name) < v.len() ==> before(name, v[entry_slot(v, name) as int].name),
        forall|i: int| 0 <= i < entry_slot(v, name) ==> !before(name, (#[trigger] v[i]).name),
    decreases v.len(),
{
    if v.len() > 0 && !before(name, v[0].name) {
        lemma_entry_slot(v.skip(1), name);
        assert forall|i: int| 0 <= i < entry_slot(v, name) implies !before(
            name,
            (#[trigger] v[i]).name,
        ) by {
            if i > 0 {
                assert(v.skip(1)[i - 1] == v[i]);
            }
        }
    }
}

proof fn lemma_with_entry_ascends(v: Seq<EntryView>, e: EntryView)
    requires
        names_ascend(v),
    ensures
        names_ascend(with_entry(v, e)),
{
    lemma_entry_slot(v, e.name);
    let p = entry_slot(v, e.name) as int;
    let w = with_entry(v, e);
    assert forall|i: int, j: int| 0 <= i < j < w.len() implies !before(
        #[trigger] w[j].name,
        #[trigger] w[i].name,
    ) by {
        let oi = if i < p {
            i
        } else {
            i - 1
        };
        let oj = if j < p {
            j
        } else {
            j - 1
        };
        if i != p {
            assert(w[i] == v[oi]);
        }
        if j != p {
            assert(w[j] == v[oj]);
        }
        if i == p {
            crate::text::lemma_before_strict(e.name, v[oj].name);
            if oj > p && before(v[oj].name, e.name) {
                crate::text::lemma_before_trans(v[oj].name, e.name, v[p].name);
                assert(!before(v[oj].name, v[p].name));
            }
        } else if j == p {
            assert(!before(e.name, v[oi].name));
        } else {
            assert(!before(v[oj].name, v[oi].name));
        }
    }
}

proof fn lemma_user_entries_ascend(user: Seq<PresetFile>, builtin: Seq<PresetFile>, n: int)
    ensures
        names_ascend(user_entries(user, builtin, n)),
    decreases n,
{
    if n > 0 {
        lemma_user_entries_ascend(user, builtin, n - 1);
        let f = user[n - 1];
        lemma_with_entry_ascends(
            user_entries(user, builtin, n - 1),
            EntryView {
                name: f.name@,
                description: description_of(f.text@),
                origin: Origin::User,
                shadows_builtin: has_name(builtin, f.name@),
            },
        );
    }
}

/// The list is sorted by name.
pub proof fn law_list_is_sorted(user: Seq<PresetFile>, builtin: Seq<PresetFile>, n: int)
    ensures
        names_ascend(all_entries(user, builtin, n)),
    decreases n,
{
    if n > 0 {
        law_list_is_sorted(user, builtin, n - 1);
        let f = builtin[n - 1];
        lemma_with_entry_ascends(
            all_entries(user, builtin, n - 1),
            EntryView {
                name: f.name@,
                description: description_of(f.text@),
                origin: Origin::Builtin,
                shadows_builtin: false,
            },
        );
    } else {
        lemma_user_entries_ascend(user, builtin, user.len() as int);
    }
}

proof fn lemma_user_entries_are_user(
    user: Seq<PresetFile>,
    builtin: Seq<PresetFile>,
    n: int,
    k: int,
)
    requires
        0 <= n <= user.len(),
        0 <= k < user_entries(user, builtin, n).len(),
    ensures
        user_entries(user, builtin, n)[k].origin is User,
    decreases n,
{
    if n > 0 {
        let rest = user_entries(user, builtin, n - 1);
        let f = user[n - 1];
        if name_fault(f.name@) is None {
            lemma_entry_slot(rest, f.name@);
            let p = entry_slot(rest, f.name@) as int;
            if k != p {
                lemma_user_entries_are_user(
                    user,
                    builtin,
                    n - 1,
                    if k < p {
                        k
                    } else {
                        k - 1
                    },
                );
            }
        } else {
            lemma_user_entries_are_user(user, builtin, n - 1, k);
        }
    }
}

/// A built-in preset that a user file shadows is not listed.
pub proof fn law_shadowed_presets_are_not_listed(
    user: Seq<PresetFile>,
    builtin: Seq<PresetFile>,
    n: int,
    k: int,
)
    requires
        0 <= n <= builtin.len(),
        0 <= k < all_entries(user, builtin, n).len(),
        all_entries(user, builtin, n)[k].origin is Builtin,
    ensures
        !user_has(user, all_entries(user, builtin, n)[k].name),
        !all_entries(user, builtin, n)[k].shadows_builtin,
    decreases n,
{
    if n <= 0 {
        lemma_user_entries_are_user(user, builtin, user.len() as int, k);
    } else {
        let rest = all_entries(user, builtin, n - 1);
        let f = builtin[n - 1];
        if user_has(user, f.name@) {
            law_shadowed_presets_are_not_listed(user, builtin, n - 1, k);
        } else {
            lemma_entry_slot(rest, f.name@);
            let p = entry_slot(rest, f.name@) as int;
            if k != p {
                law_shadowed_presets_are_not_listed(
                    user,
                    builtin,
                    n - 1,
                    if k < p {
                        k
                    } else {
                        k - 1
                    },
                );
            }
        }
    }
}

// Reading, deleting, saving.

/// Why a preset cannot be read, deleted or saved.
#[derive(Debug)]
pub enum PresetError {
    /// The name is not one that a preset can have.
    Name(NameError),
    /// There is none of that name; the ones that there are.
    Missing(String, Vec<String>),
    /// It is built in.
    BuiltIn(String),
    /// There is none of that name to delete.
    Unknown(String),
}

/// What is wrong with a request for a preset, as a model.
pub enum PresetFault {
    Name(NameFault),
    Missing(Seq<char>, Seq<Seq<char>>),
    BuiltIn(Seq<char>),
    Unknown(Seq<char>),
}

impl View for PresetError {
    type V = PresetFault;

    open spec fn view(&self) -> PresetFault {
        match *self {
            PresetError::Name(e) => PresetFault::Name(e@),
            PresetError::Missing(n, v) => PresetFault::Missing(n@, views(v@)),
            PresetError::BuiltIn(n) => PresetFault::BuiltIn(n@),
            PresetError::Unknown(n) => PresetFault::Unknown(n@),
        }
    }
}

impl PresetFault {
    /// The message for it.
    pub open spec fn text(self) -> Seq<char> {
        match self {
            PresetFault::Name(f) => f.text(),
            PresetFault::Missing(n, v) => "no preset called `"@ + n + "`. Available: "@ + joined(
                v,
                ", "@,
                v.len() as int,
            ),
            PresetFault::BuiltIn(n) => "`"@ + n + "` is built in and cannot be deleted"@,
            PresetFault::Unknown(n) => "no preset called `"@ + n + "`"@,
        }
    }
}

impl PresetError {
    /// The message for it.
    pub fn message(&self) -> (r: String)
        ensures
            r@ == self@.text(),
    {
        match self {
            PresetError::Name(e) => e.message(),
            PresetError::Missing(n, v) => {
                let mut s = "no preset called `".to_owned();
                s.append(n.as_str());
                s.append("`. Available: ");
                push_joined(&mut s, v, ", ");
                assert(views(v@).len() == v@.len());
                assert(s@ =~= self@.text());
                s
            },
            PresetError::BuiltIn(n) => {
                let mut s = "`".to_owned();
                s.append(n.as_str());
                s.append("` is built in and cannot be deleted");
                s
            },
            PresetError::Unknown(n) => {
                let mut s = "no preset called `".to_owned();
                s.append(n.as_str());
                s.append("`");
                s
            },
        }
    }
}

/// The text of the first of the files with that name.
pub open spec fn text_named(files: Seq<PresetFile>, name: Seq<char>) -> Option<Seq<char>>
    decreases files.len(),
{
    if files.len() == 0 {
        None
    } else if files[0].name@ == name {
        Some(files[0].text@)
    } else {
        text_named(files.skip(1), name)
    }
}

proof fn lemma_text_named(files: Seq<PresetFile>, name: Seq<char>, i: int)
    requires
        0 <= i <= files.len(),
        i < files.len() ==> files[i].name@ == name,
        forall|k: int| 0 <= k < i ==> (#[trigger] files[k]).name@ != name,
    ensures
        text_named(files, name) == if i < files.len() {
            Some(files[i].text@)
        } else {
            None
        },
    decreases files.len(),
{
    if files.len() > 0 && i > 0 {
        assert(files.skip(1)[i - 1] == files[i] || i == files.len());
        assert forall|k: int| 0 <= k < i - 1 implies (#[trigger] files.skip(1)[k]).name@ != name by {
            assert(files.skip(1)[k] == files[k + 1]);
        }
        lemma_text_named(files.skip(1), name, i - 1);
    }
}

/// The names of the entries, in order.
pub open spec fn entry_names(v: Seq<Entry>) -> Seq<Seq<char>> {
    v.map_values(|e: Entry| e.name@)
}

fn names_of(v: &Vec<Entry>) -> (r: Vec<String>)
    ensures
        views(r@) == entry_names(v@),
{
    let mut out: Vec<String> = Vec::new();
    let mut i: usize = 0;
    while i < v.len()
        invariant
            i <= v@.len(),
            views(out@) =~= entry_names(v@.take(i as int)),
        decreases v@.len() - i,
    {
        let ghost prior = out@;
        out.push(v[i].name.clone());
        assert(views(out@) =~= views(prior).push(v@[i as int].name@));
        assert(entry_names(v@.take(i as int + 1)) =~= entry_names(v@.take(i as int)).push(
            v@[i as int].name@,
        ));
        i += 1;
    }
    assert(v@.take(v@.len() as int) =~= v@);
    out
}

/// The text of a preset, preferring a user file over a built-in.
///
/// `user` is what the user's file of that name holds, where there is one, and `listed` are the
/// presets that there are.
pub fn read(
    name: &str,
    user: Option<String>,
    builtin: &[PresetFile],
    listed: &Vec<Entry>,
) -> (r: Result<String, PresetError>)
    ensures
        match r {
            Ok(t) => name_fault(name@) is None && Some(t@) == (match user {
                Some(u) => Some(u@),
                None => text_named(builtin@, name@),
            }),
            Err(e) => match name_fault(name@) {
                Some(f) => e@ == PresetFault::Name(f),
                None => user is None && text_named(builtin@, name@) is None && e@
                    == PresetFault::Missing(name@, entry_names(listed@)),
            },
        },
{
    match check_name(name) {
        Ok(()) => {},
        Err(e) => {
            return Err(PresetError::Name(e));
        },
    }
    match user {
        Some(text) => Ok(text),
        None => match find_name(builtin, name) {
            Some(i) => {
                proof {
                    lemma_text_named(builtin@, name@, i as int);
                }
                Ok(builtin[i].text.clone())
            },
            None => {
                proof {
                    lemma_text_named(builtin@, name@, builtin@.len() as int);
                }
                Err(PresetError::Missing(name.to_owned(), names_of(listed)))
            },
        },
    }
}

/// Whether a user preset can be deleted: its file has to exist. Built-in presets cannot be deleted,
/// only shadowed.
pub fn check_delete(
    name: &str,
    exists_file: bool,
    builtin: &[PresetFile],
) -> (r: Result<(), PresetError>)
    ensures
        match r {
            Ok(()) => name_fault(name@) is None && exists_file,
            Err(e) => match name_fault(name@) {
                Some(f) => e@ == PresetFault::Name(f),
                None => !exists_file && e@ == (if has_name(builtin@, name@) {
                    PresetFault::BuiltIn(name@)
                } else {
                    PresetFault::Unknown(name@)
                }),
            },
        },
{
    match check_name(name) {
        Ok(()) => {},
        Err(e) => {
            return Err(PresetError::Name(e));
        },
    }
    if exists_file {
        return Ok(());
    }
    match find_name(builtin, name) {
        Some(_) => Err(PresetError::BuiltIn(name.to_owned())),
        None => Err(PresetError::Unknown(name.to_owned())),
    }
}

/// The lines of a text as they stand between its line feeds. What follows the last one is a line
/// only if it is not empty.
pub open spec fn rows(s: Seq<char>) -> Seq<Seq<char>>
    decreases s.len(),
{
    if s.len() == 0 {
        Seq::empty()
    } else if s.contains('\n') {
        let n = s.index_of_first('\n').unwrap();
        if 0 <= n < s.len() {
            seq![s.take(n)] + rows(s.skip(n + 1))
        } else {
            Seq::empty()
        }
    } else {
        seq![s]
    }
}

proof fn lemma_rows_are_parts(s: Seq<char>)
    ensures
        parts(s, '\n') == rows(s) + (if s.len() == 0 || s.last() == '\n' {
            seq![Seq::<char>::empty()]
        } else {
            Seq::empty()
        }),
    decreases s.len(),
{
    if s.contains('\n') {
        s.index_of_first_ensures('\n');
        let n = s.index_of_first('\n').unwrap();
        let rest = s.skip(n + 1);
        lemma_rows_are_parts(rest);
        if rest.len() > 0 {
            assert(rest.last() == s.last());
        } else {
            assert(s.last() == s[n]);
        }
    } else if s.len() > 0 {
        assert(s.contains(s.last()));
    } else {
        assert(s =~= Seq::empty());
    }
    assert(parts(s, '\n') =~= rows(s) + (if s.len() == 0 || s.last() == '\n' {
        seq![Seq::<char>::empty()]
    } else {
        Seq::empty()
    }));
}

fn split_rows(s: &str) -> (r: Vec<String>)
    ensures
        views(r@) == rows(s@),
{
    let mut v = split_on(s, '\n');
    proof {
        lemma_rows_are_parts(s@);
        lemma_last_part(s@);
    }
    let n: usize = v.len();
    assert(views(v@).last() == v@.last()@);
    if v[n - 1].as_str().is_empty() {
        let ghost all = views(v@);
        v.pop();
        assert(views(v@) =~= all.drop_last());
        assert(all.drop_last() =~= rows(s@));
    }
    assert(views(v@) =~= rows(s@));
    v
}

proof fn lemma_last_part(s: Seq<char>)
    ensures
        parts(s, '\n').len() > 0,
        (parts(s, '\n').last().len() == 0) == (s.len() == 0 || s.last() == '\n'),
    decreases s.len(),
{
    if s.contains('\n') {
        s.index_of_first_ensures('\n');
        let n = s.index_of_first('\n').unwrap();
        let rest = s.skip(n + 1);
        lemma_last_part(rest);
        if rest.len() > 0 {
            assert(rest.last() == s.last());
        } else {
            assert(s.last() == s[n]);
        }
    } else if s.len() > 0 {
        assert(s.contains(s.last()));
    }
}

/// Whether a line opens a table.
pub open spec fn opens(l: Seq<char>) -> bool {
    has_prefix(trimmed_start(l), "["@)
}

/// Whether a line opens the `[preset]` table.
pub open spec fn opens_preset(l: Seq<char>) -> bool {
    has_prefix(trimmed_start(l), "[preset]"@)
}

/// Whether a line is blank or a comment.
pub open spec fn remarks(l: Seq<char>) -> bool {
    trimmed_start(l).len() == 0 || has_prefix(trimmed_start(l), "#"@)
}

/// Whether there is nothing but blanks and comments from line `i` on, up to the next table or the
/// end.
pub open spec fn trails(ls: Seq<Seq<char>>, i: int) -> bool
    decreases ls.len() - i,
{
    i >= ls.len() || opens(ls[i]) || (remarks(ls[i]) && trails(ls, i + 1))
}

/// Whether the line after the first `n` is in the `[preset]` table: the last line among them that
/// opens a table opens that one.
pub open spec fn in_header(ls: Seq<Seq<char>>, n: int) -> bool
    decreases n,
{
    if n <= 0 {
        false
    } else if opens(ls[n - 1]) {
        opens_preset(ls[n - 1])
    } else {
        in_header(ls, n - 1)
    }
}

/// Whether line `i` belongs to the `[preset]` table. The comments above the next table do not.
pub open spec fn of_header(ls: Seq<Seq<char>>, i: int) -> bool {
    in_header(ls, i + 1) && !(remarks(ls[i]) && trails(ls, i + 1))
}

/// Those of the first `n` lines that are not of the `[preset]` table.
pub open spec fn kept(ls: Seq<Seq<char>>, n: int) -> Seq<Seq<char>>
    decreases n,
{
    if n <= 0 {
        Seq::empty()
    } else if of_header(ls, n - 1) {
        kept(ls, n - 1)
    } else {
        kept(ls, n - 1).push(ls[n - 1])
    }
}

/// The lines, each with a line feed behind it.
pub open spec fn unlines(ls: Seq<Seq<char>>) -> Seq<char>
    decreases ls.len(),
{
    if ls.len() == 0 {
        Seq::empty()
    } else {
        unlines(ls.drop_last()) + ls.last() + "\n"@
    }
}

/// A config's text without its `[preset]` table, and without blanks at its front.
pub open spec fn body_of(text: Seq<char>) -> Seq<char> {
    trimmed_start(unlines(kept(rows(text), rows(text).len() as int)))
}

/// For each line, and for the end, whether only blanks and comments follow up to the next table.
fn trail_marks(ls: &Vec<String>) -> (r: Vec<bool>)
    ensures
        r@.len() == ls@.len() + 1,
        forall|i: int| 0 <= i <= ls@.len() ==> #[trigger] r@[i] == trails(views(ls@), i),
{
    let n: usize = ls.len();
    let ghost all = views(ls@);
    let mut r: Vec<bool> = Vec::new();
    let mut i: usize = 0;
    while i < n
        invariant
            i <= n == ls@.len(),
            r@.len() == i,
        decreases n - i,
    {
        r.push(true);
        i += 1;
    }
    r.push(true);
    while i > 0
        invariant
            i <= n == ls@.len(),
            r@.len() == n + 1,
            all == views(ls@),
            forall|k: int| i <= k <= n ==> #[trigger] r@[k] == trails(all, k),
        decreases i,
    {
        i -= 1;
        assert(all[i as int] == ls@[i as int]@);
        let t = trim_start(ls[i].as_str());
        let quiet = t.as_str().is_empty() || starts_with(t.as_str(), "#");
        let v = starts_with(t.as_str(), "[") || (quiet && r[i + 1]);
        r.set(i, v);
    }
    r
}

/// Remove a leading `[preset]` table, so a fresh one can be written. The comments between it and the
/// next table stay: they are about what follows.
pub fn strip_header(text: &str) -> (r: String)
    ensures
        r@ == body_of(text@),
{
    let ls = split_rows(text);
    let marks = trail_marks(&ls);
    let ghost all = rows(text@);
    let mut out = String::new();
    let mut inside = false;
    let mut i: usize = 0;
    while i < ls.len()
        invariant
            views(ls@) == all,
            marks@.len() == ls@.len() + 1,
            forall|k: int| 0 <= k <= ls@.len() ==> #[trigger] marks@[k] == trails(all, k),
            i <= ls@.len(),
            inside == in_header(all, i as int),
            out@ =~= unlines(kept(all, i as int)),
        decreases ls@.len() - i,
    {
        assert(all[i as int] == ls@[i as int]@);
        let line = ls[i].as_str();
        let t = trim_start(line);
        if starts_with(t.as_str(), "[") {
            inside = starts_with(t.as_str(), "[preset]");
        }
        let quiet = t.as_str().is_empty() || starts_with(t.as_str(), "#");
        if !inside || (quiet && marks[i + 1]) {
            out.append(line);
            out.append("\n");
            assert(kept(all, i + 1).drop_last() =~= kept(all, i as int));
        }
        i += 1;
    }
    assert(all.len() == ls@.len());
    trim_start(out.as_str())
}

proof fn lemma_remarks_open_nothing(l: Seq<char>)
    ensures
        opens_preset(l) ==> opens(l),
        remarks(l) ==> !opens(l),
{
    let t = trimmed_start(l);
    reveal_strlit("[");
    reveal_strlit("#");
    reveal_strlit("[preset]");
    if opens_preset(l) {
        assert(t.take(8)[0] == "[preset]"@[0]);
        assert(t.take(1) =~= "["@);
    }
    if t.len() > 0 {
        assert(t.take(1)[0] == t[0]);
    }
}

/// What is left when the header is removed opens no `[preset]` table, so that a fresh one never
/// stacks on an old one.
pub proof fn law_no_header_is_left(ls: Seq<Seq<char>>, n: int, k: int)
    requires
        0 <= n <= ls.len(),
        0 <= k < kept(ls, n).len(),
    ensures
        !opens_preset(kept(ls, n)[k]),
    decreases n,
{
    if n > 0 {
        let rest = kept(ls, n - 1);
        if k < rest.len() {
            law_no_header_is_left(ls, n - 1, k);
        } else {
            lemma_remarks_open_nothing(ls[n - 1]);
        }
    }
}

/// A text without a `[preset]` table keeps every line.
pub proof fn law_other_lines_are_kept(ls: Seq<Seq<char>>, n: int)
    requires
        0 <= n <= ls.len(),
        forall|i: int| 0 <= i < ls.len() ==> !opens_preset(#[trigger] ls[i]),
    ensures
        kept(ls, n) == ls.take(n),
        !in_header(ls, n),
    decreases n,
{
    if n > 0 {
        law_other_lines_are_kept(ls, n - 1);
        assert(!opens_preset(ls[n - 1]));
        assert(ls.take(n) =~= ls.take(n - 1).push(ls[n - 1]));
    } else {
        assert(ls.take(0) =~= Seq::empty());
    }
}

/// Comments above a table are kept, wherever the `[preset]` table stands: no run of blanks and
/// comments that reaches the next table or the end loses a line.
pub proof fn law_comments_above_tables_are_kept(ls: Seq<Seq<char>>, i: int)
    requires
        0 <= i < ls.len(),
        remarks(ls[i]),
        trails(ls, i),
    ensures
        kept(ls, i + 1) == kept(ls, i).push(ls[i]),
{
    lemma_remarks_open_nothing(ls[i]);
}

proof fn lemma_rows_join(a: Seq<char>, b: Seq<char>)
    requires
        a.len() > 0,
        a.last() == '\n',
    ensures
        rows(a + b) == rows(a) + rows(b),
    decreases a.len(),
{
    let s = a + b;
    assert(a.contains(a[a.len() - 1]));
    assert(s[a.len() - 1] == '\n');
    a.index_of_first_ensures('\n');
    s.index_of_first_ensures('\n');
    let n = a.index_of_first('\n').unwrap();
    let m = s.index_of_first('\n').unwrap();
    assert(s[n] == a[n]);
    assert(s[m] == '\n');
    assert(m <= n);
    assert(a[m] == s[m]);
    assert(n == m);
    assert(s.take(n) =~= a.take(n));
    assert(s.skip(n + 1) =~= a.skip(n + 1) + b);
    if n + 1 < a.len() {
        lemma_rows_join(a.skip(n + 1), b);
    } else {
        assert(a.skip(n + 1) =~= Seq::empty());
        assert(a.skip(n + 1) + b =~= b);
    }
    assert(rows(s) =~= rows(a) + rows(b));
}

proof fn lemma_unlines_join(a: Seq<Seq<char>>, b: Seq<Seq<char>>)
    ensures
        unlines(a + b) == unlines(a) + unlines(b),
    decreases b.len(),
{
    if b.len() > 0 {
        lemma_unlines_join(a, b.drop_last());
        assert((a + b).drop_last() =~= a + b.drop_last());
        assert((a + b).last() == b.last());
    } else {
        assert(a + b =~= a);
    }
    assert(unlines(a + b) =~= unlines(a) + unlines(b));
}

/// A text of whole lines is made of its lines.
proof fn lemma_rows_of_text(s: Seq<char>)
    requires
        s.len() > 0 ==> s.last() == '\n',
    ensures
        unlines(rows(s)) == s,
    decreases s.len(),
{
    if s.len() > 0 {
        assert(s.contains(s[s.len() - 1]));
        s.index_of_first_ensures('\n');
        let n = s.index_of_first('\n').unwrap();
        let first = s.take(n);
        let rest = s.skip(n + 1);
        reveal_strlit("\n");
        lemma_rows_of_text(rest);
        lemma_unlines_join(seq![first], rows(rest));
        reveal_with_fuel(unlines, 2);
        assert(seq![first].drop_last() =~= Seq::empty());
        assert(unlines(seq![first]) =~= first + "\n"@);
        assert(first + "\n"@ + rest =~= s);
    }
}

/// Copying a text without a `[preset]` table changes nothing but the blanks at its front, and ends
/// its last line.
pub proof fn law_the_rest_is_copied(text: Seq<char>)
    requires
        text.len() > 0 ==> text.last() == '\n',
        forall|i: int| 0 <= i < rows(text).len() ==> !opens_preset(#[trigger] rows(text)[i]),
    ensures
        body_of(text) == trimmed_start(text),
{
    let ls = rows(text);
    law_other_lines_are_kept(ls, ls.len() as int);
    assert(ls.take(ls.len() as int) =~= ls);
    lemma_rows_of_text(text);
}

proof fn lemma_blank_front(w: Seq<char>, s: Seq<char>)
    requires
        forall|i: int| 0 <= i < w.len() ==> is_white(#[trigger] w[i]),
    ensures
        trimmed_start(w + s) == trimmed_start(s),
    decreases w.len(),
{
    if w.len() > 0 {
        assert((w + s)[0] == w[0]);
        assert((w + s).skip(1) =~= w.skip(1) + s);
        lemma_blank_front(w.skip(1), s);
        lemma_run_bound(w.skip(1) + s, true);
        assert(trimmed_start(w + s) =~= trimmed_start(w.skip(1) + s));
    } else {
        assert(w + s =~= s);
    }
}

proof fn lemma_blank_lines(ls: Seq<Seq<char>>)
    requires
        forall|i: int| 0 <= i < ls.len() ==> trimmed_start(#[trigger] ls[i]).len() == 0,
    ensures
        forall|k: int| 0 <= k < unlines(ls).len() ==> is_white(#[trigger] unlines(ls)[k]),
    decreases ls.len(),
{
    if ls.len() > 0 {
        let l = ls.last();
        assert forall|i: int| 0 <= i < ls.drop_last().len() implies trimmed_start(
            #[trigger] ls.drop_last()[i],
        ).len() == 0 by {
            assert(ls.drop_last()[i] == ls[i]);
        }
        lemma_blank_lines(ls.drop_last());
        assert(trimmed_start(ls[ls.len() - 1]).len() == 0);
        lemma_run_stops(l, true);
        reveal_strlit("\n");
        let a = unlines(ls.drop_last());
        assert(run(l, true) == l.len());
        assert forall|k: int| 0 <= k < unlines(ls).len() implies is_white(
            #[trigger] unlines(ls)[k],
        ) by {
            if k < a.len() {
                assert(unlines(ls)[k] == a[k]);
            } else if k < a.len() + l.len() {
                assert(unlines(ls)[k] == l[k - a.len()]);
            } else {
                assert(unlines(ls)[k] == '\n');
            }
        }
    }
}

/// A header that was written in front of settings is taken off again, and nothing else with it. Of
/// the header, whose name and description open no other table, only blank lines could be taken for
/// a part of what follows; and the settings start with a table or with comments above one, and hold
/// no `[preset]` table.
pub proof fn law_a_written_header_is_removed(
    quoted_name: Seq<char>,
    quoted_description: Seq<char>,
    settings: Seq<char>,
)
    requires
        ({
            let hl = rows(header(quoted_name, quoted_description));
            &&& forall|i: int| 0 < i <= hl.len() ==> #[trigger] in_header(hl, i)
            &&& forall|i: int|
                0 <= i < hl.len() && !of_header(hl, i) ==> trimmed_start(#[trigger] hl[i]).len()
                    == 0
        }),
        trimmed_start(settings) == settings,
        settings.len() > 0 ==> settings.last() == '\n',
        trails(rows(settings), 0),
        forall|i: int|
            0 <= i < rows(settings).len() ==> !opens_preset(#[trigger] rows(settings)[i]),
    ensures
        body_of(header(quoted_name, quoted_description) + settings) == settings,
{
    let h = header(quoted_name, quoted_description);
    let hl = rows(h);
    let sl = rows(settings);
    reveal_strlit("\n\n");
    assert(h.last() == '\n');
    lemma_rows_join(h, settings);
    assert forall|i: int| 0 <= i <= hl.len() implies #[trigger] trails(hl + sl, i) == trails(
        hl,
        i,
    ) by {
        lemma_trails_join(hl, sl, i);
    }
    lemma_header_is_dropped(hl, sl, hl.len() as int);
    lemma_settings_are_kept(hl, sl, sl.len() as int);
    let front = kept(hl + sl, hl.len() as int);
    assert(sl.take(sl.len() as int) =~= sl);
    lemma_unlines_join(front, sl);
    lemma_rows_of_text(settings);
    lemma_blank_lines(front);
    lemma_blank_front(unlines(front), settings);
}

proof fn lemma_trails_behind(hl: Seq<Seq<char>>, sl: Seq<Seq<char>>, i: int)
    requires
        0 <= i <= sl.len(),
    ensures
        trails(hl + sl, hl.len() + i) == trails(sl, i),
    decreases sl.len() - i,
{
    if i < sl.len() {
        assert((hl + sl)[hl.len() + i] == sl[i]);
        lemma_trails_behind(hl, sl, i + 1);
    }
}

proof fn lemma_trails_join(hl: Seq<Seq<char>>, sl: Seq<Seq<char>>, i: int)
    requires
        0 <= i <= hl.len(),
        trails(sl, 0),
    ensures
        trails(hl + sl, i) == trails(hl, i),
    decreases hl.len() - i,
{
    if i < hl.len() {
        assert((hl + sl)[i] == hl[i]);
        lemma_trails_join(hl, sl, i + 1);
    } else {
        lemma_trails_behind(hl, sl, 0);
    }
}

proof fn lemma_header_is_dropped(hl: Seq<Seq<char>>, sl: Seq<Seq<char>>, n: int)
    requires
        0 <= n <= hl.len(),
        forall|i: int| 0 <= i <= hl.len() ==> #[trigger] trails(hl + sl, i) == trails(hl, i),
        forall|i: int|
            0 <= i < hl.len() && !of_header(hl, i) ==> trimmed_start(#[trigger] hl[i]).len() == 0,
    ensures
        in_header(hl + sl, n) == in_header(hl, n),
        forall|k: int|
            0 <= k < kept(hl + sl, n).len() ==> trimmed_start(#[trigger] kept(hl + sl, n)[k]).len()
                == 0,
    decreases n,
{
    if n > 0 {
        lemma_header_is_dropped(hl, sl, n - 1);
        assert((hl + sl)[n - 1] == hl[n - 1]);
        assert(trails(hl + sl, n) == trails(hl, n));
        assert(in_header(hl + sl, n) == in_header(hl, n));
        assert(of_header(hl + sl, n - 1) == of_header(hl, n - 1));
        let rest = kept(hl + sl, n - 1);
        assert forall|k: int| 0 <= k < kept(hl + sl, n).len() implies trimmed_start(
            #[trigger] kept(hl + sl, n)[k],
        ).len() == 0 by {
            if k < rest.len() {
                assert(trimmed_start(rest[k]).len() == 0);
            } else {
                assert(trimmed_start(hl[n - 1]).len() == 0);
            }
        }
    }
}

proof fn lemma_settings_are_kept(hl: Seq<Seq<char>>, sl: Seq<Seq<char>>, n: int)
    requires
        0 <= n <= sl.len(),
        trails(sl, 0),
        forall|i: int| 0 <= i < sl.len() ==> !opens_preset(#[trigger] sl[i]),
    ensures
        kept(hl + sl, hl.len() + n) == kept(hl + sl, hl.len() as int) + sl.take(n),
        in_header(hl + sl, hl.len() + n) ==> trails(sl, n),
    decreases n,
{
    let all = hl + sl;
    if n > 0 {
        lemma_settings_are_kept(hl, sl, n - 1);
        assert(all[hl.len() + n - 1] == sl[n - 1]);
        assert(!opens_preset(sl[n - 1]));
        lemma_trails_behind(hl, sl, n);
        assert(sl.take(n) =~= sl.take(n - 1).push(sl[n - 1]));
        assert(!of_header(all, hl.len() + n - 1));
        assert(kept(all, hl.len() + n) =~= kept(all, hl.len() as int) + sl.take(n));
    } else {
        assert(sl.take(0) =~= Seq::empty());
        assert(kept(all, hl.len() as int) =~= kept(all, hl.len() as int) + sl.take(0));
    }
}

/// The text of a preset of that name and description with the settings of `text`.
pub open spec fn composed(
    quoted_name: Seq<char>,
    quoted_description: Seq<char>,
    text: Seq<char>,
) -> Seq<char> {
    header(quoted_name, quoted_description) + body_of(text)
}

/// Composes a preset's text from the quoted name and description and the settings of `text`.
pub fn compose_quoted(quoted_name: &str, quoted_description: &str, text: &str) -> (r: String)
    ensures
        r@ == composed(quoted_name@, quoted_description@, text@),
{
    let mut s = "[preset]\nname = ".to_owned();
    s.append(quoted_name);
    s.append("\ndescription = ");
    s.append(quoted_description);
    s.append("\n\n");
    assert(s@ =~= header(quoted_name@, quoted_description@));
    let body = strip_header(text);
    s.append(body.as_str());
    s
}

/// A name that a preset can have holds no quotes.
proof fn lemma_names_are_quotable(name: Seq<char>)
    requires
        name_fault(name) is None,
    ensures
        quotable(name),
{
    assert forall|c: char, i: int| c == '\'' || c == '"' implies !#[trigger] row_at(name, c, 256, i) by {
        if row_at(name, c, 256, i) {
            assert(name[i] == c);
            assert(name_char(name[i]));
        }
    }
}

/// The text to save the current config as a named preset.
///
/// The `[preset]` header is rewritten so the saved file describes itself; the rest of the file,
/// comments included, is copied as it stands. What is saved has that description, if it can be read
/// at all. It has to be one that the TOML writer can put in quotes, which
/// [`is_quotable`](crate::text::is_quotable) tells.
pub fn compose(name: &str, description: &str, text: &str) -> (r: Result<String, PresetError>)
    requires
        name_fault(name@) is None ==> quotable(description@),
    ensures
        match r {
            Ok(t) => {
                &&& name_fault(name@) is None
                &&& t@ == composed(toml_quoted(name@), toml_quoted(description@), text@)
                &&& toml_entry(t@, "preset"@, "description"@) matches Some(d) ==> d == description@
                &&& body_of(text@).len() == 0 ==> description_of(t@) == description@
            },
            Err(e) => name_fault(name@) matches Some(f) && e@ == PresetFault::Name(f),
        },
{
    match check_name(name) {
        Ok(()) => {},
        Err(e) => {
            return Err(PresetError::Name(e));
        },
    }
    proof {
        lemma_names_are_quotable(name@);
    }
    let n = toml_string(name);
    let d = toml_string(description);
    let t = compose_quoted(n.as_str(), d.as_str(), text);
    proof {
        if body_of(text@).len() == 0 {
            assert(t@ =~= header(toml_quoted(name@), d@));
        }
    }
    Ok(t)
}

// What a list of presets promises.

/// A name is accepted if, and only if, it has something in it, is no longer than 64 bytes, and holds
/// nothing but letters, digits, dashes and underscores.
pub proof fn law_plain_names_are_accepted(name: Seq<char>)
    ensures
        name_fault(name) is None <==> {
            &&& name.len() > 0
            &&& byte_len(name) <= 64
            &&& forall|i: int|
                0 <= i < name.len() ==> {
                    let c = #[trigger] name[i];
                    ('a' <= c && c <= 'z') || ('A' <= c && c <= 'Z') || ('0' <= c && c <= '9') || c
                        == '-' || c == '_'
                }
        },
        name_fault(name) == Some(NameFault::Empty) <==> name.len() == 0,
{
    assert(forall|i: int|
        0 <= i < name.len() ==> (name_char(#[trigger] name[i]) <==> name_char(name[i])));
}

/// The file of a preset is named after it: the name is read back from the file's, and a file with
/// another ending is no preset.
pub proof fn law_a_file_is_named_after_its_preset(name: Seq<char>, file: Seq<char>)
    ensures
        name.len() > 0 ==> stem_of(name + ".toml"@) == Some(name),
        stem_of(file) matches Some(s) ==> file == s + ".toml"@ && s.len() > 0,
{
    reveal_strlit(".toml");
    let f = name + ".toml"@;
    assert(f.skip(f.len() - 5) =~= ".toml"@);
    assert(f.take(f.len() - 5) =~= name);
    if let Some(s) = stem_of(file) {
        assert(file =~= s + ".toml"@);
    }
}

proof fn lemma_with_entry_contains(v: Seq<EntryView>, e: EntryView)
    ensures
        with_entry(v, e).contains(e),
        with_entry(v, e).len() == v.len() + 1,
        forall|x: EntryView| v.contains(x) ==> #[trigger] with_entry(v, e).contains(x),
{
    lemma_entry_slot(v, e.name);
    let p = entry_slot(v, e.name) as int;
    let w = with_entry(v, e);
    assert(w[p] == e);
    assert forall|x: EntryView| v.contains(x) implies #[trigger] w.contains(x) by {
        let k = v.index_of(x);
        assert(v[k] == x);
        if k < p {
            assert(w[k] == x);
        } else {
            assert(w[k + 1] == x);
        }
    }
}

/// Every file of the user's with an acceptable name is listed as theirs, with its description, and
/// whether a built-in preset has the name too.
pub proof fn law_every_user_preset_is_listed(
    user: Seq<PresetFile>,
    builtin: Seq<PresetFile>,
    n: int,
    i: int,
    shadows: bool,
)
    requires
        0 <= i < user.len(),
        n <= builtin.len(),
        name_fault(user[i].name@) is None,
        shadows <==> exists|j: int|
            0 <= j < builtin.len() && (#[trigger] builtin[j]).name@ == user[i].name@,
    ensures
        all_entries(user, builtin, n).contains(
            (EntryView {
                name: user[i].name@,
                description: description_of(user[i].text@),
                origin: Origin::User,
                shadows_builtin: shadows,
            }),
        ),
    decreases n,
{
    if n <= 0 {
        lemma_user_listed(user, builtin, user.len() as int, i);
        assert(shadows == has_name(builtin, user[i].name@));
    } else {
        law_every_user_preset_is_listed(user, builtin, n - 1, i, shadows);
        let f = builtin[n - 1];
        lemma_with_entry_contains(
            all_entries(user, builtin, n - 1),
            EntryView {
                name: f.name@,
                description: description_of(f.text@),
                origin: Origin::Builtin,
                shadows_builtin: false,
            },
        );
    }
}

proof fn lemma_user_listed(user: Seq<PresetFile>, builtin: Seq<PresetFile>, n: int, i: int)
    requires
        0 <= i < n <= user.len(),
        name_fault(user[i].name@) is None,
    ensures
        user_entries(user, builtin, n).contains(
            (EntryView {
                name: user[i].name@,
                description: description_of(user[i].text@),
                origin: Origin::User,
                shadows_builtin: has_name(builtin, user[i].name@),
            }),
        ),
    decreases n,
{
    let f = user[n - 1];
    lemma_with_entry_contains(
        user_entries(user, builtin, n - 1),
        EntryView {
            name: f.name@,
            description: description_of(f.text@),
            origin: Origin::User,
            shadows_builtin: has_name(builtin, f.name@),
        },
    );
    if i < n - 1 {
        lemma_user_listed(user, builtin, n - 1, i);
    }
}

/// Every built-in preset is listed that no acceptable file of the user's has the name of, with its
/// description.
pub proof fn law_every_built_in_preset_is_listed(
    user: Seq<PresetFile>,
    builtin: Seq<PresetFile>,
    n: int,
    i: int,
)
    requires
        0 <= i < n <= builtin.len(),
        name_fault(builtin[i].name@) is None ==> forall|j: int|
            0 <= j < user.len() ==> (#[trigger] user[j]).name@ != builtin[i].name@,
    ensures
        all_entries(user, builtin, n).contains(
            (EntryView {
                name: builtin[i].name@,
                description: description_of(builtin[i].text@),
                origin: Origin::Builtin,
                shadows_builtin: false,
            }),
        ),
    decreases n,
{
    let f = builtin[n - 1];
    lemma_with_entry_contains(
        all_entries(user, builtin, n - 1),
        EntryView {
            name: f.name@,
            description: description_of(f.text@),
            origin: Origin::Builtin,
            shadows_builtin: false,
        },
    );
    if i < n - 1 {
        law_every_built_in_preset_is_listed(user, builtin, n - 1, i);
    }
}

/// How many of the first `n` user files have a name that a preset can have.
pub open spec fn acceptable(user: Seq<PresetFile>, n: int) -> nat
    decreases n,
{
    if n <= 0 {
        0
    } else {
        acceptable(user, n - 1) + if name_fault(user[n - 1].name@) is None {
            1nat
        } else {
            0
        }
    }
}

/// Nothing else is listed, and nothing twice: there are as many entries as acceptable files, and at
/// most one more for each built-in preset.
pub proof fn law_nothing_else_is_listed(user: Seq<PresetFile>, builtin: Seq<PresetFile>, n: int)
    requires
        0 <= n <= builtin.len(),
    ensures
        all_entries(user, builtin, 0).len() == acceptable(user, user.len() as int),
        acceptable(user, user.len() as int) <= all_entries(user, builtin, n).len() <= acceptable(
            user,
            user.len() as int,
        ) + n,
        n > 0 && user_has(user, builtin[n - 1].name@) ==> all_entries(user, builtin, n)
            == all_entries(user, builtin, n - 1),
    decreases n,
{
    lemma_user_count(user, builtin, user.len() as int);
    if n > 0 {
        law_nothing_else_is_listed(user, builtin, n - 1);
        let f = builtin[n - 1];
        lemma_with_entry_contains(
            all_entries(user, builtin, n - 1),
            EntryView {
                name: f.name@,
                description: description_of(f.text@),
                origin: Origin::Builtin,
                shadows_builtin: false,
            },
        );
    }
}

proof fn lemma_user_count(user: Seq<PresetFile>, builtin: Seq<PresetFile>, n: int)
    ensures
        user_entries(user, builtin, n).len() == acceptable(user, n),
    decreases n,
{
    if n > 0 {
        lemma_user_count(user, builtin, n - 1);
        let f = user[n - 1];
        lemma_with_entry_contains(
            user_entries(user, builtin, n - 1),
            EntryView {
                name: f.name@,
                description: description_of(f.text@),
                origin: Origin::User,
                shadows_builtin: has_name(builtin, f.name@),
            },
        );
    }
}

/// The text of a preset is that of the first file with its name, and there is none where no file has
/// it.
pub proof fn law_a_preset_has_the_text_of_its_file(files: Seq<PresetFile>, name: Seq<char>, i: int)
    ensures
        0 <= i < files.len() && files[i].name@ == name && (forall|k: int|
            0 <= k < i ==> (#[trigger] files[k]).name@ != name) ==> text_named(files, name) == Some(
            files[i].text@,
        ),
        (forall|k: int| 0 <= k < files.len() ==> (#[trigger] files[k]).name@ != name)
            ==> text_named(files, name) is None,
{
    if 0 <= i < files.len() && files[i].name@ == name && (forall|k: int|
        0 <= k < i ==> (#[trigger] files[k]).name@ != name) {
        lemma_text_named(files, name, i);
    }
    if forall|k: int| 0 <= k < files.len() ==> (#[trigger] files[k]).name@ != name {
        lemma_text_named(files, name, files.len() as int);
    }
}

/// The text of a preset starts with its name and description and goes on with all settings.
pub proof fn law_a_composed_preset_has_its_settings(n: Seq<char>, d: Seq<char>, text: Seq<char>)
    ensures
        has_prefix(composed(n, d, text), "[preset]\nname = "@ + n),
        occurs(composed(n, d, text), d),
        has_suffix(composed(n, d, text), body_of(text)),
{
    let (a, m, e, b) = ("[preset]\nname = "@, "\ndescription = "@, "\n\n"@, body_of(text));
    let s = composed(n, d, text);
    crate::text::law_prefixes_and_pieces(Seq::empty(), a + n, m + d + e + b);
    assert((a + n) + (m + d + e + b) =~= s);
    crate::text::law_prefixes_and_pieces(a + n + m, d, e + b);
    assert(a + n + m + d + (e + b) =~= s);
    crate::text::law_prefixes_and_pieces(a + n + m + d + e, b, Seq::empty());
    assert(a + n + m + d + e + b =~= s);
}

} // verus!
