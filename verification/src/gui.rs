//! The remote configuration page.
//!
//! Deliberately narrow: it covers the two jobs that still make sense on a machine you are only
//! logged into over the network, switching preset and editing the file. It knows nothing about the
//! schema; the driver validates, and the page shows what it says.
//!
//! Requests are received and answered elsewhere; here is what each of them asks for.
use crate::text::{same, split_first, split_once, trim, trimmed};
use vstd::prelude::*;

verus! {

/// What a request asks for.
#[derive(Debug, Clone, Copy, PartialEq, Eq, Structural)]
pub enum Page {
    /// The page itself.
    Index,
    /// The config, the presets and the device.
    State,
    /// Apply the config in the body.
    SetConfig,
    /// Load the preset named in the body.
    LoadPreset,
    /// Save the config as the preset that the body names and describes.
    SavePreset,
    /// Nothing that there is.
    NotFound,
}

/// The path of a URL: what stands before the query.
pub open spec fn path_of(url: Seq<char>) -> Seq<char> {
    match split_first(url, '?') {
        Some((p, _)) => p,
        None => url,
    }
}

/// What a request asks for.
pub open spec fn page_of(method: Seq<char>, path: Seq<char>) -> Page {
    if method == "GET"@ && path == "/"@ {
        Page::Index
    } else if method == "GET"@ && path == "/api/state"@ {
        Page::State
    } else if method == "POST"@ && path == "/api/config"@ {
        Page::SetConfig
    } else if method == "POST"@ && path == "/api/preset/load"@ {
        Page::LoadPreset
    } else if method == "POST"@ && path == "/api/preset/save"@ {
        Page::SavePreset
    } else {
        Page::NotFound
    }
}

/// What a request asks for.
pub fn route(method: &str, url: &str) -> (r: Page)
    ensures
        r == page_of(method@, path_of(url@)),
{
    let path = match split_once(url, '?') {
        Some((p, _)) => p,
        None => url.to_owned(),
    };
    let path = path.as_str();
    if same(method, "GET") {
        if same(path, "/") {
            return Page::Index;
        }
        if same(path, "/api/state") {
            return Page::State;
        }
    }
    if same(method, "POST") {
        if same(path, "/api/config") {
            return Page::SetConfig;
        }
        if same(path, "/api/preset/load") {
            return Page::LoadPreset;
        }
        if same(path, "/api/preset/save") {
            return Page::SavePreset;
        }
    }
    proof {
        reveal_strlit("GET");
        reveal_strlit("POST");
        reveal_strlit("/");
        reveal_strlit("/api/state");
    }
    Page::NotFound
}

/// The preset's name and description in the body of a request to save: the description may contain
/// anything, so only the first newline separates them.
pub open spec fn save_fields_of(body: Seq<char>) -> (Seq<char>, Seq<char>) {
    match split_first(body, '\n') {
        Some((n, d)) => (trimmed(n), trimmed(d)),
        None => (trimmed(body), trimmed(Seq::empty())),
    }
}

/// The preset's name and description in the body of a request to save.
pub fn save_fields(body: &str) -> (r: (String, String))
    ensures
        (r.0@, r.1@) == save_fields_of(body@),
{
    match split_once(body, '\n') {
        Some((n, d)) => (trim(n.as_str()), trim(d.as_str())),
        None => {
            let empty = String::new();
            (trim(body), trim(empty.as_str()))
        },
    }
}

/// The status and text of the answer to a request that was carried out, or failed with a message.
pub fn report(r: Result<(), String>, done: &str) -> (a: (u16, String))
    ensures
        match r {
            Ok(()) => a.0 == 200 && a.1@ == done@,
            Err(m) => a.0 == 400 && a.1@ == m@,
        },
{
    match r {
        Ok(()) => (200, done.to_owned()),
        Err(m) => (400, m),
    }
}

/// The query of a URL does not matter to what is asked for.
pub proof fn law_the_query_does_not_matter(path: Seq<char>, query: Seq<char>)
    requires
        !path.contains('?'),
    ensures
        path_of(path + seq!['?'] + query) == path,
        path_of(path) == path,
{
    crate::text::law_a_separator_parts_a_text(path, '?', query);
}

/// What only shows is got, and what changes something has to be posted: no page answers to both.
pub proof fn law_what_changes_has_to_be_posted(method: Seq<char>, path: Seq<char>)
    ensures
        page_of("GET"@, path) is NotFound || page_of("POST"@, path) is NotFound,
        !(page_of(method, path) is NotFound) ==> method == "GET"@ || method == "POST"@,
        page_of("GET"@, "/"@) is Index,
        page_of("GET"@, "/api/state"@) is State,
        page_of("POST"@, "/api/config"@) is SetConfig,
        page_of("POST"@, "/api/preset/load"@) is LoadPreset,
        page_of("POST"@, "/api/preset/save"@) is SavePreset,
{
    reveal_strlit("GET");
    reveal_strlit("POST");
    reveal_strlit("/");
    reveal_strlit("/api/state");
    reveal_strlit("/api/config");
    reveal_strlit("/api/preset/load");
    reveal_strlit("/api/preset/save");
    assert("GET"@.len() == 3 && "POST"@.len() == 4);
    assert("/api/preset/load"@[12] != "/api/preset/save"@[12]);
    assert("/"@.len() == 1 && "/api/state"@.len() == 10);
    assert("/api/config"@.len() == 11 && "/api/preset/load"@.len() == 16);
    assert("/api/preset/save"@.len() == 16);
}

/// The first line of a body to save is the name, and all that follows is the description.
pub proof fn law_a_body_names_and_describes(name: Seq<char>, text: Seq<char>)
    requires
        !name.contains('\n'),
        trimmed(name) == name,
        trimmed(text) == text,
    ensures
        save_fields_of(name + seq!['\n'] + text) == (name, text),
        save_fields_of(name) == (name, trimmed(Seq::empty())),
{
    crate::text::law_a_separator_parts_a_text(name, '\n', text);
}

} // verus!
