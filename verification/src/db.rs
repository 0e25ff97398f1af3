//! The store: which one a run uses, and what its failures mean.

use vstd::prelude::*;
use crate::text::{
    chars_of, contains_part, find_part, first_place, has_part, lowered, lowered_text, same_text, text_between,
};

verus! {

/// Where the store is when nothing says otherwise.
pub const DEFAULT_EMBEDDED_URL: &'static str = "surrealkv://.codegraph/graph.db";

/// The address of the store: one that was given, or else that of the
/// environment, or else the default one.
pub fn connect_url(url: Option<&str>, environment: Option<&str>) -> (r: String)
    ensures
        r@ == match (url, environment) {
            (Some(given), _) => given@,
            (None, Some(set)) => set@,
            (None, None) => DEFAULT_EMBEDDED_URL@,
        },
{
    match (url, environment) {
        (Some(given), _) => given.to_owned(),
        (None, Some(set)) => set.to_owned(),
        (None, None) => DEFAULT_EMBEDDED_URL.to_owned(),
    }
}

/// The scheme of an address: what stands before `://`, or all of it.
pub open spec fn scheme(url: Seq<char>) -> Seq<char> {
    if has_part(url, "://"@) {
        url.take(first_place(url, "://"@))
    } else {
        url
    }
}

/// Does an address name a store that runs in this process?
pub open spec fn names_embedded(url: Seq<char>) -> bool {
    lowered(scheme(url)) == "surrealkv"@ || lowered(scheme(url)) == "mem"@
}

/// Does an address name a store that runs in this process? Any scheme that is
/// not known to be one counts as a server.
pub fn is_embedded(url: &str) -> (r: bool)
    ensures
        r == names_embedded(url@),
{
    let v = chars_of(url);
    let part = chars_of("://");
    let name = match find_part(&v, &part) {
        Some(i) => {
            let t = text_between(&v, 0, i);
            assert(t@ =~= url@.take(i as int));
            t
        },
        None => url.to_owned(),
    };
    let lower = lowered_text(name.as_str());
    same_text(lower.as_str(), "surrealkv") || same_text(lower.as_str(), "mem")
}

/// Is a failure to connect that of a store which another process has open?
pub fn is_store_locked(message: &str) -> (r: bool)
    ensures
        r == has_part(message@, "is already locked"@),
{
    contains_part(message, "is already locked")
}

/// What a failure to connect means for whoever reads of it.
pub open spec fn connect_failure(url: Seq<char>, raw: Seq<char>) -> Seq<char> {
    if has_part(raw, "is already locked"@) {
        "the code graph store at "@ + url
            + " is open in another process, and it allows one writer at a time.\nEither close the other codegraph process (an MCP \"codegraph serve\" left running is the usual one), or point this command at a different store with --db-url."@
    } else {
        "Failed to connect to SurrealDB at "@ + url
    }
}

/// What a failure to connect means for whoever reads of it.
pub fn explain_connect_failure(url: &str, raw: &str) -> (r: String)
    ensures
        r@ == connect_failure(url@, raw@),
{
    if is_store_locked(raw) {
        let mut r = "the code graph store at ".to_owned();
        r.append(url);
        r.append(
            " is open in another process, and it allows one writer at a time.\nEither close the other codegraph process (an MCP \"codegraph serve\" left running is the usual one), or point this command at a different store with --db-url.",
        );
        r
    } else {
        let mut r = "Failed to connect to SurrealDB at ".to_owned();
        r.append(url);
        r
    }
}

} // verus!
