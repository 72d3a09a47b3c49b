//! Parsing of "general path" reference strings: a string that denotes either
//! a local path or a `repo#id:subpath` locator.

use vstd::prelude::*;

use crate::errors::VaultError;
use crate::sources::FileSource;
use crate::sources::SourceV;
use crate::text::{chars_vec, find_last, last_index, lemma_last_index, string_from_chars, subvec};

verus! {

/// A general path denotes a repository locator when it holds both a `#` and
/// a `:`.
pub open spec fn is_repo_spec(s: Seq<char>) -> bool {
    s.contains('#') && s.contains(':')
}

/// The locator components split at the last `#` and the last `:`; they exist
/// only when the last `#` ends strictly before the last `:`.
pub open spec fn repo_components_ok(s: Seq<char>) -> bool {
    &&& is_repo_spec(s)
    &&& last_index(s, '#') + 1 < last_index(s, ':')
}

/// The repository part of a locator: everything before the last `#`.
pub open spec fn gp_repo(s: Seq<char>) -> Seq<char> {
    s.subrange(0, last_index(s, '#'))
}

/// The id part of a locator: between the last `#` and the last `:`.
pub open spec fn gp_id(s: Seq<char>) -> Seq<char> {
    s.subrange(last_index(s, '#') + 1, last_index(s, ':'))
}

/// The subpath part of a locator: everything after the last `:`.
pub open spec fn gp_path(s: Seq<char>) -> Seq<char> {
    s.subrange(last_index(s, ':') + 1, s.len() as int)
}

/// Whether a general path denotes a repository locator rather than a local
/// path.
pub fn is_repo(general_path: &str) -> (r: bool)
    ensures
        r == is_repo_spec(general_path@),
{
    let cs = chars_vec(general_path);
    let h = crate::text::contains_char(&cs, '#');
    let c = crate::text::contains_char(&cs, ':');
    h && c
}

/// Split a locator into its repository, id and subpath components, at the
/// last `#` and the last `:`. Combinations where the last `#` does not end
/// strictly before the last `:` cannot be expressed in this syntax.
pub fn extract_components(s: &str) -> (r: Option<(String, String, String)>)
    ensures
        r is Some <==> repo_components_ok(s@),
        r matches Some(t) ==> t.0@ == gp_repo(s@) && t.1@ == gp_id(s@) && t.2@ == gp_path(s@),
{
    let cs = chars_vec(s);
    proof {
        lemma_last_index(cs@, '#');
        lemma_last_index(cs@, ':');
    }
    let h = match find_last(&cs, '#') {
        Some(h) => h,
        None => {
            return None;
        },
    };
    let c = match find_last(&cs, ':') {
        Some(c) => c,
        None => {
            return None;
        },
    };
    if h + 1 >= c {
        return None;
    }
    let repo = string_from_chars(&subvec(&cs, 0, h));
    let id = string_from_chars(&subvec(&cs, h + 1, c));
    let path = string_from_chars(&subvec(&cs, c + 1, cs.len()));
    Some((repo, id, path))
}

/// Whether a general path can be parsed into a source: always, except for a
/// locator whose `#` and `:` are ill-placed.
pub open spec fn simple_source_ok(s: Seq<char>) -> bool {
    !is_repo_spec(s) || repo_components_ok(s)
}

/// The source a general path denotes: a git blob locator, or a local path.
pub open spec fn simple_source_val(s: Seq<char>) -> SourceV {
    if is_repo_spec(s) {
        SourceV::Git { repo: gp_repo(s), id: gp_id(s), path: gp_path(s) }
    } else {
        SourceV::Local { path: s }
    }
}

/// Parse a general path into a file source. Locators become git sources and
/// everything else a local path; URLs are deliberately not recognised here.
pub fn source_from_string_simple(general_path: &str) -> (r: Result<FileSource, VaultError>)
    ensures
        r is Ok <==> simple_source_ok(general_path@),
        r matches Ok(src) ==> src@ == simple_source_val(general_path@),
        r matches Err(e) ==> e is Parse,
{
    if is_repo(general_path) {
        match extract_components(general_path) {
            Some((repo, id, path)) => Ok(FileSource::Git { repo, id, path }),
            None => Err(VaultError::Parse(general_path.to_owned())),
        }
    } else {
        Ok(FileSource::Local { path: general_path.to_owned() })
    }
}

} // verus!
