//! The tag engine: the activation predicate shared by every taggable entity,
//! and validation of tag names.

use vstd::prelude::*;

use crate::errors::VaultError;
use crate::text::{chars_vec, string_from_chars, subvec};
use crate::variables::contains_string;

verus! {

/// The activation predicate: an entity with tag set `item_tags` is active
/// under the active set `act` when it carries no tags at all, or when one of
/// its tags is active.
pub open spec fn tag_active(item_tags: Seq<Seq<char>>, act: Seq<Seq<char>>) -> bool {
    item_tags.len() == 0 || exists|i: int| 0 <= i < item_tags.len() && act.contains(item_tags[i])
}

/// Decide the activation predicate.
pub fn is_active_gate(item_tags: &Vec<String>, act: &Vec<String>) -> (r: bool)
    ensures
        r == tag_active(item_tags.deep_view(), act.deep_view()),
{
    if item_tags.len() == 0 {
        return true;
    }
    let mut i: usize = 0;
    while i < item_tags.len()
        invariant
            i <= item_tags.len(),
            forall|t: int| 0 <= t < i ==> !act.deep_view().contains(item_tags.deep_view()[t]),
        decreases item_tags.len() - i,
    {
        proof {
            assert(item_tags.deep_view()[i as int] == item_tags@[i as int]@);
        }
        if contains_string(act, &item_tags[i]) {
            return true;
        }
        i = i + 1;
    }
    false
}

/// An ASCII whitespace character, as trimmed from tag requests.
pub open spec fn is_ascii_ws(c: char) -> bool {
    c == ' ' || c == '\t' || c == '\n' || c == '\r' || c == '\u{0B}' || c == '\u{0C}'
}

/// `s` with its leading whitespace removed.
pub open spec fn trim_left(s: Seq<char>) -> Seq<char>
    decreases s.len(),
{
    if s.len() > 0 && is_ascii_ws(s[0]) {
        trim_left(s.skip(1))
    } else {
        s
    }
}

/// `s` with its trailing whitespace removed.
pub open spec fn trim_right(s: Seq<char>) -> Seq<char>
    decreases s.len(),
{
    if s.len() > 0 && is_ascii_ws(s.last()) {
        trim_right(s.drop_last())
    } else {
        s
    }
}

/// `s` with leading and trailing whitespace removed.
pub open spec fn trim_spec(s: Seq<char>) -> Seq<char> {
    trim_right(trim_left(s))
}

/// A position after the leading whitespace marks where trimming from the left
/// ends.
pub proof fn lemma_trim_left_at(s: Seq<char>, a: int)
    requires
        0 <= a <= s.len(),
        forall|j: int| 0 <= j < a ==> is_ascii_ws(s[j]),
        a < s.len() ==> !is_ascii_ws(s[a]),
    ensures
        trim_left(s) == s.subrange(a, s.len() as int),
    decreases s.len(),
{
    if s.len() > 0 && is_ascii_ws(s[0]) {
        assert(a > 0);
        assert forall|j: int| 0 <= j < a - 1 implies is_ascii_ws(s.skip(1)[j]) by {
            assert(s.skip(1)[j] == s[j + 1]);
        }
        lemma_trim_left_at(s.skip(1), a - 1);
        assert(s.skip(1).subrange(a - 1, s.skip(1).len() as int) =~= s.subrange(
            a,
            s.len() as int,
        ));
    } else {
        assert(a == 0);
        assert(s.subrange(0, s.len() as int) =~= s);
    }
}

/// A position before the trailing whitespace marks where trimming from the
/// right ends.
pub proof fn lemma_trim_right_at(s: Seq<char>, b: int)
    requires
        0 <= b <= s.len(),
        forall|j: int| b <= j < s.len() ==> is_ascii_ws(s[j]),
        b > 0 ==> !is_ascii_ws(s[b - 1]),
    ensures
        trim_right(s) == s.subrange(0, b),
    decreases s.len(),
{
    if s.len() > 0 && is_ascii_ws(s.last()) {
        assert(b < s.len());
        assert forall|j: int| b <= j < s.drop_last().len() implies is_ascii_ws(
            s.drop_last()[j],
        ) by {
            assert(s.drop_last()[j] == s[j]);
        }
        lemma_trim_right_at(s.drop_last(), b);
        assert(s.drop_last().subrange(0, b) =~= s.subrange(0, b));
    } else {
        assert(b == s.len());
        assert(s.subrange(0, s.len() as int) =~= s);
    }
}

/// Whether a character is ASCII whitespace.
fn ws_char(c: char) -> (r: bool)
    ensures
        r == is_ascii_ws(c),
{
    c == ' ' || c == '\t' || c == '\n' || c == '\r' || c == '\u{0B}' || c == '\u{0C}'
}

/// Trim leading and trailing whitespace from a character vector.
pub fn trim_chars(v: &Vec<char>) -> (r: Vec<char>)
    ensures
        r@ == trim_spec(v@),
{
    let mut a: usize = 0;
    while a < v.len() && ws_char(v[a])
        invariant
            a <= v.len(),
            forall|j: int| 0 <= j < a ==> is_ascii_ws(v@[j]),
        decreases v.len() - a,
    {
        a = a + 1;
    }
    proof {
        lemma_trim_left_at(v@, a as int);
    }
    let mut b: usize = v.len();
    while b > a && ws_char(v[b - 1])
        invariant
            a <= b <= v.len(),
            forall|j: int| b <= j < v.len() ==> is_ascii_ws(v@[j]),
        decreases b,
    {
        b = b - 1;
    }
    let ghost left = trim_left(v@);
    proof {
        assert(left =~= v@.subrange(a as int, v@.len() as int));
        assert forall|j: int| b - a <= j < left.len() implies is_ascii_ws(left[j]) by {
            assert(left[j] == v@[j + a]);
        }
        if b > a {
            assert(left[b - a - 1] == v@[b - 1]);
        }
        lemma_trim_right_at(left, b - a);
        assert(left.subrange(0, b - a) =~= v@.subrange(a as int, b as int));
    }
    subvec(v, a, b)
}

/// Trim leading and trailing whitespace from a string.
pub fn trim_string(s: &String) -> (r: String)
    ensures
        r@ == trim_spec(s@),
{
    let cs = chars_vec(s.as_str());
    let t = trim_chars(&cs);
    string_from_chars(&t)
}

/// Whether, after trimming, the string is the word `default` in any casing.
pub open spec fn is_default_word(s: Seq<char>) -> bool {
    let t = trim_spec(s);
    &&& t.len() == 7
    &&& (t[0] == 'd' || t[0] == 'D')
    &&& (t[1] == 'e' || t[1] == 'E')
    &&& (t[2] == 'f' || t[2] == 'F')
    &&& (t[3] == 'a' || t[3] == 'A')
    &&& (t[4] == 'u' || t[4] == 'U')
    &&& (t[5] == 'l' || t[5] == 'L')
    &&& (t[6] == 't' || t[6] == 'T')
}

/// A valid tag name: it does not start with an exclamation mark, and it is
/// not (trimmed, in any casing) the reserved word `default`.
pub open spec fn tag_name_ok(t: Seq<char>) -> bool {
    &&& !(t.len() > 0 && t[0] == '!')
    &&& !is_default_word(t)
}

/// Check one tag name.
fn check_tag_name(t: &String) -> (r: bool)
    ensures
        r == tag_name_ok(t@),
{
    let cs = chars_vec(t.as_str());
    if cs.len() > 0 && cs[0] == '!' {
        return false;
    }
    let w = trim_chars(&cs);
    if w.len() != 7 {
        return true;
    }
    let d = (w[0] == 'd' || w[0] == 'D') && (w[1] == 'e' || w[1] == 'E') && (w[2] == 'f' || w[2]
        == 'F') && (w[3] == 'a' || w[3] == 'A') && (w[4] == 'u' || w[4] == 'U') && (w[5] == 'l'
        || w[5] == 'L') && (w[6] == 't' || w[6] == 'T');
    !d
}

/// Check that every tag name in a list is valid, reporting the first
/// offender: a tag may not start with `!` and may not be the word `default`.
pub fn validate_tags(tags: &Vec<String>) -> (r: Result<(), VaultError>)
    ensures
        r is Ok <==> (forall|i: int| 0 <= i < tags.deep_view().len() ==> tag_name_ok(
            tags.deep_view()[i],
        )),
        r matches Err(e) ==> e is Tag,
{
    let mut i: usize = 0;
    while i < tags.len()
        invariant
            i <= tags.len(),
            forall|t: int| 0 <= t < i ==> tag_name_ok(tags.deep_view()[t]),
        decreases tags.len() - i,
    {
        proof {
            assert(tags.deep_view()[i as int] == tags@[i as int]@);
        }
        if !check_tag_name(&tags[i]) {
            return Err(VaultError::Tag(tags[i].clone()));
        }
        i = i + 1;
    }
    Ok(())
}

} // verus!
