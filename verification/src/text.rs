//! Character-level text utilities: substring search and replacement, and
//! line splitting/joining with the same semantics as Rust's `str::lines`
//! followed by a `"\n"` join.
//!
//! All executable functions are specified against spec functions over
//! `Seq<char>`, so the higher layers (variable substitution, text edits)
//! can state their contracts exactly.

use vstd::prelude::*;

verus! {

/// The pattern `pat` occurs in `s` at position `i`.
pub open spec fn matches_at(s: Seq<char>, i: int, pat: Seq<char>) -> bool {
    0 <= i && i + pat.len() <= s.len() && s.subrange(i, i + pat.len() as int) == pat
}

/// The pattern `pat` occurs somewhere in `s` (always true for an empty pattern).
pub open spec fn contains_seq(s: Seq<char>, pat: Seq<char>) -> bool {
    exists|i: int| matches_at(s, i, pat)
}

/// Replacement of every occurrence of `pat` in `s` by `to`, leftmost-first and
/// non-overlapping, exactly as `str::replace` does. An empty pattern matches
/// before every character and at the end.
pub open spec fn replace_seq(s: Seq<char>, pat: Seq<char>, to: Seq<char>) -> Seq<char>
    decreases s.len(),
{
    if pat.len() == 0 {
        if s.len() == 0 {
            to
        } else {
            to + seq![s[0]] + replace_seq(s.skip(1), pat, to)
        }
    } else if s.len() < pat.len() {
        s
    } else if s.subrange(0, pat.len() as int) == pat {
        to + replace_seq(s.skip(pat.len() as int), pat, to)
    } else {
        seq![s[0]] + replace_seq(s.skip(1), pat, to)
    }
}

/// What follows the leading `to` in a replacement of the empty pattern:
/// each character of `s` followed by one copy of `to`.
pub open spec fn rep_tail(s: Seq<char>, to: Seq<char>) -> Seq<char>
    decreases s.len(),
{
    if s.len() == 0 {
        Seq::empty()
    } else {
        seq![s[0]] + to + rep_tail(s.skip(1), to)
    }
}

/// Replacing an empty pattern interleaves `to` with the characters of `s`.
pub proof fn lemma_replace_empty(s: Seq<char>, pat: Seq<char>, to: Seq<char>)
    requires
        pat.len() == 0,
    ensures
        replace_seq(s, pat, to) == to + rep_tail(s, to),
    decreases s.len(),
{
    if s.len() == 0 {
        assert(to + rep_tail(s, to) =~= to);
    } else {
        lemma_replace_empty(s.skip(1), pat, to);
        assert(to + rep_tail(s, to) =~= to + seq![s[0]] + (to + rep_tail(s.skip(1), to)));
    }
}

/// Relies on std's `String::push`: appends the given character to the end of
/// the string.
#[verifier::external_body]
pub fn push_char(s: &mut String, c: char)
    ensures
        final(s)@ == old(s)@.push(c),
{
    s.push(c);
}

/// Collect the characters of a string slice into a vector.
pub fn chars_vec(s: &str) -> (r: Vec<char>)
    ensures
        r@ == s@,
{
    let n = s.unicode_len();
    let mut r: Vec<char> = Vec::new();
    let mut i: usize = 0;
    while i < n
        invariant
            n == s@.len(),
            i <= n,
            r@ == s@.subrange(0, i as int),
        decreases n - i,
    {
        r.push(s.get_char(i));
        assert(r@ =~= s@.subrange(0, i + 1 as int));
        i = i + 1;
    }
    assert(r@ =~= s@);
    r
}

/// Build a string from a vector of characters.
pub fn string_from_chars(cs: &Vec<char>) -> (r: String)
    ensures
        r@ == cs@,
{
    let mut r = String::new();
    let mut i: usize = 0;
    while i < cs.len()
        invariant
            i <= cs.len(),
            r@ == cs@.subrange(0, i as int),
        decreases cs.len() - i,
    {
        push_char(&mut r, cs[i]);
        assert(r@ =~= cs@.subrange(0, i + 1 as int));
        i = i + 1;
    }
    assert(r@ =~= cs@);
    r
}

/// Test whether `pat` occurs in `s` at position `i`.
pub fn match_at(s: &Vec<char>, i: usize, pat: &Vec<char>) -> (r: bool)
    requires
        i <= s.len(),
        pat.len() <= s.len() - i,
    ensures
        r == matches_at(s@, i as int, pat@),
{
    let mut j: usize = 0;
    while j < pat.len()
        invariant
            i + pat.len() <= s.len(),
            j <= pat.len(),
            forall|k: int| 0 <= k < j ==> s@[i + k] == pat@[k],
        decreases pat.len() - j,
    {
        if s[i + j] != pat[j] {
            assert(s@.subrange(i as int, i + pat.len() as int)[j as int] != pat@[j as int]);
            return false;
        }
        j = j + 1;
    }
    assert(s@.subrange(i as int, i + pat.len() as int) =~= pat@);
    true
}

/// Test whether `pat` occurs anywhere in `s`.
pub fn contains_chars(s: &Vec<char>, pat: &Vec<char>) -> (r: bool)
    ensures
        r == contains_seq(s@, pat@),
{
    if pat.len() == 0 {
        assert(matches_at(s@, 0, pat@)) by {
            assert(s@.subrange(0, 0) =~= pat@);
        }
        return true;
    }
    if pat.len() > s.len() {
        assert(!contains_seq(s@, pat@));
        return false;
    }
    let mut i: usize = 0;
    while i <= s.len() - pat.len()
        invariant
            1 <= pat.len() <= s.len(),
            i <= s.len() - pat.len() + 1,
            forall|k: int| 0 <= k < i ==> !matches_at(s@, k, pat@),
        decreases s.len() - i,
    {
        if match_at(s, i, pat) {
            return true;
        }
        i = i + 1;
    }
    false
}

/// Replace every occurrence of `pat` in `s` by `to`, leftmost-first.
pub fn replace_chars(s: &Vec<char>, pat: &Vec<char>, to: &Vec<char>) -> (r: Vec<char>)
    ensures
        r@ == replace_seq(s@, pat@, to@),
{
    let mut out: Vec<char> = Vec::new();
    let mut i: usize = 0;
    if pat.len() == 0 {
        // An empty pattern matches before every character and at the end.
        proof {
            lemma_replace_empty(s@, pat@, to@);
            assert(s@.skip(0) =~= s@);
        }
        append_chars(&mut out, to);
        while i < s.len()
            invariant
                i <= s.len(),
                pat@.len() == 0,
                out@ + rep_tail(s@.skip(i as int), to@) == replace_seq(s@, pat@, to@),
            decreases s.len() - i,
        {
            proof {
                assert(s@.skip(i as int).len() > 0);
                assert(s@.skip(i as int)[0] == s@[i as int]);
                assert(s@.skip(i as int).skip(1) =~= s@.skip(i + 1));
                assert(out@ + rep_tail(s@.skip(i as int), to@) =~= (out@ + seq![s@[i as int]]
                    + to@) + rep_tail(s@.skip(i + 1), to@));
            }
            out.push(s[i]);
            append_chars(&mut out, to);
            i = i + 1;
        }
        proof {
            assert(s@.skip(i as int) =~= Seq::<char>::empty());
            assert(out@ + rep_tail(s@.skip(i as int), to@) =~= out@);
        }
        return out;
    }
    proof {
        assert(s@.skip(0) =~= s@);
    }
    while i < s.len()
        invariant
            i <= s.len(),
            pat.len() >= 1,
            replace_seq(s@, pat@, to@) == out@ + replace_seq(s@.skip(i as int), pat@, to@),
        decreases s.len() - i,
    {
        if pat.len() <= s.len() - i && match_at(s, i, pat) {
            assert(s@.skip(i as int).subrange(0, pat@.len() as int) =~= s@.subrange(
                i as int,
                i + pat@.len() as int,
            ));
            assert(s@.skip(i as int).skip(pat@.len() as int) =~= s@.skip(i + pat@.len()));
            append_chars(&mut out, to);
            i = i + pat.len();
        } else {
            proof {
                if i + pat@.len() <= s@.len() {
                    assert(s@.skip(i as int).subrange(0, pat@.len() as int) =~= s@.subrange(
                        i as int,
                        i + pat@.len() as int,
                    ));
                }
                assert(s@.skip(i as int)[0] == s@[i as int]);
                assert(s@.skip(i as int).skip(1) =~= s@.skip(i + 1));
                if s@.skip(i + 1).len() < pat@.len() {
                    // In this region the spec leaves the remainder unchanged,
                    // and the remainder splits off its first character.
                    assert(s@.skip(i as int) =~= seq![s@[i as int]] + s@.skip(i + 1));
                }
            }
            out.push(s[i]);
            i = i + 1;
        }
    }
    assert(s@.skip(i as int) =~= Seq::<char>::empty());
    out
}

/// Copy the characters of `s` between positions `a` and `b`.
pub fn subvec(s: &Vec<char>, a: usize, b: usize) -> (r: Vec<char>)
    requires
        a <= b <= s.len(),
    ensures
        r@ == s@.subrange(a as int, b as int),
{
    let mut r: Vec<char> = Vec::new();
    let mut i: usize = a;
    while i < b
        invariant
            a <= i <= b <= s.len(),
            r@ == s@.subrange(a as int, i as int),
        decreases b - i,
    {
        r.push(s[i]);
        assert(r@ =~= s@.subrange(a as int, i + 1 as int));
        i = i + 1;
    }
    r
}

/// Position of the first newline in `s`, or `s.len()` if there is none.
pub open spec fn first_nl(s: Seq<char>) -> nat
    decreases s.len(),
{
    if s.len() == 0 {
        0
    } else if s[0] == '\n' {
        0
    } else {
        1 + first_nl(s.skip(1))
    }
}

/// `first_nl` is characterised by its defining properties.
pub proof fn lemma_first_nl(s: Seq<char>)
    ensures
        first_nl(s) <= s.len(),
        first_nl(s) < s.len() ==> s[first_nl(s) as int] == '\n',
        forall|j: int| 0 <= j < first_nl(s) ==> s[j] != '\n',
    decreases s.len(),
{
    if s.len() > 0 && s[0] != '\n' {
        lemma_first_nl(s.skip(1));
        assert forall|j: int| 0 <= j < first_nl(s) implies s[j] != '\n' by {
            if j > 0 {
                assert(s.skip(1)[j - 1] == s[j]);
            }
        }
    }
}

/// A position with no newline before it and a newline (or the end) at it
/// is the first newline position.
pub proof fn lemma_first_nl_at(s: Seq<char>, k: int)
    requires
        0 <= k <= s.len(),
        k < s.len() ==> s[k] == '\n',
        forall|j: int| 0 <= j < k ==> s[j] != '\n',
    ensures
        first_nl(s) == k,
    decreases s.len(),
{
    if s.len() == 0 || s[0] == '\n' {
    } else {
        assert(s[0] != '\n');
        assert(k > 0);
        lemma_first_nl_at(s.skip(1), k - 1);
    }
}

/// A line piece with its one optional trailing carriage return removed.
pub open spec fn strip_cr(l: Seq<char>) -> Seq<char> {
    if l.len() > 0 && l[l.len() - 1] == '\r' {
        l.subrange(0, l.len() - 1)
    } else {
        l
    }
}

/// The lines of `s`, with the semantics of `str::lines`: pieces are cut at
/// every newline, a piece terminated by a newline loses one trailing
/// carriage return, and a final piece after the last newline is kept as it
/// stands (and dropped when empty).
pub open spec fn lines_of(s: Seq<char>) -> Seq<Seq<char>>
    decreases s.len(),
{
    if s.len() == 0 {
        Seq::empty()
    } else {
        let k = first_nl(s);
        if k >= s.len() {
            seq![s]
        } else {
            seq![strip_cr(s.subrange(0, k as int))] + lines_of(s.skip(k + 1 as int))
        }
    }
}

/// Split `s` into its lines.
pub fn split_lines(s: &Vec<char>) -> (r: Vec<Vec<char>>)
    ensures
        r.deep_view() == lines_of(s@),
{
    let mut r: Vec<Vec<char>> = Vec::new();
    let mut i: usize = 0;
    proof {
        assert(s@.skip(0) =~= s@);
    }
    while i < s.len()
        invariant
            i <= s.len(),
            lines_of(s@) == r.deep_view() + lines_of(s@.skip(i as int)),
        decreases s.len() - i,
    {
        let ghost prev = r.deep_view();
        let mut j: usize = i;
        while j < s.len() && s[j] != '\n'
            invariant
                i <= j <= s.len(),
                forall|t: int| i <= t < j ==> s@[t] != '\n',
            decreases s.len() - j,
        {
            j = j + 1;
        }
        proof {
            assert forall|t: int| 0 <= t < j - i implies s@.skip(i as int)[t] != '\n' by {
                assert(s@.skip(i as int)[t] == s@[t + i]);
            }
            if j < s.len() {
                assert(s@.skip(i as int)[j - i] == s@[j as int]);
            }
            lemma_first_nl_at(s@.skip(i as int), j - i);
        }
        if j < s.len() {
            let end = if j > i && s[j - 1] == '\r' {
                j - 1
            } else {
                j
            };
            let piece = subvec(s, i, end);
            proof {
                let rest = s@.skip(i as int);
                assert(rest.subrange(0, (j - i) as int) =~= s@.subrange(i as int, j as int));
                if j > i && s@[j - 1] == '\r' {
                    assert(strip_cr(rest.subrange(0, (j - i) as int)) =~= s@.subrange(
                        i as int,
                        end as int,
                    ));
                } else {
                    assert(strip_cr(rest.subrange(0, (j - i) as int)) =~= s@.subrange(
                        i as int,
                        end as int,
                    ));
                }
                assert(rest.skip((j - i) + 1) =~= s@.skip(j + 1));
            }
            r.push(piece);
            proof {
                assert(r.deep_view() =~~= prev + seq![s@.subrange(i as int, end as int)]);
                assert(lines_of(s@) =~~= r.deep_view() + lines_of(s@.skip(j + 1)));
            }
            i = j + 1;
        } else {
            let piece = subvec(s, i, s.len());
            proof {
                let rest = s@.skip(i as int);
                assert(rest =~= s@.subrange(i as int, s@.len() as int));
                assert(lines_of(rest) == seq![rest]);
            }
            r.push(piece);
            proof {
                assert(r.deep_view() =~~= prev + seq![s@.subrange(i as int, s@.len() as int)]);
                assert(s@.skip(s@.len() as int) =~= Seq::<char>::empty());
                assert(lines_of(s@) =~~= r.deep_view() + lines_of(s@.skip(s@.len() as int)));
            }
            i = s.len();
        }
    }
    proof {
        assert(s@.skip(i as int) =~= Seq::<char>::empty());
        assert(r.deep_view() =~~= lines_of(s@));
    }
    r
}

/// What follows line `i` in a newline join: a newline and the line, for each
/// remaining line.
pub open spec fn join_rest(d: Seq<Seq<char>>, i: int) -> Seq<char>
    decreases d.len() - i,
    when 0 <= i <= d.len()
{
    if i >= d.len() {
        Seq::empty()
    } else {
        seq!['\n'] + d[i] + join_rest(d, i + 1)
    }
}

/// The lines joined with a single newline between adjacent lines.
pub open spec fn join_lines(d: Seq<Seq<char>>) -> Seq<char> {
    if d.len() == 0 {
        Seq::empty()
    } else {
        d[0] + join_rest(d, 1)
    }
}

/// Join lines with a newline between adjacent lines.
pub fn join_newline(ls: &Vec<Vec<char>>) -> (r: Vec<char>)
    ensures
        r@ == join_lines(ls.deep_view()),
{
    let mut r: Vec<char> = Vec::new();
    if ls.len() == 0 {
        return r;
    }
    append_chars(&mut r, &ls[0]);
    let mut i: usize = 1;
    while i < ls.len()
        invariant
            1 <= i <= ls.len(),
            ls.deep_view().len() == ls.len(),
            r@ + join_rest(ls.deep_view(), i as int) == join_lines(ls.deep_view()),
        decreases ls.len() - i,
    {
        proof {
            assert(ls.deep_view()[i as int] =~= ls[i as int]@);
        }
        r.push('\n');
        append_chars(&mut r, &ls[i]);
        i = i + 1;
    }
    r
}

/// The position of the last occurrence of `c` in `s`, or `-1` if there is
/// none.
pub open spec fn last_index(s: Seq<char>, c: char) -> int
    decreases s.len(),
{
    if s.len() == 0 {
        -1
    } else if s.last() == c {
        s.len() - 1
    } else {
        last_index(s.drop_last(), c)
    }
}

/// `last_index` is characterised by its defining properties.
pub proof fn lemma_last_index(s: Seq<char>, c: char)
    ensures
        -1 <= last_index(s, c) < s.len(),
        last_index(s, c) >= 0 ==> s[last_index(s, c)] == c,
        forall|j: int| last_index(s, c) < j < s.len() ==> s[j] != c,
        (last_index(s, c) >= 0) <==> s.contains(c),
    decreases s.len(),
{
    if s.len() > 0 && s.last() != c {
        lemma_last_index(s.drop_last(), c);
        assert forall|j: int| last_index(s, c) < j < s.len() implies s[j] != c by {
            if j < s.len() - 1 {
                assert(s.drop_last()[j] == s[j]);
            }
        }
        if s.contains(c) {
            let i = choose|i: int| 0 <= i < s.len() && s[i] == c;
            assert(i < s.len() - 1);
            assert(s.drop_last()[i] == c);
            assert(s.drop_last().contains(c));
        }
        if s.drop_last().contains(c) {
            let i = choose|i: int| 0 <= i < s.drop_last().len() && s.drop_last()[i] == c;
            assert(s[i] == c);
            assert(s.contains(c));
        }
    }
}

/// Find the position of the last occurrence of a character.
pub fn find_last(s: &Vec<char>, c: char) -> (r: Option<usize>)
    ensures
        match r {
            Some(i) => i == last_index(s@, c),
            None => last_index(s@, c) == -1,
        },
{
    proof {
        lemma_last_index(s@, c);
    }
    let mut i: usize = s.len();
    while i > 0
        invariant
            i <= s.len(),
            forall|j: int| i <= j < s.len() ==> s@[j] != c,
        decreases i,
    {
        i = i - 1;
        if s[i] == c {
            proof {
                lemma_last_index_at(s@, c, i as int);
            }
            return Some(i);
        }
    }
    None
}

/// A position holding `c` with none after it is the last occurrence.
pub proof fn lemma_last_index_at(s: Seq<char>, c: char, i: int)
    requires
        0 <= i < s.len(),
        s[i] == c,
        forall|j: int| i < j < s.len() ==> s[j] != c,
    ensures
        last_index(s, c) == i,
    decreases s.len(),
{
    if i == s.len() - 1 {
    } else {
        assert(s.last() != c);
        assert forall|j: int| i < j < s.drop_last().len() implies s.drop_last()[j] != c by {
            assert(s.drop_last()[j] == s[j]);
        }
        assert(s.drop_last()[i] == s[i]);
        lemma_last_index_at(s.drop_last(), c, i);
    }
}

/// The position of the first occurrence of `c` in `s`, or `s.len()` if there
/// is none.
pub open spec fn first_index(s: Seq<char>, c: char) -> nat
    decreases s.len(),
{
    if s.len() == 0 {
        0
    } else if s[0] == c {
        0
    } else {
        1 + first_index(s.skip(1), c)
    }
}

/// `first_index` is characterised by its defining properties.
pub proof fn lemma_first_index(s: Seq<char>, c: char)
    ensures
        0 <= first_index(s, c) <= s.len(),
        first_index(s, c) < s.len() ==> s[first_index(s, c) as int] == c,
        forall|j: int| 0 <= j < first_index(s, c) ==> s[j] != c,
        (first_index(s, c) < s.len()) <==> s.contains(c),
    decreases s.len(),
{
    if s.len() > 0 && s[0] != c {
        lemma_first_index(s.skip(1), c);
        assert forall|j: int| 0 <= j < first_index(s, c) implies s[j] != c by {
            if j > 0 {
                assert(s.skip(1)[j - 1] == s[j]);
            }
        }
        if s.contains(c) {
            let i = choose|i: int| 0 <= i < s.len() && s[i] == c;
            assert(i > 0);
            assert(s.skip(1)[i - 1] == c);
            assert(s.skip(1).contains(c));
        }
        if s.skip(1).contains(c) {
            let i = choose|i: int| 0 <= i < s.skip(1).len() && s.skip(1)[i] == c;
            assert(s[i + 1] == c);
            assert(s.contains(c));
        }
    }
}

/// Find the position of the first occurrence of a character.
pub fn find_first(s: &Vec<char>, c: char) -> (r: Option<usize>)
    ensures
        match r {
            Some(i) => i == first_index(s@, c) && i < s.len(),
            None => first_index(s@, c) == s.len(),
        },
{
    proof {
        lemma_first_index(s@, c);
    }
    let mut i: usize = 0;
    while i < s.len()
        invariant
            i <= s.len(),
            forall|j: int| 0 <= j < i ==> s@[j] != c,
        decreases s.len() - i,
    {
        if s[i] == c {
            proof {
                lemma_first_index_at(s@, c, i as int);
            }
            return Some(i);
        }
        i = i + 1;
    }
    None
}

/// A position holding `c` with none before it is the first occurrence.
pub proof fn lemma_first_index_at(s: Seq<char>, c: char, i: int)
    requires
        0 <= i < s.len(),
        s[i] == c,
        forall|j: int| 0 <= j < i ==> s[j] != c,
    ensures
        first_index(s, c) == i,
    decreases s.len(),
{
    if i == 0 {
    } else {
        assert(s[0] != c);
        assert forall|j: int| 0 <= j < i - 1 implies s.skip(1)[j] != c by {
            assert(s.skip(1)[j] == s[j + 1]);
        }
        assert(s.skip(1)[i - 1] == s[i]);
        lemma_first_index_at(s.skip(1), c, i - 1);
    }
}

/// Whether a character occurs in `s`.
pub fn contains_char(s: &Vec<char>, c: char) -> (r: bool)
    ensures
        r == s@.contains(c),
{
    match find_first(s, c) {
        Some(_) => {
            proof {
                lemma_first_index(s@, c);
            }
            true
        },
        None => {
            proof {
                lemma_first_index(s@, c);
            }
            false
        },
    }
}

/// Whether `pat` stands at the head of `s`.
pub fn starts_with_chars(s: &Vec<char>, pat: &Vec<char>) -> (r: bool)
    ensures
        r == matches_at(s@, 0, pat@),
{
    if pat.len() > s.len() {
        return false;
    }
    match_at(s, 0, pat)
}

/// Append all characters of `src` to `dst`.
pub fn append_chars(dst: &mut Vec<char>, src: &Vec<char>)
    ensures
        final(dst)@ == old(dst)@ + src@,
{
    let mut j: usize = 0;
    while j < src.len()
        invariant
            j <= src.len(),
            dst@ == old(dst)@ + src@.subrange(0, j as int),
        decreases src.len() - j,
    {
        dst.push(src[j]);
        assert(dst@ =~= old(dst)@ + src@.subrange(0, j + 1 as int));
        j = j + 1;
    }
    assert(dst@ =~= old(dst)@ + src@);
}

} // verus!
