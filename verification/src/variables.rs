//! The variable engine: `{{name}}` placeholder scanning, literal placeholder
//! substitution, and fixed-point resolution of variables whose values
//! reference other variables.
//!
//! A variable map is an association list of `(name, value)` pairs with unique
//! names; its lookup takes the first match.

use vstd::prelude::*;

use crate::errors::VaultError;
use crate::text::{append_chars, chars_vec, replace_chars, replace_seq, string_from_chars, subvec};

verus! {

/// The placeholder text for a variable name.
pub open spec fn placeholder(name: Seq<char>) -> Seq<char> {
    seq!['{', '{'] + name + seq!['}', '}']
}

/// `s` with every occurrence of the placeholder for `name` replaced by `value`.
pub open spec fn subst_str(s: Seq<char>, name: Seq<char>, value: Seq<char>) -> Seq<char> {
    replace_seq(s, placeholder(name), value)
}

/// Length of the maximal prefix of `s` holding no brace.
pub open spec fn brace_run(s: Seq<char>) -> nat
    decreases s.len(),
{
    if s.len() == 0 {
        0
    } else if s[0] == '{' || s[0] == '}' {
        0
    } else {
        1 + brace_run(s.skip(1))
    }
}

/// A position with no brace before it and a brace (or the end) at it is the
/// length of the brace-free prefix.
pub proof fn lemma_brace_run_at(s: Seq<char>, k: int)
    requires
        0 <= k <= s.len(),
        forall|u: int| 0 <= u < k ==> s[u] != '{' && s[u] != '}',
        k < s.len() ==> (s[k] == '{' || s[k] == '}'),
    ensures
        brace_run(s) == k,
    decreases s.len(),
{
    if s.len() == 0 || s[0] == '{' || s[0] == '}' {
    } else {
        assert(k > 0);
        assert forall|u: int| 0 <= u < k - 1 implies s.skip(1)[u] != '{' && s.skip(1)[u] != '}' by {
            assert(s.skip(1)[u] == s[u + 1]);
        }
        lemma_brace_run_at(s.skip(1), k - 1);
    }
}

/// A placeholder `{{name}}` stands at the head of `s`: two opening braces, a
/// nonempty brace-free name, two closing braces.
pub open spec fn var_match_at0(s: Seq<char>) -> bool {
    let r = brace_run(s.skip(2));
    &&& s.len() >= 2
    &&& s[0] == '{'
    &&& s[1] == '{'
    &&& r >= 1
    &&& 2 + r + 2 <= s.len()
    &&& s[2 + r as int] == '}'
    &&& s[(2 + r + 1) as int] == '}'
}

/// All variable names `s` requires, left to right: the capture of every
/// non-overlapping leftmost match of `{{` followed by one or more non-brace
/// characters and `}}`.
pub open spec fn scan_vars(s: Seq<char>) -> Seq<Seq<char>>
    decreases s.len(),
{
    if s.len() < 5 {
        Seq::empty()
    } else if var_match_at0(s) {
        let r = brace_run(s.skip(2));
        seq![s.subrange(2, 2 + r as int)] + scan_vars(s.skip(2 + r + 2 as int))
    } else {
        scan_vars(s.skip(1))
    }
}

/// Scan a string for the variable names it requires.
pub fn scan_string_vars(cs: &Vec<char>) -> (r: Vec<String>)
    ensures
        r.deep_view() == scan_vars(cs@),
{
    let mut out: Vec<String> = Vec::new();
    let mut i: usize = 0;
    proof {
        assert(cs@.skip(0) =~= cs@);
    }
    while i < cs.len()
        invariant
            i <= cs.len(),
            scan_vars(cs@) == out.deep_view() + scan_vars(cs@.skip(i as int)),
        decreases cs.len() - i,
    {
        let ghost rest = cs@.skip(i as int);
        let ghost prev = out.deep_view();
        if cs.len() - i < 5 {
            proof {
                assert(scan_vars(rest) =~= Seq::<Seq<char>>::empty());
                assert(cs@.skip(cs@.len() as int) =~= Seq::<char>::empty());
                assert(out.deep_view() + scan_vars(cs@.skip(cs@.len() as int)) =~~= scan_vars(
                    cs@,
                ));
            }
            i = cs.len();
        } else if cs[i] == '{' && cs[i + 1] == '{' {
            let mut j: usize = i + 2;
            while j < cs.len() && cs[j] != '{' && cs[j] != '}'
                invariant
                    i + 2 <= j <= cs.len(),
                    forall|t: int| i + 2 <= t < j ==> cs@[t] != '{' && cs@[t] != '}',
                decreases cs.len() - j,
            {
                j = j + 1;
            }
            proof {
                assert(rest.skip(2) =~= cs@.skip(i + 2));
                assert forall|u: int| 0 <= u < j - i - 2 implies rest.skip(2)[u] != '{'
                    && rest.skip(2)[u] != '}' by {
                    assert(rest.skip(2)[u] == cs@[i + 2 + u]);
                }
                if j < cs.len() {
                    assert(rest.skip(2)[j - i - 2] == cs@[j as int]);
                }
                lemma_brace_run_at(rest.skip(2), j - i - 2);
                assert(brace_run(rest.skip(2)) == j - i - 2);
            }
            if j > i + 2 && j < cs.len() - 1 && cs[j] == '}' && cs[j + 1] == '}' {
                let name = subvec(cs, i + 2, j);
                let s = string_from_chars(&name);
                proof {
                    assert(rest[2 + (j - i - 2)] == cs@[j as int]);
                    assert(rest[2 + (j - i - 2) + 1] == cs@[j + 1]);
                    assert(var_match_at0(rest));
                    assert(rest.subrange(2, 2 + (j - i - 2)) =~= cs@.subrange(i + 2, j as int));
                    assert(rest.skip(2 + (j - i - 2) + 2 as int) =~= cs@.skip(j + 2));
                }
                out.push(s);
                proof {
                    assert(out.deep_view() =~~= prev + seq![cs@.subrange(i + 2, j as int)]);
                    assert(scan_vars(cs@) =~~= out.deep_view() + scan_vars(cs@.skip(j + 2)));
                }
                i = j + 2;
            } else {
                proof {
                    if j < cs.len() {
                        assert(rest[2 + (j - i - 2)] == cs@[j as int]);
                    }
                    if j + 1 < cs.len() {
                        assert(rest[2 + (j - i - 2) + 1] == cs@[j + 1]);
                    }
                    assert(!var_match_at0(rest));
                    assert(rest.skip(1) =~= cs@.skip(i + 1));
                }
                i = i + 1;
            }
        } else {
            proof {
                assert(rest[0] == cs@[i as int]);
                assert(rest[1] == cs@[i + 1]);
                assert(!var_match_at0(rest));
                assert(rest.skip(1) =~= cs@.skip(i + 1));
            }
            i = i + 1;
        }
    }
    proof {
        assert(cs@.skip(i as int) =~= Seq::<char>::empty());
        assert(out.deep_view() =~~= scan_vars(cs@));
    }
    out
}

/// Replace the placeholder for `key` by `value` throughout `s`.
pub fn subst_string(s: &str, key: &str, value: &str) -> (r: String)
    ensures
        r@ == subst_str(s@, key@, value@),
{
    let cs = chars_vec(s);
    let mut pat: Vec<char> = Vec::new();
    pat.push('{');
    pat.push('{');
    let kc = chars_vec(key);
    append_chars(&mut pat, &kc);
    pat.push('}');
    pat.push('}');
    proof {
        assert(pat@ =~= placeholder(key@));
    }
    let vc = chars_vec(value);
    let rc = replace_chars(&cs, &pat, &vc);
    string_from_chars(&rc)
}

/// First-match lookup in an association list of variables.
pub open spec fn lookup_var(m: Seq<(String, String)>, k: Seq<char>) -> Option<Seq<char>>
    decreases m.len(),
{
    if m.len() == 0 {
        None
    } else if m[0].0@ == k {
        Some(m[0].1@)
    } else {
        lookup_var(m.skip(1), k)
    }
}

/// The looked-up value, or the empty string where the name is unbound.
pub open spec fn lookup_or_empty(m: Seq<(String, String)>, k: Seq<char>) -> Seq<char> {
    match lookup_var(m, k) {
        Some(v) => v,
        None => Seq::empty(),
    }
}

/// No two entries bind the same name.
pub open spec fn unique_keys(m: Seq<(String, String)>) -> bool {
    forall|i: int, j: int| 0 <= i < j < m.len() ==> m[i].0@ != m[j].0@
}

/// Look a name up in a variable map.
pub fn get_var(m: &Vec<(String, String)>, k: &String) -> (r: Option<String>)
    ensures
        match r {
            Some(v) => lookup_var(m@, k@) == Some(v@),
            None => lookup_var(m@, k@) is None,
        },
{
    let mut i: usize = 0;
    proof {
        assert(m@.skip(0) =~= m@);
    }
    while i < m.len()
        invariant
            i <= m.len(),
            lookup_var(m@, k@) == lookup_var(m@.skip(i as int), k@),
        decreases m.len() - i,
    {
        proof {
            assert(m@.skip(i as int)[0] == m@[i as int]);
            assert(m@.skip(i as int).skip(1) =~= m@.skip(i + 1));
        }
        if m[i].0.eq(k) {
            return Some(m[i].1.clone());
        }
        i = i + 1;
    }
    None
}

/// Whether a name is bound in a variable map.
pub fn has_var(m: &Vec<(String, String)>, k: &String) -> (r: bool)
    ensures
        r == (lookup_var(m@, k@) is Some),
{
    match get_var(m, k) {
        Some(_) => true,
        None => false,
    }
}

/// `s` with the placeholders for `names`, in order, each replaced by its
/// value in `m` (or by nothing where unbound).
pub open spec fn fold_subst_str(
    s: Seq<char>,
    names: Seq<Seq<char>>,
    m: Seq<(String, String)>,
) -> Seq<char>
    decreases names.len(),
{
    if names.len() == 0 {
        s
    } else {
        fold_subst_str(subst_str(s, names[0], lookup_or_empty(m, names[0])), names.skip(1), m)
    }
}

/// Whether every name in `names` is bound in `m`.
pub open spec fn all_bound(names: Seq<Seq<char>>, m: Seq<(String, String)>) -> bool {
    forall|t: int| 0 <= t < names.len() ==> lookup_var(m, names[t]) is Some
}

/// Entities whose text can require variables and have them substituted.
pub trait VariableCompletion: Sized {
    /// The names of all `{{name}}` placeholders the entity requires.
    fn required_variables(&self) -> Vec<String>;

    /// The entity with the placeholder for one name replaced by a value.
    fn set_single_variable(&self, key: &str, value: &str) -> Self;

    /// The entity with every required name substituted from `map`; fails on
    /// the first required name that `map` does not bind.
    fn set_variables(&self, map: &Vec<(String, String)>) -> Result<Self, VaultError>;
}

impl VariableCompletion for String {
    fn required_variables(&self) -> (r: Vec<String>)
        ensures
            r.deep_view() == scan_vars(self@),
    {
        let cs = chars_vec(self.as_str());
        scan_string_vars(&cs)
    }

    fn set_single_variable(&self, key: &str, value: &str) -> (r: Self)
        ensures
            r@ == subst_str(self@, key@, value@),
    {
        subst_string(self.as_str(), key, value)
    }

    fn set_variables(&self, map: &Vec<(String, String)>) -> (r: Result<Self, VaultError>)
        ensures
            r is Ok <==> all_bound(scan_vars(self@), map@),
            r matches Ok(v) ==> v@ == fold_subst_str(self@, scan_vars(self@), map@),
            r matches Err(e) ==> e is Variable && scan_vars(self@).contains(e.detail_view())
                && lookup_var(map@, e.detail_view()) is None,
    {
        let names = self.required_variables();
        let mut acc = self.clone();
        let mut i: usize = 0;
        proof {
            assert(names.deep_view().skip(0) =~= names.deep_view());
        }
        while i < names.len()
            invariant
                i <= names.len(),
                names.deep_view() == scan_vars(self@),
                names.deep_view().len() == names@.len(),
                forall|t: int| 0 <= t < i ==> lookup_var(map@, names.deep_view()[t]) is Some,
                fold_subst_str(acc@, names.deep_view().skip(i as int), map@) == fold_subst_str(
                    self@,
                    names.deep_view(),
                    map@,
                ),
            decreases names.len() - i,
        {
            proof {
                assert(names.deep_view()[i as int] == names@[i as int]@);
                assert(names.deep_view().skip(i as int)[0] == names.deep_view()[i as int]);
                assert(names.deep_view().skip(i as int).skip(1) =~= names.deep_view().skip(
                    i + 1,
                ));
            }
            let value = match get_var(map, &names[i]) {
                Some(v) => v,
                None => {
                    return Err(VaultError::Variable(names[i].clone()));
                },
            };
            acc = acc.set_single_variable(names[i].as_str(), value.as_str());
            i = i + 1;
        }
        proof {
            assert(names.deep_view().skip(i as int) =~= Seq::<Seq<char>>::empty());
        }
        Ok(acc)
    }
}

/// First-occurrence deduplication of a sequence of names.
pub open spec fn dedup_seq(s: Seq<Seq<char>>) -> Seq<Seq<char>>
    decreases s.len(),
{
    if s.len() == 0 {
        s
    } else if s.drop_last().contains(s.last())  {
        dedup_seq(s.drop_last())
    } else {
        dedup_seq(s.drop_last()).push(s.last())
    }
}

/// Deduplication keeps exactly the names that were there.
pub proof fn lemma_dedup_contains(s: Seq<Seq<char>>, x: Seq<char>)
    ensures
        dedup_seq(s).contains(x) <==> s.contains(x),
    decreases s.len(),
{
    if s.len() == 0 {
    } else {
        lemma_dedup_contains(s.drop_last(), x);
        if s.contains(x) {
            let i = choose|i: int| 0 <= i < s.len() && s[i] == x;
            if i < s.len() - 1 {
                assert(s.drop_last()[i] == x);
                assert(s.drop_last().contains(x));
            } else {
                assert(x == s.last());
            }
        }
        if s.drop_last().contains(x) {
            let i = choose|i: int| 0 <= i < s.drop_last().len() && s.drop_last()[i] == x;
            assert(s[i] == x);
            assert(s.contains(x));
        }
        if x == s.last() {
            assert(s[s.len() - 1] == x);
            assert(s.contains(x));
        }
        if !s.drop_last().contains(s.last()) {
            assert(dedup_seq(s) == dedup_seq(s.drop_last()).push(s.last()));
            if dedup_seq(s).contains(x) {
                let i = choose|i: int| 0 <= i < dedup_seq(s).len() && dedup_seq(s)[i] == x;
                if i < dedup_seq(s).len() - 1 {
                    assert(dedup_seq(s.drop_last())[i] == x);
                    assert(dedup_seq(s.drop_last()).contains(x));
                } else {
                    assert(x == s.last());
                }
            }
            if dedup_seq(s.drop_last()).contains(x) {
                let i = choose|i: int|
                    0 <= i < dedup_seq(s.drop_last()).len() && dedup_seq(s.drop_last())[i] == x;
                assert(dedup_seq(s)[i] == x);
                assert(dedup_seq(s).contains(x));
            }
            if x == s.last() {
                assert(dedup_seq(s).last() == x);
                assert(dedup_seq(s).contains(x));
            }
        }
    }
}

/// The concatenation of a sequence of name lists.
pub open spec fn concat_all(s: Seq<Seq<Seq<char>>>) -> Seq<Seq<char>>
    decreases s.len(),
{
    if s.len() == 0 {
        Seq::empty()
    } else {
        concat_all(s.drop_last()) + s.last()
    }
}

/// Whether a name list holds a given name.
pub fn contains_string(v: &Vec<String>, x: &String) -> (r: bool)
    ensures
        r == v.deep_view().contains(x@),
{
    let mut i: usize = 0;
    while i < v.len()
        invariant
            i <= v.len(),
            forall|t: int| 0 <= t < i ==> v.deep_view()[t] != x@,
        decreases v.len() - i,
    {
        proof {
            assert(v.deep_view()[i as int] == v@[i as int]@);
        }
        if v[i].eq(x) {
            assert(v.deep_view().contains(x@));
            return true;
        }
        i = i + 1;
    }
    assert(forall|t: int| 0 <= t < v.deep_view().len() ==> v.deep_view()[t] != x@);
    false
}

/// The union of several name lists, first occurrence first, without
/// duplicates.
pub fn vecset(vecs: Vec<Vec<String>>) -> (r: Vec<String>)
    ensures
        r.deep_view() == dedup_seq(concat_all(vecs.deep_view())),
{
    let mut out: Vec<String> = Vec::new();
    let mut i: usize = 0;
    proof {
        assert(vecs.deep_view().subrange(0, 0) =~= Seq::<Seq<Seq<char>>>::empty());
        assert(concat_all(vecs.deep_view().subrange(0, 0)) =~~= Seq::<Seq<char>>::empty());
        assert(out.deep_view() =~~= dedup_seq(concat_all(vecs.deep_view().subrange(0, 0))));
    }
    while i < vecs.len()
        invariant
            i <= vecs.len(),
            vecs.deep_view().len() == vecs@.len(),
            out.deep_view() == dedup_seq(concat_all(vecs.deep_view().subrange(0, i as int))),
        decreases vecs.len() - i,
    {
        let ghost outer_prev = concat_all(vecs.deep_view().subrange(0, i as int));
        let mut j: usize = 0;
        proof {
            assert(vecs.deep_view()[i as int] =~~= vecs@[i as int].deep_view());
            assert(outer_prev + vecs@[i as int].deep_view().subrange(0, 0) =~~= outer_prev);
        }
        while j < vecs[i].len()
            invariant
                i < vecs.len(),
                j <= vecs[i as int].len(),
                vecs.deep_view().len() == vecs@.len(),
                out.deep_view() == dedup_seq(
                    outer_prev + vecs@[i as int].deep_view().subrange(0, j as int),
                ),
                outer_prev == concat_all(vecs.deep_view().subrange(0, i as int)),
            decreases vecs[i as int].len() - j,
        {
            let ghost cur = outer_prev + vecs@[i as int].deep_view().subrange(0, j as int);
            let ghost old_out = out.deep_view();
            let x = vecs[i][j].clone();
            let ghost xv = x@;
            proof {
                assert(vecs@[i as int].deep_view()[j as int] == vecs@[i as int]@[j as int]@);
                assert(xv == vecs@[i as int]@[j as int]@);
                lemma_dedup_contains(cur, xv);
                assert(cur.push(xv).drop_last() =~~= cur);
                assert(cur.push(xv).last() == xv);
            }
            let dup = contains_string(&out, &x);
            if !dup {
                out.push(x);
                proof {
                    assert(out.deep_view() =~~= old_out.push(xv));
                }
            }
            j = j + 1;
            proof {
                assert(outer_prev + vecs@[i as int].deep_view().subrange(0, j as int) =~~= cur.push(
                    xv,
                ));
                if cur.contains(xv) {
                    assert(dedup_seq(cur.push(xv)) == dedup_seq(cur));
                } else {
                    assert(dedup_seq(cur.push(xv)) == dedup_seq(cur).push(xv));
                }
                assert(out.deep_view() =~~= dedup_seq(
                    outer_prev + vecs@[i as int].deep_view().subrange(0, j as int),
                ));
            }
        }
        proof {
            assert(vecs@[i as int].deep_view().subrange(
                0,
                vecs@[i as int].deep_view().len() as int,
            ) =~~= vecs@[i as int].deep_view());
            assert(vecs.deep_view().subrange(0, i + 1).drop_last() =~~= vecs.deep_view().subrange(
                0,
                i as int,
            ));
            assert(vecs.deep_view().subrange(0, i + 1).last() =~~= vecs.deep_view()[i as int]);
            assert(concat_all(vecs.deep_view().subrange(0, i + 1)) =~~= outer_prev
                + vecs@[i as int].deep_view());
        }
        i = i + 1;
    }
    proof {
        assert(vecs.deep_view().subrange(0, i as int) =~~= vecs.deep_view());
    }
    out
}

/// Check that every name is bound in the map, reporting the first unbound
/// name.
pub fn check_all_bound(names: &Vec<String>, map: &Vec<(String, String)>) -> (r: Result<
    (),
    VaultError,
>)
    ensures
        r is Ok <==> all_bound(names.deep_view(), map@),
        r matches Err(e) ==> e is Variable && names.deep_view().contains(e.detail_view())
            && lookup_var(map@, e.detail_view()) is None,
{
    let mut i: usize = 0;
    while i < names.len()
        invariant
            i <= names.len(),
            forall|t: int| 0 <= t < i ==> lookup_var(map@, names.deep_view()[t]) is Some,
        decreases names.len() - i,
    {
        proof {
            assert(names.deep_view()[i as int] == names@[i as int]@);
        }
        if !has_var(map, &names[i]) {
            return Err(VaultError::Variable(names[i].clone()));
        }
        i = i + 1;
    }
    Ok(())
}

/// Apply every named substitution, in order, to one string; an unbound name
/// is substituted by nothing.
pub fn apply_all_string(s: &String, names: &Vec<String>, map: &Vec<(String, String)>) -> (r:
    String)
    ensures
        r@ == fold_subst_str(s@, names.deep_view(), map@),
{
    let mut acc = s.clone();
    let mut i: usize = 0;
    proof {
        assert(names.deep_view().skip(0) =~= names.deep_view());
    }
    while i < names.len()
        invariant
            i <= names.len(),
            fold_subst_str(acc@, names.deep_view().skip(i as int), map@) == fold_subst_str(
                s@,
                names.deep_view(),
                map@,
            ),
        decreases names.len() - i,
    {
        proof {
            assert(names.deep_view()[i as int] == names@[i as int]@);
            assert(names.deep_view().skip(i as int)[0] == names.deep_view()[i as int]);
            assert(names.deep_view().skip(i as int).skip(1) =~= names.deep_view().skip(i + 1));
        }
        let value = match get_var(map, &names[i]) {
            Some(v) => v,
            None => String::new(),
        };
        acc = subst_string(acc.as_str(), names[i].as_str(), value.as_str());
        i = i + 1;
    }
    proof {
        assert(names.deep_view().skip(i as int) =~= Seq::<Seq<char>>::empty());
    }
    acc
}

/// The union of two name lists, first occurrence first, without duplicates.
pub fn union2(a: Vec<String>, b: Vec<String>) -> (r: Vec<String>)
    ensures
        r.deep_view() == dedup_seq(a.deep_view() + b.deep_view()),
{
    let ghost av = a.deep_view();
    let ghost bv = b.deep_view();
    let mut parts: Vec<Vec<String>> = Vec::new();
    parts.push(a);
    parts.push(b);
    proof {
        let dv = parts.deep_view();
        let d1 = dv.drop_last();
        let d0 = d1.drop_last();
        assert(d0 =~~= Seq::<Seq<Seq<char>>>::empty());
        assert(concat_all(d0) == Seq::<Seq<char>>::empty());
        assert(d1.last() =~~= av);
        assert(dv.last() =~~= bv);
        assert(concat_all(d1) =~~= av);
        assert(concat_all(dv) =~~= av + bv);
    }
    vecset(parts)
}

/// The union of three name lists, first occurrence first, without
/// duplicates.
pub fn union3(a: Vec<String>, b: Vec<String>, c: Vec<String>) -> (r: Vec<String>)
    ensures
        r.deep_view() == dedup_seq(a.deep_view() + b.deep_view() + c.deep_view()),
{
    let ghost av = a.deep_view();
    let ghost bv = b.deep_view();
    let ghost cv = c.deep_view();
    let mut parts: Vec<Vec<String>> = Vec::new();
    parts.push(a);
    parts.push(b);
    parts.push(c);
    proof {
        let dv = parts.deep_view();
        let d2 = dv.drop_last();
        let d1 = d2.drop_last();
        let d0 = d1.drop_last();
        assert(d0 =~~= Seq::<Seq<Seq<char>>>::empty());
        assert(concat_all(d0) == Seq::<Seq<char>>::empty());
        assert(d1.last() =~~= av);
        assert(d2.last() =~~= bv);
        assert(dv.last() =~~= cv);
        assert(concat_all(d1) =~~= av);
        assert(concat_all(d2) =~~= av + bv);
        assert(concat_all(dv) =~~= av + bv + cv);
    }
    vecset(parts)
}

/// Lookup in a list extended at the back: bound names keep their value, the
/// new name becomes bound.
pub proof fn lemma_lookup_push(m: Seq<(String, String)>, e: (String, String), k: Seq<char>)
    ensures
        lookup_var(m, k) is Some ==> lookup_var(m.push(e), k) == lookup_var(m, k),
        lookup_var(m, k) is None && k == e.0@ ==> lookup_var(m.push(e), k) == Some(e.1@),
        lookup_var(m, k) is None && k != e.0@ ==> lookup_var(m.push(e), k) is None,
    decreases m.len(),
{
    if m.len() == 0 {
        assert(m.push(e)[0] == e);
        assert(m.push(e).skip(1) =~= Seq::<(String, String)>::empty());
        assert(lookup_var(m.push(e).skip(1), k) is None);
    } else {
        assert(m.push(e)[0] == m[0]);
        assert(m.push(e).skip(1) =~= m.skip(1).push(e));
        lemma_lookup_push(m.skip(1), e, k);
    }
}

/// The names bound by `m`, in order.
pub open spec fn keys_seq(m: Seq<(String, String)>) -> Seq<Seq<char>> {
    m.map_values(|e: (String, String)| e.0@)
}

/// A name is looked up successfully exactly when some entry binds it.
pub proof fn lemma_lookup_mem(m: Seq<(String, String)>, k: Seq<char>)
    ensures
        (lookup_var(m, k) is Some) <==> (exists|i: int| 0 <= i < m.len() && m[i].0@ == k),
    decreases m.len(),
{
    if m.len() > 0 {
        lemma_lookup_mem(m.skip(1), k);
        if m[0].0@ == k {
            assert(exists|i: int| 0 <= i < m.len() && m[i].0@ == k);
        } else {
            if exists|i: int| 0 <= i < m.len() && m[i].0@ == k {
                let i = choose|i: int| 0 <= i < m.len() && m[i].0@ == k;
                assert(i >= 1);
                assert(m.skip(1)[i - 1].0@ == k);
            }
            if exists|i: int| 0 <= i < m.skip(1).len() && m.skip(1)[i].0@ == k {
                let i = choose|i: int| 0 <= i < m.skip(1).len() && m.skip(1)[i].0@ == k;
                assert(m[i + 1].0@ == k);
            }
        }
    }
}

/// With unique names, lookup of an entry's name yields that entry's value.
pub proof fn lemma_lookup_unique_at(m: Seq<(String, String)>, idx: int)
    requires
        unique_keys(m),
        0 <= idx < m.len(),
    ensures
        lookup_var(m, m[idx].0@) == Some(m[idx].1@),
    decreases idx,
{
    if idx == 0 {
    } else {
        assert(m[0].0@ != m[idx].0@);
        assert(m.skip(1)[idx - 1] == m[idx]);
        assert forall|i: int, j: int| 0 <= i < j < m.skip(1).len() implies m.skip(1)[i].0@
            != m.skip(1)[j].0@ by {
            assert(m.skip(1)[i] == m[i + 1]);
            assert(m.skip(1)[j] == m[j + 1]);
        }
        lemma_lookup_unique_at(m.skip(1), idx - 1);
    }
}

/// A name found in a prefix is found, with the same value, in the whole list.
pub proof fn lemma_lookup_prefix(m: Seq<(String, String)>, idx: int, k: Seq<char>)
    requires
        0 <= idx <= m.len(),
        lookup_var(m.subrange(0, idx), k) is Some,
    ensures
        lookup_var(m, k) == lookup_var(m.subrange(0, idx), k),
    decreases m.len(),
{
    let pre = m.subrange(0, idx);
    assert(idx > 0);
    assert(pre[0] == m[0]);
    if m[0].0@ == k {
    } else {
        assert(pre.skip(1) =~= m.skip(1).subrange(0, idx - 1));
        lemma_lookup_prefix(m.skip(1), idx - 1, k);
    }
}

/// Substitution folds agree on maps that agree on the folded names.
pub proof fn lemma_fold_agree(
    s: Seq<char>,
    names: Seq<Seq<char>>,
    m1: Seq<(String, String)>,
    m2: Seq<(String, String)>,
)
    requires
        forall|t: int| 0 <= t < names.len() ==> lookup_var(m1, names[t]) == lookup_var(
            m2,
            names[t],
        ),
    ensures
        fold_subst_str(s, names, m1) == fold_subst_str(s, names, m2),
    decreases names.len(),
{
    if names.len() > 0 {
        assert forall|t: int| 0 <= t < names.skip(1).len() implies lookup_var(
            m1,
            names.skip(1)[t],
        ) == lookup_var(m2, names.skip(1)[t]) by {
            assert(names.skip(1)[t] == names[t + 1]);
        }
        lemma_fold_agree(
            subst_str(s, names[0], lookup_or_empty(m1, names[0])),
            names.skip(1),
            m1,
            m2,
        );
    }
}

/// One entry of a well-formed resolution: its name is declared, the names its
/// declared value requires were already resolved by earlier entries, and its
/// value is the declared value with those names substituted.
pub open spec fn entry_ok(
    vars: Seq<(String, String)>,
    res: Seq<(String, String)>,
    idx: int,
) -> bool {
    let k = res[idx].0@;
    let orig = lookup_or_empty(vars, k);
    &&& lookup_var(vars, k) is Some
    &&& all_bound(scan_vars(orig), res.subrange(0, idx))
    &&& res[idx].1@ == fold_subst_str(orig, scan_vars(orig), res.subrange(0, idx))
}

/// A well-formed (partial) resolution of a variable map.
pub open spec fn resolved_wf(vars: Seq<(String, String)>, res: Seq<(String, String)>) -> bool {
    &&& unique_keys(res)
    &&& forall|idx: int| 0 <= idx < res.len() ==> #[trigger] entry_ok(vars, res, idx)
}

/// Appending a newly resolvable entry keeps a resolution well-formed.
pub proof fn lemma_resolved_push(
    vars: Seq<(String, String)>,
    res: Seq<(String, String)>,
    e: (String, String),
)
    requires
        resolved_wf(vars, res),
        lookup_var(res, e.0@) is None,
        lookup_var(vars, e.0@) is Some,
        all_bound(scan_vars(lookup_or_empty(vars, e.0@)), res),
        e.1@ == fold_subst_str(
            lookup_or_empty(vars, e.0@),
            scan_vars(lookup_or_empty(vars, e.0@)),
            res,
        ),
    ensures
        resolved_wf(vars, res.push(e)),
{
    let res2 = res.push(e);
    lemma_lookup_mem(res, e.0@);
    assert forall|i: int, j: int| 0 <= i < j < res2.len() implies res2[i].0@ != res2[j].0@ by {
        if j < res.len() {
        } else {
            assert(res2[j] == e);
            assert(res2[i] == res[i]);
        }
    }
    assert forall|idx: int| 0 <= idx < res2.len() implies #[trigger] entry_ok(vars, res2, idx) by {
        if idx < res.len() {
            assert(entry_ok(vars, res, idx));
            assert(res2.subrange(0, idx) =~= res.subrange(0, idx));
            assert(res2[idx] == res[idx]);
        } else {
            assert(res2[idx] == e);
            assert(res2.subrange(0, idx) =~= res);
        }
    }
}

/// A set of declared names each of which references another name of the set;
/// no member of such a set can ever be resolved.
pub open spec fn is_dependency_cycle(m: Seq<(String, String)>, c: Set<Seq<char>>) -> bool {
    &&& exists|k: Seq<char>| c.contains(k)
    &&& forall|k: Seq<char>| #[trigger] c.contains(k) ==> lookup_var(m, k) is Some
    &&& forall|k: Seq<char>| #[trigger] c.contains(k) ==> exists|n: Seq<char>|
        c.contains(n) && scan_vars(lookup_or_empty(m, k)).contains(n)
}

/// No entry of a well-formed resolution names a member of a dependency cycle.
pub proof fn lemma_cycle_unresolved(
    vars: Seq<(String, String)>,
    res: Seq<(String, String)>,
    c: Set<Seq<char>>,
    idx: int,
)
    requires
        resolved_wf(vars, res),
        is_dependency_cycle(vars, c),
        0 <= idx < res.len(),
    ensures
        !c.contains(res[idx].0@),
    decreases idx,
{
    if c.contains(res[idx].0@) {
        let k = res[idx].0@;
        assert(entry_ok(vars, res, idx));
        let orig = lookup_or_empty(vars, k);
        let n = choose|n: Seq<char>| c.contains(n) && scan_vars(orig).contains(n);
        let t = choose|t: int| 0 <= t < scan_vars(orig).len() && scan_vars(orig)[t] == n;
        assert(lookup_var(res.subrange(0, idx), n) is Some);
        lemma_lookup_mem(res.subrange(0, idx), n);
        let j = choose|j: int|
            0 <= j < res.subrange(0, idx).len() && res.subrange(0, idx)[j].0@ == n;
        assert(res[j].0@ == n);
        lemma_cycle_unresolved(vars, res, c, j);
    }
}

/// A complete well-formed resolution binds exactly the declared names, each to
/// its declared value with all required names substituted; and no dependency
/// cycle can exist among the declared names.
pub proof fn lemma_resolve_final(vars: Seq<(String, String)>, res: Seq<(String, String)>)
    requires
        unique_keys(vars),
        resolved_wf(vars, res),
        res.len() == vars.len(),
    ensures
        forall|k: Seq<char>| lookup_var(vars, k) is Some <==> lookup_var(res, k) is Some,
        forall|k: Seq<char>| lookup_var(vars, k) is Some ==> lookup_var(res, k) == Some(
            fold_subst_str(lookup_or_empty(vars, k), scan_vars(lookup_or_empty(vars, k)), res),
        ),
        forall|c: Set<Seq<char>>| !is_dependency_cycle(vars, c),
{
    broadcast use vstd::seq_lib::seq_to_set_is_finite;

    let vk = keys_seq(vars).to_set();
    let rk = keys_seq(res).to_set();
    assert(keys_seq(res).no_duplicates()) by {
        assert forall|i: int, j: int|
            0 <= i < keys_seq(res).len() && 0 <= j < keys_seq(res).len() && i != j implies keys_seq(
            res,
        )[i] != keys_seq(res)[j] by {
            if i < j {
                assert(res[i].0@ != res[j].0@);
            } else {
                assert(res[j].0@ != res[i].0@);
            }
        }
    }
    assert(keys_seq(vars).no_duplicates()) by {
        assert forall|i: int, j: int|
            0 <= i < keys_seq(vars).len() && 0 <= j < keys_seq(vars).len() && i != j implies
            keys_seq(vars)[i] != keys_seq(vars)[j] by {
            if i < j {
                assert(vars[i].0@ != vars[j].0@);
            } else {
                assert(vars[j].0@ != vars[i].0@);
            }
        }
    }
    keys_seq(res).unique_seq_to_set();
    keys_seq(vars).unique_seq_to_set();
    assert forall|k: Seq<char>| rk.contains(k) implies vk.contains(k) by {
        let i = choose|i: int| 0 <= i < keys_seq(res).len() && keys_seq(res)[i] == k;
        assert(entry_ok(vars, res, i));
        lemma_lookup_mem(vars, k);
        let j = choose|j: int| 0 <= j < vars.len() && vars[j].0@ == k;
        assert(keys_seq(vars)[j] == k);
    }
    assert(rk.subset_of(vk));
    assert forall|k: Seq<char>| vk.contains(k) implies rk.contains(k) by {
        if !rk.contains(k) {
            rk.lemma_subset_not_in_lt(vk, k);
        }
    }
    // Membership equivalence between lookup and key sets.
    assert forall|k: Seq<char>| lookup_var(vars, k) is Some <==> lookup_var(res, k) is Some by {
        lemma_lookup_mem(vars, k);
        lemma_lookup_mem(res, k);
        assert(keys_seq(vars).contains(k) <==> (exists|i: int|
            0 <= i < vars.len() && vars[i].0@ == k)) by {
            if exists|i: int| 0 <= i < vars.len() && vars[i].0@ == k {
                let i = choose|i: int| 0 <= i < vars.len() && vars[i].0@ == k;
                assert(keys_seq(vars)[i] == k);
            }
        }
        assert(keys_seq(res).contains(k) <==> (exists|i: int|
            0 <= i < res.len() && res[i].0@ == k)) by {
            if exists|i: int| 0 <= i < res.len() && res[i].0@ == k {
                let i = choose|i: int| 0 <= i < res.len() && res[i].0@ == k;
                assert(keys_seq(res)[i] == k);
            }
        }
        assert(vk.contains(k) <==> rk.contains(k));
    }
    // Each resolved value equals the declared value folded over the final map.
    assert forall|k: Seq<char>| lookup_var(vars, k) is Some implies lookup_var(res, k) == Some(
        fold_subst_str(lookup_or_empty(vars, k), scan_vars(lookup_or_empty(vars, k)), res),
    ) by {
        lemma_lookup_mem(res, k);
        let i = choose|i: int| 0 <= i < res.len() && res[i].0@ == k;
        lemma_lookup_unique_at(res, i);
        assert(entry_ok(vars, res, i));
        let orig = lookup_or_empty(vars, k);
        let pre = res.subrange(0, i);
        assert forall|t: int| 0 <= t < scan_vars(orig).len() implies lookup_var(
            res,
            scan_vars(orig)[t],
        ) == lookup_var(pre, scan_vars(orig)[t]) by {
            lemma_lookup_prefix(res, i, scan_vars(orig)[t]);
        }
        lemma_fold_agree(orig, scan_vars(orig), pre, res);
    }
    // No dependency cycle can exist: its members would all be resolved, yet
    // the first-resolved member needs an earlier-resolved member.
    assert forall|c: Set<Seq<char>>| !is_dependency_cycle(vars, c) by {
        if is_dependency_cycle(vars, c) {
            let k0 = choose|k: Seq<char>| c.contains(k);
            assert(lookup_var(vars, k0) is Some);
            assert(lookup_var(res, k0) is Some);
            lemma_lookup_mem(res, k0);
            let i = choose|i: int| 0 <= i < res.len() && res[i].0@ == k0;
            lemma_cycle_unresolved(vars, res, c, i);
        }
    }
}

/// Names all bound in one map are all bound in any map with the same domain.
pub proof fn lemma_all_bound_same_domain(
    names: Seq<Seq<char>>,
    a: Seq<(String, String)>,
    b: Seq<(String, String)>,
)
    requires
        all_bound(names, a),
        forall|k: Seq<char>| lookup_var(a, k) is Some <==> lookup_var(b, k) is Some,
    ensures
        all_bound(names, b),
{
}

/// A complete resolution of a variable map: it binds exactly the declared
/// names, each to its declared value with every required name substituted
/// from the resolution itself.
pub open spec fn resolution_of(vars: Seq<(String, String)>, res: Seq<(String, String)>) -> bool {
    &&& res.len() == vars.len()
    &&& unique_keys(res)
    &&& forall|k: Seq<char>| lookup_var(vars, k) is Some <==> lookup_var(res, k) is Some
    &&& forall|k: Seq<char>| lookup_var(vars, k) is Some ==> lookup_var(res, k) == Some(
        fold_subst_str(lookup_or_empty(vars, k), scan_vars(lookup_or_empty(vars, k)), res),
    )
}

/// A ranking that witnesses the absence of dependency cycles: every name a
/// declared value requires is itself declared and ranks strictly lower, and
/// every rank lies below the number of variables.
pub open spec fn rank_ok(m: Seq<(String, String)>, rank: spec_fn(Seq<char>) -> nat) -> bool {
    forall|i: int|
        #![trigger m[i]]
        0 <= i < m.len() ==> {
            &&& rank(m[i].0@) < m.len()
            &&& (forall|t: int|
                0 <= t < scan_vars(m[i].1@).len() ==> {
                    &&& lookup_var(m, #[trigger] scan_vars(m[i].1@)[t]) is Some
                    &&& rank(scan_vars(m[i].1@)[t]) < rank(m[i].0@)
                })
        }
}

/// In a resolution closed under one more promotion step, every declared name
/// up to a given rank is resolved.
proof fn lemma_closure_all_bound(
    vars: Seq<(String, String)>,
    res: Seq<(String, String)>,
    rank: spec_fn(Seq<char>) -> nat,
    r: nat,
)
    requires
        rank_ok(vars, rank),
        forall|t: int|
            #![trigger vars[t]]
            0 <= t < vars.len() && all_bound(scan_vars(vars[t].1@), res) ==> lookup_var(
                res,
                vars[t].0@,
            ) is Some,
    ensures
        forall|i: int|
            #![trigger vars[i]]
            0 <= i < vars.len() && rank(vars[i].0@) <= r ==> lookup_var(res, vars[i].0@) is Some,
    decreases r,
{
    if r > 0 {
        lemma_closure_all_bound(vars, res, rank, (r - 1) as nat);
    }
    assert forall|i: int|
        0 <= i < vars.len() && rank(vars[i].0@) <= r implies lookup_var(res, vars[i].0@)
        is Some by {
        assert forall|t: int| 0 <= t < scan_vars(vars[i].1@).len() implies lookup_var(
            res,
            scan_vars(vars[i].1@)[t],
        ) is Some by {
            let n = scan_vars(vars[i].1@)[t];
            assert(rank(n) < rank(vars[i].0@));
            lemma_lookup_mem(vars, n);
            let j = choose|j: int| 0 <= j < vars.len() && vars[j].0@ == n;
            assert(rank(vars[j].0@) <= r - 1);
        }
        assert(all_bound(scan_vars(vars[i].1@), res));
    }
}

/// A resolution that binds every declared name holds at least as many
/// entries as there are declared names.
proof fn lemma_all_bound_count(vars: Seq<(String, String)>, res: Seq<(String, String)>)
    requires
        unique_keys(vars),
        unique_keys(res),
        forall|i: int|
            #![trigger vars[i]]
            0 <= i < vars.len() ==> lookup_var(res, vars[i].0@) is Some,
    ensures
        res.len() >= vars.len(),
{
    broadcast use vstd::seq_lib::seq_to_set_is_finite;

    let vk = keys_seq(vars).to_set();
    let rk = keys_seq(res).to_set();
    assert(keys_seq(vars).no_duplicates()) by {
        assert forall|i: int, j: int|
            0 <= i < keys_seq(vars).len() && 0 <= j < keys_seq(vars).len() && i != j implies
            keys_seq(vars)[i] != keys_seq(vars)[j] by {
            if i < j {
                assert(vars[i].0@ != vars[j].0@);
            } else {
                assert(vars[j].0@ != vars[i].0@);
            }
        }
    }
    assert(keys_seq(res).no_duplicates()) by {
        assert forall|i: int, j: int|
            0 <= i < keys_seq(res).len() && 0 <= j < keys_seq(res).len() && i != j implies
            keys_seq(res)[i] != keys_seq(res)[j] by {
            if i < j {
                assert(res[i].0@ != res[j].0@);
            } else {
                assert(res[j].0@ != res[i].0@);
            }
        }
    }
    keys_seq(vars).unique_seq_to_set();
    keys_seq(res).unique_seq_to_set();
    assert forall|k: Seq<char>| vk.contains(k) implies rk.contains(k) by {
        let i = choose|i: int| 0 <= i < keys_seq(vars).len() && keys_seq(vars)[i] == k;
        assert(lookup_var(res, vars[i].0@) is Some);
        lemma_lookup_mem(res, k);
        let j = choose|j: int| 0 <= j < res.len() && res[j].0@ == k;
        assert(keys_seq(res)[j] == k);
    }
    vstd::set_lib::lemma_len_subset(vk, rk);
}

/// Fixed-point resolution of a variable map whose values may reference other
/// variables. A pass promotes every variable whose required names are already
/// resolved; passes repeat until all variables are resolved, and fail when a
/// pass makes no progress (a direct or indirect cycle, or an undeclared
/// reference) or when a generous pass bound is exhausted.
pub fn resolve_variable_inter_refs(vars_in: &Vec<(String, String)>) -> (r: Result<
    Vec<(String, String)>,
    VaultError,
>)
    requires
        unique_keys(vars_in@),
    ensures
        r matches Ok(out) ==> resolution_of(vars_in@, out@),
        (exists|c: Set<Seq<char>>| is_dependency_cycle(vars_in@, c)) ==> r is Err,
        (exists|rank: spec_fn(Seq<char>) -> nat| rank_ok(vars_in@, rank)) && vars_in@.len()
            <= 1000 ==> r is Ok,
        r matches Err(e) ==> e is Variable,
{
    let ghost rank = choose|rank: spec_fn(Seq<char>) -> nat| rank_ok(vars_in@, rank);
    resolve_with_rank(vars_in, Ghost(rank))
}

/// The resolution loop, carrying a ghost ranking: where the ranking truly
/// witnesses acyclicity, resolution is shown to succeed.
fn resolve_with_rank(
    vars_in: &Vec<(String, String)>,
    Ghost(rank): Ghost<spec_fn(Seq<char>) -> nat>,
) -> (r: Result<Vec<(String, String)>, VaultError>)
    requires
        unique_keys(vars_in@),
    ensures
        r matches Ok(out) ==> resolution_of(vars_in@, out@),
        (exists|c: Set<Seq<char>>| is_dependency_cycle(vars_in@, c)) ==> r is Err,
        rank_ok(vars_in@, rank) && vars_in@.len() <= 1000 ==> r is Ok,
        r matches Err(e) ==> e is Variable,
{
    let mut resolved: Vec<(String, String)> = Vec::new();
    let mut prev_count: usize = 0;
    let mut pass: usize = 0;
    while pass < 1000
        invariant
            unique_keys(vars_in@),
            resolved_wf(vars_in@, resolved@),
            resolved.len() <= vars_in.len(),
            prev_count == resolved.len(),
            pass <= 1000,
            rank_ok(vars_in@, rank) ==> (forall|i: int|
                #![trigger vars_in@[i]]
                0 <= i < vars_in@.len() && rank(vars_in@[i].0@) < pass ==> lookup_var(
                    resolved@,
                    vars_in@[i].0@,
                ) is Some),
        decreases 1000 - pass,
    {
        let ghost start = resolved@;
        let mut idx: usize = 0;
        while idx < vars_in.len()
            invariant
                unique_keys(vars_in@),
                resolved_wf(vars_in@, resolved@),
                resolved.len() <= vars_in.len(),
                idx <= vars_in.len(),
                start.len() <= resolved@.len(),
                resolved@.subrange(0, start.len() as int) == start,
                forall|k2: Seq<char>| #[trigger]
                    lookup_var(start, k2) is Some ==> lookup_var(resolved@, k2) is Some,
                forall|t: int|
                    #![trigger vars_in@[t]]
                    0 <= t < idx && all_bound(scan_vars(vars_in@[t].1@), start) ==> lookup_var(
                        resolved@,
                        vars_in@[t].0@,
                    ) is Some,
            decreases vars_in.len() - idx,
        {
            let k = vars_in[idx].0.clone();
            let already = has_var(&resolved, &k);
            if !already {
                let v = vars_in[idx].1.clone();
                let ghost before = resolved@;
                match v.set_variables(&resolved) {
                    Ok(filled) => {
                        proof {
                            lemma_lookup_unique_at(vars_in@, idx as int);
                            lemma_lookup_mem(resolved@, k@);
                            lemma_resolved_push(vars_in@, resolved@, (k, filled));
                            keys_below_len(vars_in@, resolved@, (k, filled));
                        }
                        let ghost kv = k@;
                        let ghost fv = filled@;
                        resolved.push((k, filled));
                        proof {
                            assert(resolved@.drop_last() =~= before);
                            assert(resolved@.subrange(0, start.len() as int) =~= before.subrange(
                                0,
                                start.len() as int,
                            ));
                            assert forall|k2: Seq<char>| #[trigger]
                                lookup_var(before, k2) is Some implies lookup_var(
                                resolved@,
                                k2,
                            ) is Some by {
                                lemma_lookup_push(before, (resolved@.last()), k2);
                                assert(resolved@ =~= before.push(resolved@.last()));
                            }
                            assert(resolved@ =~= before.push(resolved@.last()));
                            lemma_lookup_push(before, resolved@.last(), kv);
                        }
                    },
                    Err(_) => {
                        proof {
                            // The names this value requires are not all
                            // resolved yet, in particular not in the pass
                            // snapshot.
                            if all_bound(scan_vars(vars_in@[idx as int].1@), start) {
                                assert forall|t: int|
                                    0 <= t < scan_vars(vars_in@[idx as int].1@).len() implies
                                    lookup_var(
                                    resolved@,
                                    scan_vars(vars_in@[idx as int].1@)[t],
                                ) is Some by {
                                    assert(lookup_var(
                                        start,
                                        scan_vars(vars_in@[idx as int].1@)[t],
                                    ) is Some);
                                }
                                assert(all_bound(scan_vars(vars_in@[idx as int].1@), resolved@));
                                assert(false);
                            }
                        }
                    },
                }
            }
            proof {
                if already {
                    assert(lookup_var(resolved@, vars_in@[idx as int].0@) is Some);
                }
            }
            idx = idx + 1;
        }
        if resolved.len() == vars_in.len() {
            proof {
                lemma_resolve_final(vars_in@, resolved@);
            }
            return Ok(resolved);
        }
        if resolved.len() == prev_count {
            proof {
                if rank_ok(vars_in@, rank) && vars_in@.len() <= 1000 {
                    // No progress means the resolution is already closed
                    // under promotion, so every rank level is resolved and
                    // the map would be complete.
                    assert(resolved@.subrange(0, start.len() as int) =~= resolved@);
                    assert(resolved@ == start);
                    lemma_closure_all_bound(vars_in@, resolved@, rank, vars_in@.len() as nat);
                    assert forall|i: int|
                        0 <= i < vars_in@.len() implies lookup_var(
                        resolved@,
                        #[trigger] vars_in@[i].0@,
                    ) is Some by {
                        assert(rank(vars_in@[i].0@) <= vars_in@.len());
                    }
                    lemma_all_bound_count(vars_in@, resolved@);
                    assert(false);
                }
            }
            return Err(VaultError::Variable(vars_in[0].0.clone()));
        }
        proof {
            if rank_ok(vars_in@, rank) {
                assert forall|i: int|
                    0 <= i < vars_in@.len() && rank(#[trigger] vars_in@[i].0@) < pass
                        + 1 implies lookup_var(resolved@, vars_in@[i].0@) is Some by {
                    if rank(vars_in@[i].0@) < pass {
                        assert(lookup_var(start, vars_in@[i].0@) is Some);
                    } else {
                        // Its required names rank strictly lower, so they
                        // were resolved before this pass began.
                        assert forall|t: int|
                            0 <= t < scan_vars(vars_in@[i].1@).len() implies lookup_var(
                            start,
                            #[trigger] scan_vars(vars_in@[i].1@)[t],
                        ) is Some by {
                            let n = scan_vars(vars_in@[i].1@)[t];
                            lemma_lookup_mem(vars_in@, n);
                            let j = choose|j: int| 0 <= j < vars_in@.len() && vars_in@[j].0@ == n;
                            assert(rank(vars_in@[j].0@) < pass);
                        }
                        assert(all_bound(scan_vars(vars_in@[i].1@), start));
                    }
                }
            }
        }
        prev_count = resolved.len();
        pass = pass + 1;
    }
    if resolved.len() == vars_in.len() {
        proof {
            lemma_resolve_final(vars_in@, resolved@);
        }
        return Ok(resolved);
    }
    proof {
        if rank_ok(vars_in@, rank) && vars_in@.len() <= 1000 {
            assert forall|i: int|
                0 <= i < vars_in@.len() implies lookup_var(
                resolved@,
                #[trigger] vars_in@[i].0@,
            ) is Some by {
                assert(rank(vars_in@[i].0@) < 1000);
            }
            lemma_all_bound_count(vars_in@, resolved@);
            assert(false);
        }
    }
    Err(VaultError::Variable(String::new()))
}

/// A well-formed resolution never exceeds the declared names in number.
pub proof fn keys_below_len(
    vars: Seq<(String, String)>,
    res: Seq<(String, String)>,
    e: (String, String),
)
    requires
        unique_keys(vars),
        resolved_wf(vars, res.push(e)),
        res.len() < vars.len() + 1,
    ensures
        res.push(e).len() <= vars.len(),
{
    broadcast use vstd::seq_lib::seq_to_set_is_finite;

    let res2 = res.push(e);
    let vk = keys_seq(vars).to_set();
    let rk = keys_seq(res2).to_set();
    assert(keys_seq(res2).no_duplicates()) by {
        assert forall|i: int, j: int|
            0 <= i < keys_seq(res2).len() && 0 <= j < keys_seq(res2).len() && i != j implies
            keys_seq(res2)[i] != keys_seq(res2)[j] by {
            if i < j {
                assert(res2[i].0@ != res2[j].0@);
            } else {
                assert(res2[j].0@ != res2[i].0@);
            }
        }
    }
    assert(keys_seq(vars).no_duplicates()) by {
        assert forall|i: int, j: int|
            0 <= i < keys_seq(vars).len() && 0 <= j < keys_seq(vars).len() && i != j implies
            keys_seq(vars)[i] != keys_seq(vars)[j] by {
            if i < j {
                assert(vars[i].0@ != vars[j].0@);
            } else {
                assert(vars[j].0@ != vars[i].0@);
            }
        }
    }
    keys_seq(res2).unique_seq_to_set();
    keys_seq(vars).unique_seq_to_set();
    assert forall|k: Seq<char>| rk.contains(k) implies vk.contains(k) by {
        let i = choose|i: int| 0 <= i < keys_seq(res2).len() && keys_seq(res2)[i] == k;
        assert(entry_ok(vars, res2, i));
        lemma_lookup_mem(vars, k);
        let j = choose|j: int| 0 <= j < vars.len() && vars[j].0@ == k;
        assert(keys_seq(vars)[j] == k);
    }
    vstd::set_lib::lemma_len_subset(rk, vk);
}

/// Copy a tag list.
pub fn clone_tags(tags: &Vec<String>) -> (r: Vec<String>)
    ensures
        r.deep_view() == tags.deep_view(),
{
    let mut out: Vec<String> = Vec::new();
    let mut i: usize = 0;
    while i < tags.len()
        invariant
            i <= tags.len(),
            out.deep_view() == tags.deep_view().subrange(0, i as int),
        decreases tags.len() - i,
    {
        let ghost prev = out.deep_view();
        out.push(tags[i].clone());
        proof {
            assert(out.deep_view() =~~= prev.push(tags.deep_view()[i as int]));
            assert(out.deep_view() =~~= tags.deep_view().subrange(0, i + 1));
        }
        i = i + 1;
    }
    proof {
        assert(out.deep_view() =~~= tags.deep_view());
    }
    out
}

/// An empty name list.
pub fn empty_names() -> (r: Vec<String>)
    ensures
        r.deep_view() == Seq::<Seq<char>>::empty(),
{
    let r: Vec<String> = Vec::new();
    proof {
        assert(r.deep_view() =~~= Seq::<Seq<char>>::empty());
    }
    r
}

/// The value of an optional tag list.
pub open spec fn opt_strs_view(o: &Option<Vec<String>>) -> Option<Seq<Seq<char>>> {
    match o {
        Some(v) => Some(v.deep_view()),
        None => None,
    }
}

/// The value of an optional string.
pub open spec fn opt_str_view(o: &Option<String>) -> Option<Seq<char>> {
    match o {
        Some(s) => Some(s@),
        None => None,
    }
}

/// Copy an optional tag list.
pub fn clone_opt_tags(o: &Option<Vec<String>>) -> (r: Option<Vec<String>>)
    ensures
        opt_strs_view(&r) == opt_strs_view(o),
{
    match o {
        Some(v) => Some(clone_tags(v)),
        None => None,
    }
}

/// Copy an optional string.
pub fn clone_opt_string(o: &Option<String>) -> (r: Option<String>)
    ensures
        opt_str_view(&r) == opt_str_view(o),
{
    match o {
        Some(s) => Some(s.clone()),
        None => None,
    }
}

} // verus!
