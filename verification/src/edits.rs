//! The text-edit pipeline: ordered, individually tag-gated transformations
//! applied to the text of a fetched file.

use vstd::prelude::*;

use crate::errors::VaultError;
use crate::tags::{is_active_gate, tag_active};
use crate::text::{
    append_chars, chars_vec, contains_chars, contains_seq, join_lines, join_newline, lines_of,
    replace_chars, replace_seq, split_lines, string_from_chars, subvec,
};
use crate::variables::{
    all_bound, apply_all_string, check_all_bound, clone_tags, dedup_seq, empty_names,
    fold_subst_str, scan_vars, subst_str, subst_string, union2, VariableCompletion,
};

verus! {

/// Where inserted content goes: at the end, at the start, or after a given
/// number of existing lines.
#[derive(Debug, Clone, Copy, PartialEq, Eq, Structural)]
pub enum EditPosition {
    Append,
    Prepend,
    Line(usize),
}

/// One text transformation: a literal replacement, an insertion, or a
/// deletion of a 1-indexed inclusive line range.
#[derive(Debug, Clone, PartialEq)]
pub enum FileEdit {
    Replace { from: String, to: String, required: bool, tags: Vec<String>, ignore_variables: bool },
    Insert { content: String, position: EditPosition, tags: Vec<String>, ignore_variables: bool },
    Delete { start: usize, end: usize, tags: Vec<String> },
}

/// The mathematical value of an edit.
pub enum EditV {
    Replace {
        from: Seq<char>,
        to: Seq<char>,
        required: bool,
        tags: Seq<Seq<char>>,
        ignore_variables: bool,
    },
    Insert {
        content: Seq<char>,
        position: EditPosition,
        tags: Seq<Seq<char>>,
        ignore_variables: bool,
    },
    Delete { start: usize, end: usize, tags: Seq<Seq<char>> },
}

impl DeepView for FileEdit {
    type V = EditV;

    open spec fn deep_view(&self) -> EditV {
        self.view()
    }
}

impl View for FileEdit {
    type V = EditV;

    open spec fn view(&self) -> EditV {
        match self {
            FileEdit::Replace { from, to, required, tags, ignore_variables } => EditV::Replace {
                from: from@,
                to: to@,
                required: *required,
                tags: tags.deep_view(),
                ignore_variables: *ignore_variables,
            },
            FileEdit::Insert { content, position, tags, ignore_variables } => EditV::Insert {
                content: content@,
                position: *position,
                tags: tags.deep_view(),
                ignore_variables: *ignore_variables,
            },
            FileEdit::Delete { start, end, tags } => EditV::Delete {
                start: *start,
                end: *end,
                tags: tags.deep_view(),
            },
        }
    }
}

/// The tag set of an edit's value.
pub open spec fn edit_tags_view(e: EditV) -> Seq<Seq<char>> {
    match e {
        EditV::Replace { tags, .. } => tags,
        EditV::Insert { tags, .. } => tags,
        EditV::Delete { tags, .. } => tags,
    }
}

/// Whether an edit applies to `s` at all: a required replacement demands its
/// pattern, an insertion at a line demands that many lines, a deletion
/// demands a 1-indexed, non-empty, in-range line interval.
pub open spec fn edit_ok(e: EditV, s: Seq<char>) -> bool {
    match e {
        EditV::Replace { from, required, .. } => !required || contains_seq(s, from),
        EditV::Insert { position, .. } => match position {
            EditPosition::Append => true,
            EditPosition::Prepend => true,
            EditPosition::Line(ln) => ln <= lines_of(s).len(),
        },
        EditV::Delete { start, end, .. } => 1 <= start && start <= end && end <= lines_of(
            s,
        ).len(),
    }
}

/// The result of applying an edit to `s`, where it applies.
pub open spec fn edit_apply(e: EditV, s: Seq<char>) -> Seq<char> {
    match e {
        EditV::Replace { from, to, .. } => replace_seq(s, from, to),
        EditV::Insert { content, position, .. } => match position {
            EditPosition::Append => s + content,
            EditPosition::Prepend => content + s,
            EditPosition::Line(ln) => join_lines(lines_of(s).insert(ln as int, content)),
        },
        EditV::Delete { start, end, .. } => join_lines(
            lines_of(s).subrange(0, start - 1) + lines_of(s).skip(end as int),
        ),
    }
}

impl FileEdit {
    /// An equal copy, field by field.
    pub fn duplicate(&self) -> (r: Self)
        ensures
            r@ == self@,
    {
        match self {
            FileEdit::Replace { from, to, required, tags, ignore_variables } => {
                let r = FileEdit::Replace {
                    from: from.clone(),
                    to: to.clone(),
                    required: *required,
                    tags: clone_tags(tags),
                    ignore_variables: *ignore_variables,
                };
                r
            },
            FileEdit::Insert { content, position, tags, ignore_variables } => FileEdit::Insert {
                content: content.clone(),
                position: *position,
                tags: clone_tags(tags),
                ignore_variables: *ignore_variables,
            },
            FileEdit::Delete { start, end, tags } => FileEdit::Delete {
                start: *start,
                end: *end,
                tags: clone_tags(tags),
            },
        }
    }

    /// Apply the edit to a text, exactly as its kind prescribes; fail where
    /// its precondition on the text does not hold.
    pub fn apply(&self, input: &str) -> (r: Result<String, VaultError>)
        ensures
            r is Ok <==> edit_ok(self@, input@),
            r matches Ok(v) ==> v@ == edit_apply(self@, input@),
            r matches Err(e) ==> e is Edit,
    {
        let cs = chars_vec(input);
        match self {
            FileEdit::Replace { from, to, required, .. } => {
                let fc = chars_vec(from.as_str());
                let tc = chars_vec(to.as_str());
                if *required && !contains_chars(&cs, &fc) {
                    return Err(VaultError::Edit(from.clone()));
                }
                let rc = replace_chars(&cs, &fc, &tc);
                Ok(string_from_chars(&rc))
            },
            FileEdit::Insert { content, position, .. } => {
                let cc = chars_vec(content.as_str());
                match position {
                    EditPosition::Append => {
                        let mut out = subvec(&cs, 0, cs.len());
                        proof {
                            assert(out@ =~= cs@);
                        }
                        append_chars(&mut out, &cc);
                        Ok(string_from_chars(&out))
                    },
                    EditPosition::Prepend => {
                        let mut out = subvec(&cc, 0, cc.len());
                        proof {
                            assert(out@ =~= cc@);
                        }
                        append_chars(&mut out, &cs);
                        Ok(string_from_chars(&out))
                    },
                    EditPosition::Line(ln) => {
                        let mut lines = split_lines(&cs);
                        if *ln > lines.len() {
                            return Err(VaultError::Edit(content.clone()));
                        }
                        let ghost before = lines.deep_view();
                        lines.insert(*ln, cc);
                        proof {
                            assert(lines.deep_view() =~~= before.insert(*ln as int, content@));
                        }
                        let joined = join_newline(&lines);
                        Ok(string_from_chars(&joined))
                    },
                }
            },
            FileEdit::Delete { start, end, .. } => {
                let lines = split_lines(&cs);
                if *start == 0 || *end == 0 || *start > *end || *end > lines.len() {
                    return Err(VaultError::Edit(String::new()));
                }
                let mut kept: Vec<Vec<char>> = Vec::new();
                let mut i: usize = 0;
                while i < *start - 1
                    invariant
                        1 <= *start <= *end <= lines.len(),
                        i <= *start - 1,
                        kept.deep_view() == lines.deep_view().subrange(0, i as int),
                    decreases *start - 1 - i,
                {
                    let ghost prev = kept.deep_view();
                    kept.push(subvec(&lines[i], 0, lines[i].len()));
                    proof {
                        assert(lines@[i as int]@.subrange(0, lines@[i as int]@.len() as int)
                            =~= lines@[i as int]@);
                        assert(kept.deep_view() =~~= prev.push(lines.deep_view()[i as int]));
                        assert(kept.deep_view() =~~= lines.deep_view().subrange(0, i + 1));
                    }
                    i = i + 1;
                }
                let mut j: usize = *end;
                while j < lines.len()
                    invariant
                        1 <= *start <= *end <= lines.len(),
                        *end <= j <= lines.len(),
                        kept.deep_view() == lines.deep_view().subrange(0, *start - 1)
                            + lines.deep_view().subrange(*end as int, j as int),
                    decreases lines.len() - j,
                {
                    let ghost prev = kept.deep_view();
                    kept.push(subvec(&lines[j], 0, lines[j].len()));
                    proof {
                        assert(lines@[j as int]@.subrange(0, lines@[j as int]@.len() as int)
                            =~= lines@[j as int]@);
                        assert(kept.deep_view() =~~= prev.push(lines.deep_view()[j as int]));
                        assert(kept.deep_view() =~~= lines.deep_view().subrange(0, *start - 1)
                            + lines.deep_view().subrange(*end as int, j + 1));
                    }
                    j = j + 1;
                }
                proof {
                    assert(lines.deep_view().subrange(*end as int, lines.deep_view().len() as int)
                        =~~= lines.deep_view().skip(*end as int));
                }
                let joined = join_newline(&kept);
                Ok(string_from_chars(&joined))
            },
        }
    }

    /// The tag set gating this edit.
    pub fn get_tags(&self) -> (r: &Vec<String>)
        ensures
            r.deep_view() == edit_tags_view(self@),
    {
        match self {
            FileEdit::Replace { tags, .. } => tags,
            FileEdit::Insert { tags, .. } => tags,
            FileEdit::Delete { tags, .. } => tags,
        }
    }

    /// The same edit with its tag set emptied.
    pub fn without_tags(&self) -> (r: FileEdit)
        ensures
            r@ == strip_edit_tags(self@),
    {
        match self {
            FileEdit::Replace { from, to, required, ignore_variables, .. } => FileEdit::Replace {
                from: from.clone(),
                to: to.clone(),
                required: *required,
                tags: empty_names(),
                ignore_variables: *ignore_variables,
            },
            FileEdit::Insert { content, position, ignore_variables, .. } => FileEdit::Insert {
                content: content.clone(),
                position: *position,
                tags: empty_names(),
                ignore_variables: *ignore_variables,
            },
            FileEdit::Delete { start, end, .. } => FileEdit::Delete {
                start: *start,
                end: *end,
                tags: empty_names(),
            },
        }
    }

    /// Whether this edit participates under the given active tag set.
    pub fn is_active(&self, tags: &Vec<String>) -> (r: bool)
        ensures
            r == tag_active(edit_tags_view(self@), tags.deep_view()),
    {
        is_active_gate(self.get_tags(), tags)
    }
}

/// An edit's value with its tag set emptied.
pub open spec fn strip_edit_tags(e: EditV) -> EditV {
    match e {
        EditV::Replace { from, to, required, ignore_variables, .. } => EditV::Replace {
            from,
            to,
            required,
            tags: Seq::empty(),
            ignore_variables,
        },
        EditV::Insert { content, position, ignore_variables, .. } => EditV::Insert {
            content,
            position,
            tags: Seq::empty(),
            ignore_variables,
        },
        EditV::Delete { start, end, .. } => EditV::Delete { start, end, tags: Seq::empty() },
    }
}

/// The edits that survive crossing an inclusion boundary: those active under
/// the inclusion's tags, each with its own tags stripped (the activation
/// decision is baked in at inclusion time).
pub open spec fn include_edits_spec(es: Seq<EditV>, act: Seq<Seq<char>>) -> Seq<EditV>
    decreases es.len(),
{
    if es.len() == 0 {
        Seq::empty()
    } else {
        let rest = include_edits_spec(es.drop_last(), act);
        if tag_active(edit_tags_view(es.last()), act) {
            rest.push(strip_edit_tags(es.last()))
        } else {
            rest
        }
    }
}

/// Re-evaluate a file's edits at an inclusion boundary: keep the active ones,
/// stripped of their own tags.
pub fn include_edits(edits: &Vec<FileEdit>, tags: &Vec<String>) -> (r: Vec<FileEdit>)
    ensures
        r.deep_view() == include_edits_spec(edits.deep_view(), tags.deep_view()),
{
    let mut out: Vec<FileEdit> = Vec::new();
    let mut i: usize = 0;
    proof {
        assert(edits.deep_view().subrange(0, 0) =~~= Seq::<EditV>::empty());
    }
    while i < edits.len()
        invariant
            i <= edits.len(),
            out.deep_view() == include_edits_spec(
                edits.deep_view().subrange(0, i as int),
                tags.deep_view(),
            ),
        decreases edits.len() - i,
    {
        let ghost prev = out.deep_view();
        let ghost sub1 = edits.deep_view().subrange(0, i + 1);
        proof {
            assert(sub1.drop_last() =~~= edits.deep_view().subrange(0, i as int));
            assert(sub1.last() == edits.deep_view()[i as int]);
            assert(edits.deep_view()[i as int] == edits@[i as int]@);
        }
        if edits[i].is_active(tags) {
            out.push(edits[i].without_tags());
            proof {
                assert(out.deep_view() =~~= prev.push(strip_edit_tags(edits@[i as int]@)));
            }
        }
        proof {
            assert(out.deep_view() =~~= include_edits_spec(sub1, tags.deep_view()));
        }
        i = i + 1;
    }
    proof {
        assert(edits.deep_view().subrange(0, i as int) =~~= edits.deep_view());
    }
    out
}

/// The variable names an edit requires: none where it ignores variables or
/// deletes lines.
pub open spec fn edit_vars(e: EditV) -> Seq<Seq<char>> {
    match e {
        EditV::Replace { from, to, ignore_variables, .. } => if ignore_variables {
            Seq::empty()
        } else {
            dedup_seq(scan_vars(from) + scan_vars(to))
        },
        EditV::Insert { content, ignore_variables, .. } => if ignore_variables {
            Seq::empty()
        } else {
            scan_vars(content)
        },
        EditV::Delete { .. } => Seq::empty(),
    }
}

/// An edit with one name substituted in its text fields. Substitution acts
/// on the text fields of replacements and insertions whether or not they
/// ignore variables: the flag only exempts them from requiring the names.
pub open spec fn edit_subst1(e: EditV, k: Seq<char>, val: Seq<char>) -> EditV {
    match e {
        EditV::Replace { from, to, required, tags, ignore_variables } => EditV::Replace {
            from: subst_str(from, k, val),
            to: subst_str(to, k, val),
            required,
            tags,
            ignore_variables,
        },
        EditV::Insert { content, position, tags, ignore_variables } => EditV::Insert {
            content: subst_str(content, k, val),
            position,
            tags,
            ignore_variables,
        },
        EditV::Delete { .. } => e,
    }
}

/// An edit with a list of names substituted, in order, in its text fields.
pub open spec fn edit_folded(e: EditV, names: Seq<Seq<char>>, m: Seq<(String, String)>) -> EditV {
    match e {
        EditV::Replace { from, to, required, tags, ignore_variables } => EditV::Replace {
            from: fold_subst_str(from, names, m),
            to: fold_subst_str(to, names, m),
            required,
            tags,
            ignore_variables,
        },
        EditV::Insert { content, position, tags, ignore_variables } => EditV::Insert {
            content: fold_subst_str(content, names, m),
            position,
            tags,
            ignore_variables,
        },
        EditV::Delete { .. } => e,
    }
}

impl VariableCompletion for FileEdit {
    fn required_variables(&self) -> (r: Vec<String>)
        ensures
            r.deep_view() == edit_vars(self@),
    {
        match self {
            FileEdit::Replace { from, to, ignore_variables, .. } => {
                if *ignore_variables {
                    empty_names()
                } else {
                    union2(from.required_variables(), to.required_variables())
                }
            },
            FileEdit::Insert { content, ignore_variables, .. } => {
                if *ignore_variables {
                    empty_names()
                } else {
                    content.required_variables()
                }
            },
            FileEdit::Delete { .. } => empty_names(),
        }
    }

    fn set_single_variable(&self, key: &str, value: &str) -> (r: Self)
        ensures
            r@ == edit_subst1(self@, key@, value@),
    {
        match self {
            FileEdit::Replace { from, to, required, tags, ignore_variables } => FileEdit::Replace {
                from: subst_string(from.as_str(), key, value),
                to: subst_string(to.as_str(), key, value),
                required: *required,
                tags: clone_tags(tags),
                ignore_variables: *ignore_variables,
            },
            FileEdit::Insert { content, position, tags, ignore_variables } => FileEdit::Insert {
                content: subst_string(content.as_str(), key, value),
                position: *position,
                tags: clone_tags(tags),
                ignore_variables: *ignore_variables,
            },
            FileEdit::Delete { .. } => self.duplicate(),
        }
    }

    fn set_variables(&self, map: &Vec<(String, String)>) -> (r: Result<Self, VaultError>)
        ensures
            r is Ok <==> all_bound(edit_vars(self@), map@),
            r matches Ok(v) ==> v@ == edit_folded(self@, edit_vars(self@), map@),
            r matches Err(e) ==> e is Variable && edit_vars(self@).contains(e.detail_view())
                && crate::variables::lookup_var(map@, e.detail_view()) is None,
    {
        let names = self.required_variables();
        if let Err(e) = check_all_bound(&names, map) {
            return Err(e);
        }
        Ok(fold_fileedit(self, &names, map))
    }
}

/// Apply a list of named substitutions to the text fields of an edit.
pub(crate) fn fold_fileedit(e: &FileEdit, names: &Vec<String>, map: &Vec<(String, String)>) -> (r:
    FileEdit)
    ensures
        r@ == edit_folded(e@, names.deep_view(), map@),
{
    match e {
        FileEdit::Replace { from, to, required, tags, ignore_variables } => FileEdit::Replace {
            from: apply_all_string(from, names, map),
            to: apply_all_string(to, names, map),
            required: *required,
            tags: clone_tags(tags),
            ignore_variables: *ignore_variables,
        },
        FileEdit::Insert { content, position, tags, ignore_variables } => FileEdit::Insert {
            content: apply_all_string(content, names, map),
            position: *position,
            tags: clone_tags(tags),
            ignore_variables: *ignore_variables,
        },
        FileEdit::Delete { .. } => e.duplicate(),
    }
}

} // verus!
