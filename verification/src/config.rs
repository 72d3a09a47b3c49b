//! The manifest: file declarations, inclusions of other manifests, directory
//! scans and default tags; variable injection and resolution; and the
//! computation of the active, collision-free file list.

use vstd::prelude::*;
use vstd::utf8::{encode_utf8, valid_utf8};

use crate::edits::{
    edit_apply, edit_folded, edit_ok, edit_subst1, edit_tags_view, edit_vars, fold_fileedit,
    include_edits, include_edits_spec, EditV, FileEdit,
};
use crate::errors::VaultError;
use crate::sources::{
    fold_filesource, format_subpath, hash_hex, source_folded, source_subst1, source_vars,
    strip_slashes, FileSource, SourceV,
};
use crate::tags::{is_active_gate, tag_active, tag_name_ok};
use crate::text::string_from_chars;
use crate::variables::{
    all_bound, apply_all_string, check_all_bound, clone_opt_string, clone_opt_tags, clone_tags,
    concat_all, dedup_seq, empty_names, fold_subst_str, opt_str_view, opt_strs_view, scan_vars,
    subst_str, subst_string, union3, vecset, VariableCompletion,
};
use crate::directories::{path_join, join_path, Directory};

verus! {

/// One declared file: a relative target path, an optional tag set, an
/// optional content-hash pin, a fallback chain of sources and an ordered list
/// of edits.
#[derive(Debug, Clone, PartialEq)]
pub struct File {
    pub path: String,
    pub tags: Option<Vec<String>>,
    pub hash: Option<String>,
    pub sources: Vec<FileSource>,
    pub edits: Vec<FileEdit>,
}

/// The mathematical value of a file declaration.
pub struct FileV {
    pub path: Seq<char>,
    pub tags: Option<Seq<Seq<char>>>,
    pub hash: Option<Seq<char>>,
    pub sources: Seq<SourceV>,
    pub edits: Seq<EditV>,
}

impl DeepView for File {
    type V = FileV;

    open spec fn deep_view(&self) -> FileV {
        self.view()
    }
}

impl View for File {
    type V = FileV;

    open spec fn view(&self) -> FileV {
        FileV {
            path: self.path@,
            tags: opt_strs_view(&self.tags),
            hash: opt_str_view(&self.hash),
            sources: self.sources.deep_view(),
            edits: self.edits.deep_view(),
        }
    }
}

/// The tag set of a file, empty where none was declared.
pub open spec fn file_tags(f: FileV) -> Seq<Seq<char>> {
    match f.tags {
        Some(t) => t,
        None => Seq::empty(),
    }
}

/// Copy a byte vector.
pub fn clone_bytes(v: &Vec<u8>) -> (r: Vec<u8>)
    ensures
        r@ == v@,
{
    let mut out: Vec<u8> = Vec::new();
    let mut i: usize = 0;
    while i < v.len()
        invariant
            i <= v.len(),
            out@ == v@.subrange(0, i as int),
        decreases v.len() - i,
    {
        out.push(v[i]);
        assert(out@ =~= v@.subrange(0, i + 1 as int));
        i = i + 1;
    }
    assert(out@ =~= v@);
    out
}

/// Copy a source list.
pub fn clone_sources(v: &Vec<FileSource>) -> (r: Vec<FileSource>)
    ensures
        r.deep_view() == v.deep_view(),
{
    let mut out: Vec<FileSource> = Vec::new();
    let mut i: usize = 0;
    while i < v.len()
        invariant
            i <= v.len(),
            out.deep_view() == v.deep_view().subrange(0, i as int),
        decreases v.len() - i,
    {
        let ghost prev = out.deep_view();
        out.push(v[i].duplicate());
        proof {
            assert(out.deep_view() =~~= prev.push(v.deep_view()[i as int]));
            assert(out.deep_view() =~~= v.deep_view().subrange(0, i + 1));
        }
        i = i + 1;
    }
    proof {
        assert(out.deep_view() =~~= v.deep_view());
    }
    out
}

/// Copy an edit list.
pub fn clone_edits(v: &Vec<FileEdit>) -> (r: Vec<FileEdit>)
    ensures
        r.deep_view() == v.deep_view(),
{
    let mut out: Vec<FileEdit> = Vec::new();
    let mut i: usize = 0;
    while i < v.len()
        invariant
            i <= v.len(),
            out.deep_view() == v.deep_view().subrange(0, i as int),
        decreases v.len() - i,
    {
        let ghost prev = out.deep_view();
        out.push(v[i].duplicate());
        proof {
            assert(out.deep_view() =~~= prev.push(v.deep_view()[i as int]));
            assert(out.deep_view() =~~= v.deep_view().subrange(0, i + 1));
        }
        i = i + 1;
    }
    proof {
        assert(out.deep_view() =~~= v.deep_view());
    }
    out
}

/// Relies on std's `String::from_utf8`: decodes the bytes as UTF-8, returning
/// a string whose encoding is exactly the input, and nothing for invalid
/// UTF-8.
#[verifier::external_body]
fn utf8_to_string(data: &Vec<u8>) -> (r: Option<String>)
    ensures
        match r {
            Some(s) => valid_utf8(data@) && encode_utf8(s@) == data@,
            None => !valid_utf8(data@),
        },
{
    match String::from_utf8(data.clone()) {
        Ok(s) => Some(s),
        Err(_) => None,
    }
}

/// The outcome of running the active edits of a list, in order, over a text:
/// the transformed text, or nothing as soon as one active edit does not
/// apply.
pub open spec fn apply_edits(es: Seq<EditV>, act: Seq<Seq<char>>, t: Seq<char>) -> Option<
    Seq<char>,
>
    decreases es.len(),
{
    if es.len() == 0 {
        Some(t)
    } else if !tag_active(edit_tags_view(es[0]), act) {
        apply_edits(es.skip(1), act, t)
    } else if edit_ok(es[0], t) {
        apply_edits(es.skip(1), act, edit_apply(es[0], t))
    } else {
        None
    }
}

/// The file's active edits can run over the given base content: there are
/// none, or the content is the encoding of a text on which every active edit
/// applies.
pub open spec fn edits_apply(f: FileV, data: Seq<u8>, act: Seq<Seq<char>>) -> bool {
    f.edits.len() == 0 || (exists|t: Seq<char>|
        encode_utf8(t) == data && apply_edits(f.edits, act, t) is Some)
}

/// Two texts with one encoding are one text.
proof fn lemma_encode_utf8_injective(a: Seq<char>, b: Seq<char>)
    requires
        encode_utf8(a) == encode_utf8(b),
    ensures
        a == b,
{
    vstd::utf8::encode_utf8_decode_utf8(a);
    vstd::utf8::encode_utf8_decode_utf8(b);
}

impl File {
    /// An equal copy, field by field.
    pub fn duplicate(&self) -> (r: Self)
        ensures
            r@ == self@,
    {
        File {
            path: self.path.clone(),
            tags: clone_opt_tags(&self.tags),
            hash: clone_opt_string(&self.hash),
            sources: clone_sources(&self.sources),
            edits: clone_edits(&self.edits),
        }
    }

    /// The tag set gating this file, empty where none was declared.
    pub fn get_tags(&self) -> (r: Vec<String>)
        ensures
            r.deep_view() == file_tags(self@),
    {
        match &self.tags {
            Some(t) => clone_tags(t),
            None => empty_names(),
        }
    }

    /// The relative target path of this file.
    pub fn get_path(&self) -> (r: String)
        ensures
            r@ == strip_slashes(self.path@),
    {
        format_subpath(&self.path)
    }

    /// Whether this file participates under the given active tag set.
    pub fn is_active(&self, reqtags: &Vec<String>) -> (r: bool)
        ensures
            r == tag_active(file_tags(self@), reqtags.deep_view()),
    {
        let own = self.get_tags();
        is_active_gate(&own, reqtags)
    }

    /// Run the file's active edits over content that is already known to be
    /// right (fetched, or reused from the reference tree). With no edits the
    /// content passes through unchanged; with edits it must be valid UTF-8.
    pub fn from_reference_unchecked(&self, data: &Vec<u8>, tags: &Vec<String>) -> (r: Result<
        Vec<u8>,
        VaultError,
    >)
        ensures
            self.edits.len() == 0 ==> (r matches Ok(v) && v@ == data@),
            self.edits.len() > 0 && !valid_utf8(data@) ==> (r matches Err(e) && e is Edit),
            self.edits.len() > 0 && valid_utf8(data@) ==> (exists|t: Seq<char>|
                encode_utf8(t) == data@ && match apply_edits(self@.edits, tags.deep_view(), t) {
                    Some(out) => r matches Ok(v) && v@ == encode_utf8(out),
                    None => r matches Err(e) && e is Edit,
                }),
            edits_apply(self@, data@, tags.deep_view()) ==> r is Ok,
    {
        if self.edits.len() == 0 {
            return Ok(clone_bytes(data));
        }
        let mut text = match utf8_to_string(data) {
            Some(s) => s,
            None => {
                proof {
                    if edits_apply(self@, data@, tags.deep_view()) {
                        let tw = choose|t: Seq<char>|
                            encode_utf8(t) == data@ && apply_edits(
                                self@.edits,
                                tags.deep_view(),
                                t,
                            ) is Some;
                        vstd::utf8::encode_utf8_valid_utf8(tw);
                        assert(false);
                    }
                }
                return Err(VaultError::Edit(self.path.clone()));
            },
        };
        let ghost t0 = text@;
        let mut i: usize = 0;
        let ghost act = tags.deep_view();
        let ghost es = self.edits.deep_view();
        proof {
            assert(es.skip(0) =~~= es);
        }
        while i < self.edits.len()
            invariant
                i <= self.edits.len(),
                es == self.edits.deep_view(),
                es.len() == self.edits@.len(),
                act == tags.deep_view(),
                encode_utf8(t0) == data@,
                apply_edits(es, act, t0) == apply_edits(es.skip(i as int), act, text@),
            decreases self.edits.len() - i,
        {
            proof {
                assert(es.skip(i as int)[0] == es[i as int]);
                assert(es[i as int] == self.edits@[i as int]@);
                assert(es.skip(i as int).skip(1) =~~= es.skip(i + 1));
            }
            if self.edits[i].is_active(tags) {
                text = match self.edits[i].apply(text.as_str()) {
                    Ok(t) => t,
                    Err(e) => {
                        proof {
                            assert(self@.edits == es);
                            assert(apply_edits(es.skip(i as int), act, text@) is None);
                            assert(apply_edits(es, act, t0) is None);
                            assert(encode_utf8(t0) == data@);
                            assert(apply_edits(self@.edits, tags.deep_view(), t0) is None);
                            assert(exists|t: Seq<char>|
                                encode_utf8(t) == data@ && (apply_edits(
                                    self@.edits,
                                    tags.deep_view(),
                                    t,
                                ) is None));
                            if edits_apply(self@, data@, tags.deep_view()) {
                                let tw = choose|t: Seq<char>|
                                    encode_utf8(t) == data@ && apply_edits(
                                        self@.edits,
                                        tags.deep_view(),
                                        t,
                                    ) is Some;
                                lemma_encode_utf8_injective(t0, tw);
                                assert(false);
                            }
                        }
                        return Err(e);
                    },
                };
            }
            i = i + 1;
        }
        proof {
            assert(es.skip(i as int) =~~= Seq::<EditV>::empty());
            assert(apply_edits(self@.edits, tags.deep_view(), t0) == Some(text@));
            assert(encode_utf8(t0) == data@);
        }
        Ok(text.as_str().as_bytes_vec())
    }

    /// Validate freshly fetched content against the file's hash pin, then run
    /// the active edits over it.
    pub fn build(&self, tags: &Vec<String>, data: &Vec<u8>) -> (r: Result<Vec<u8>, VaultError>)
        ensures
            (match self@.hash {
                Some(h) => h != hash_hex(data@),
                None => false,
            }) ==> (r matches Err(e) && e is HashMismatch),
            (match self@.hash {
                Some(h) => h == hash_hex(data@),
                None => true,
            }) ==> {
                &&& self.edits.len() == 0 ==> (r matches Ok(v) && v@ == data@)
                &&& self.edits.len() > 0 && !valid_utf8(data@) ==> (r matches Err(e) && e is Edit)
                &&& self.edits.len() > 0 && valid_utf8(data@) ==> (exists|t: Seq<char>|
                    encode_utf8(t) == data@ && match apply_edits(
                        self@.edits,
                        tags.deep_view(),
                        t,
                    ) {
                        Some(out) => r matches Ok(v) && v@ == encode_utf8(out),
                        None => r matches Err(e) && e is Edit,
                    })
                &&& edits_apply(self@, data@, tags.deep_view()) ==> r is Ok
            },
    {
        if let Some(h) = &self.hash {
            let actual = crate::sources::compute_hash(data);
            if !h.eq(&actual) {
                return Err(VaultError::HashMismatch(self.path.clone()));
            }
        }
        self.from_reference_unchecked(data, tags)
    }
}

/// Whether fetched bytes satisfy an optional hash pin: with no pin any bytes
/// do, with a pin exactly the bytes hashing to it.
pub fn source_bytes_valid(hash: &Option<String>, data: &Vec<u8>) -> (r: bool)
    ensures
        r == (match opt_str_view(hash) {
            Some(h) => h == hash_hex(data@),
            None => true,
        }),
{
    match hash {
        Some(h) => {
            let actual = crate::sources::compute_hash(data);
            h.eq(&actual)
        },
        None => true,
    }
}

/// Check the raw bytes of a loaded manifest against an optional hash pin.
pub fn check_hash_pin(hash: &Option<String>, data: &Vec<u8>) -> (r: Result<(), VaultError>)
    ensures
        r is Ok <==> (match opt_str_view(hash) {
            Some(h) => h == hash_hex(data@),
            None => true,
        }),
        r matches Err(e) ==> e is HashMismatch,
{
    if source_bytes_valid(hash, data) {
        Ok(())
    } else {
        Err(VaultError::HashMismatch(String::new()))
    }
}

/// The concatenated variable names of a list of sources.
pub open spec fn sources_vars_cat(ss: Seq<SourceV>) -> Seq<Seq<char>>
    decreases ss.len(),
{
    if ss.len() == 0 {
        Seq::empty()
    } else {
        sources_vars_cat(ss.drop_last()) + source_vars(ss.last())
    }
}

/// The concatenated variable names of a list of edits.
pub open spec fn edits_vars_cat(es: Seq<EditV>) -> Seq<Seq<char>>
    decreases es.len(),
{
    if es.len() == 0 {
        Seq::empty()
    } else {
        edits_vars_cat(es.drop_last()) + edit_vars(es.last())
    }
}

/// The variable names a file requires: those of its path, its sources and
/// its edits.
pub open spec fn file_vars(f: FileV) -> Seq<Seq<char>> {
    dedup_seq(
        scan_vars(f.path) + dedup_seq(sources_vars_cat(f.sources)) + dedup_seq(
            edits_vars_cat(f.edits),
        ),
    )
}

/// A file with one name substituted in its path, sources and edits.
pub open spec fn file_subst1(f: FileV, k: Seq<char>, val: Seq<char>) -> FileV {
    FileV {
        path: subst_str(f.path, k, val),
        tags: f.tags,
        hash: f.hash,
        sources: f.sources.map_values(|s: SourceV| source_subst1(s, k, val)),
        edits: f.edits.map_values(|e: EditV| edit_subst1(e, k, val)),
    }
}

/// A file with a list of names substituted, in order, in its path, sources
/// and edits.
pub open spec fn file_folded(f: FileV, names: Seq<Seq<char>>, m: Seq<(String, String)>) -> FileV {
    FileV {
        path: fold_subst_str(f.path, names, m),
        tags: f.tags,
        hash: f.hash,
        sources: f.sources.map_values(|s: SourceV| source_folded(s, names, m)),
        edits: f.edits.map_values(|e: EditV| edit_folded(e, names, m)),
    }
}

impl VariableCompletion for File {
    fn required_variables(&self) -> (r: Vec<String>)
        ensures
            r.deep_view() == file_vars(self@),
    {
        let mut sparts: Vec<Vec<String>> = Vec::new();
        let mut i: usize = 0;
        let ghost ssv = self.sources.deep_view();
        proof {
            assert(ssv.subrange(0, 0) =~~= Seq::<SourceV>::empty());
            assert(concat_all(sparts.deep_view()) =~~= sources_vars_cat(ssv.subrange(0, 0)));
        }
        while i < self.sources.len()
            invariant
                i <= self.sources.len(),
                ssv == self.sources.deep_view(),
                ssv.len() == self.sources@.len(),
                concat_all(sparts.deep_view()) == sources_vars_cat(ssv.subrange(0, i as int)),
            decreases self.sources.len() - i,
        {
            let ghost pv = sparts.deep_view();
            let req = self.sources[i].required_variables();
            let ghost reqv = req.deep_view();
            sparts.push(req);
            proof {
                assert(sparts.deep_view().drop_last() =~~= pv);
                assert(sparts.deep_view().last() =~~= reqv);
                assert(ssv.subrange(0, i + 1).drop_last() =~~= ssv.subrange(0, i as int));
                assert(ssv.subrange(0, i + 1).last() == ssv[i as int]);
                assert(ssv[i as int] == self.sources@[i as int]@);
                assert(concat_all(sparts.deep_view()) =~~= sources_vars_cat(
                    ssv.subrange(0, i + 1),
                ));
            }
            i = i + 1;
        }
        proof {
            assert(ssv.subrange(0, i as int) =~~= ssv);
        }
        let src_req = vecset(sparts);

        let mut eparts: Vec<Vec<String>> = Vec::new();
        let mut j: usize = 0;
        let ghost esv = self.edits.deep_view();
        proof {
            assert(esv.subrange(0, 0) =~~= Seq::<EditV>::empty());
            assert(concat_all(eparts.deep_view()) =~~= edits_vars_cat(esv.subrange(0, 0)));
        }
        while j < self.edits.len()
            invariant
                j <= self.edits.len(),
                esv == self.edits.deep_view(),
                esv.len() == self.edits@.len(),
                concat_all(eparts.deep_view()) == edits_vars_cat(esv.subrange(0, j as int)),
            decreases self.edits.len() - j,
        {
            let ghost pv = eparts.deep_view();
            let req = self.edits[j].required_variables();
            let ghost reqv = req.deep_view();
            eparts.push(req);
            proof {
                assert(eparts.deep_view().drop_last() =~~= pv);
                assert(eparts.deep_view().last() =~~= reqv);
                assert(esv.subrange(0, j + 1).drop_last() =~~= esv.subrange(0, j as int));
                assert(esv.subrange(0, j + 1).last() == esv[j as int]);
                assert(esv[j as int] == self.edits@[j as int]@);
                assert(concat_all(eparts.deep_view()) =~~= edits_vars_cat(esv.subrange(0, j + 1)));
            }
            j = j + 1;
        }
        proof {
            assert(esv.subrange(0, j as int) =~~= esv);
        }
        let edit_req = vecset(eparts);

        union3(self.path.required_variables(), src_req, edit_req)
    }

    fn set_single_variable(&self, key: &str, value: &str) -> (r: Self)
        ensures
            r@ == file_subst1(self@, key@, value@),
    {
        let mut new_sources: Vec<FileSource> = Vec::new();
        let mut i: usize = 0;
        let ghost ssv = self.sources.deep_view();
        while i < self.sources.len()
            invariant
                i <= self.sources.len(),
                ssv == self.sources.deep_view(),
                ssv.len() == self.sources@.len(),
                new_sources.deep_view() == ssv.subrange(0, i as int).map_values(
                    |s: SourceV| source_subst1(s, key@, value@),
                ),
            decreases self.sources.len() - i,
        {
            let ghost prev = new_sources.deep_view();
            new_sources.push(self.sources[i].set_single_variable(key, value));
            proof {
                assert(ssv[i as int] == self.sources@[i as int]@);
                assert(new_sources.deep_view() =~~= prev.push(
                    source_subst1(ssv[i as int], key@, value@),
                ));
                assert(new_sources.deep_view() =~~= ssv.subrange(0, i + 1).map_values(
                    |s: SourceV| source_subst1(s, key@, value@),
                ));
            }
            i = i + 1;
        }
        proof {
            assert(ssv.subrange(0, i as int) =~~= ssv);
        }
        let mut new_edits: Vec<FileEdit> = Vec::new();
        let mut j: usize = 0;
        let ghost esv = self.edits.deep_view();
        while j < self.edits.len()
            invariant
                j <= self.edits.len(),
                esv == self.edits.deep_view(),
                esv.len() == self.edits@.len(),
                new_edits.deep_view() == esv.subrange(0, j as int).map_values(
                    |e: EditV| edit_subst1(e, key@, value@),
                ),
            decreases self.edits.len() - j,
        {
            let ghost prev = new_edits.deep_view();
            new_edits.push(self.edits[j].set_single_variable(key, value));
            proof {
                assert(esv[j as int] == self.edits@[j as int]@);
                assert(new_edits.deep_view() =~~= prev.push(
                    edit_subst1(esv[j as int], key@, value@),
                ));
                assert(new_edits.deep_view() =~~= esv.subrange(0, j + 1).map_values(
                    |e: EditV| edit_subst1(e, key@, value@),
                ));
            }
            j = j + 1;
        }
        proof {
            assert(esv.subrange(0, j as int) =~~= esv);
        }
        File {
            path: subst_string(self.path.as_str(), key, value),
            tags: clone_opt_tags(&self.tags),
            hash: clone_opt_string(&self.hash),
            sources: new_sources,
            edits: new_edits,
        }
    }

    fn set_variables(&self, map: &Vec<(String, String)>) -> (r: Result<Self, VaultError>)
        ensures
            r is Ok <==> all_bound(file_vars(self@), map@),
            r matches Ok(v) ==> v@ == file_folded(self@, file_vars(self@), map@),
            r matches Err(e) ==> e is Variable && file_vars(self@).contains(e.detail_view())
                && crate::variables::lookup_var(map@, e.detail_view()) is None,
    {
        let names = self.required_variables();
        if let Err(e) = check_all_bound(&names, map) {
            return Err(e);
        }
        let ghost nv = names.deep_view();
        let mut new_sources: Vec<FileSource> = Vec::new();
        let mut i: usize = 0;
        let ghost ssv = self.sources.deep_view();
        while i < self.sources.len()
            invariant
                i <= self.sources.len(),
                ssv == self.sources.deep_view(),
                ssv.len() == self.sources@.len(),
                nv == names.deep_view(),
                new_sources.deep_view() == ssv.subrange(0, i as int).map_values(
                    |s: SourceV| source_folded(s, nv, map@),
                ),
            decreases self.sources.len() - i,
        {
            let ghost prev = new_sources.deep_view();
            new_sources.push(fold_filesource(&self.sources[i], &names, map));
            proof {
                assert(ssv[i as int] == self.sources@[i as int]@);
                assert(new_sources.deep_view() =~~= prev.push(
                    source_folded(ssv[i as int], nv, map@),
                ));
                assert(new_sources.deep_view() =~~= ssv.subrange(0, i + 1).map_values(
                    |s: SourceV| source_folded(s, nv, map@),
                ));
            }
            i = i + 1;
        }
        proof {
            assert(ssv.subrange(0, i as int) =~~= ssv);
        }
        let mut new_edits: Vec<FileEdit> = Vec::new();
        let mut j: usize = 0;
        let ghost esv = self.edits.deep_view();
        while j < self.edits.len()
            invariant
                j <= self.edits.len(),
                esv == self.edits.deep_view(),
                esv.len() == self.edits@.len(),
                nv == names.deep_view(),
                new_edits.deep_view() == esv.subrange(0, j as int).map_values(
                    |e: EditV| edit_folded(e, nv, map@),
                ),
            decreases self.edits.len() - j,
        {
            let ghost prev = new_edits.deep_view();
            new_edits.push(fold_fileedit(&self.edits[j], &names, map));
            proof {
                assert(esv[j as int] == self.edits@[j as int]@);
                assert(new_edits.deep_view() =~~= prev.push(edit_folded(esv[j as int], nv, map@)));
                assert(new_edits.deep_view() =~~= esv.subrange(0, j + 1).map_values(
                    |e: EditV| edit_folded(e, nv, map@),
                ));
            }
            j = j + 1;
        }
        proof {
            assert(esv.subrange(0, j as int) =~~= esv);
        }
        Ok(
            File {
                path: apply_all_string(&self.path, &names, map),
                tags: clone_opt_tags(&self.tags),
                hash: clone_opt_string(&self.hash),
                sources: new_sources,
                edits: new_edits,
            },
        )
    }
}

/// An inclusion of another manifest: a reference to it, an optional re-tag,
/// the tags passed down when resolving it, a target subfolder, and an
/// optional hash pin on its raw bytes.
#[derive(Debug, Clone, PartialEq)]
pub struct Inclusion {
    pub config: String,
    pub tags: Option<Vec<String>>,
    pub with_tags: Vec<String>,
    pub subfolder: String,
    pub hash: Option<String>,
}

/// The mathematical value of an inclusion.
pub struct InclusionV {
    pub config: Seq<char>,
    pub tags: Option<Seq<Seq<char>>>,
    pub with_tags: Seq<Seq<char>>,
    pub subfolder: Seq<char>,
    pub hash: Option<Seq<char>>,
}

impl DeepView for Inclusion {
    type V = InclusionV;

    open spec fn deep_view(&self) -> InclusionV {
        self.view()
    }
}

impl View for Inclusion {
    type V = InclusionV;

    open spec fn view(&self) -> InclusionV {
        InclusionV {
            config: self.config@,
            tags: opt_strs_view(&self.tags),
            with_tags: self.with_tags.deep_view(),
            subfolder: self.subfolder@,
            hash: opt_str_view(&self.hash),
        }
    }
}

/// The tag set of an inclusion, empty where none was declared.
pub open spec fn inclusion_tags(inc: InclusionV) -> Seq<Seq<char>> {
    match inc.tags {
        Some(t) => t,
        None => Seq::empty(),
    }
}

/// One child file as it crosses the inclusion boundary: its path moves under
/// the subfolder, the inclusion's tags replace its own, and its edits are
/// re-evaluated once against the inclusion's tags.
pub open spec fn included_file(inc: InclusionV, f: FileV) -> FileV {
    FileV {
        path: path_join(inc.subfolder, strip_slashes(f.path)),
        tags: inc.tags,
        hash: f.hash,
        sources: f.sources,
        edits: include_edits_spec(f.edits, inclusion_tags(inc)),
    }
}

impl Inclusion {
    /// The files this inclusion pulls in, given the child manifest's active
    /// file list: each child file rewritten for the parent. Importing
    /// nothing from a child manifest is a configuration mistake and is
    /// rejected.
    pub fn get_files(&self, child_files: &Vec<File>) -> (r: Result<Vec<File>, VaultError>)
        ensures
            r is Ok <==> child_files.len() > 0,
            r matches Ok(out) ==> out.deep_view() == child_files.deep_view().map_values(
                |f: FileV| included_file(self@, f),
            ),
            r matches Err(e) ==> e is Parse,
    {
        if child_files.len() == 0 {
            return Err(VaultError::Parse(self.config.clone()));
        }
        let own_tags = match &self.tags {
            Some(t) => clone_tags(t),
            None => empty_names(),
        };
        let mut out: Vec<File> = Vec::new();
        let mut i: usize = 0;
        let ghost cfv = child_files.deep_view();
        while i < child_files.len()
            invariant
                i <= child_files.len(),
                cfv == child_files.deep_view(),
                cfv.len() == child_files@.len(),
                own_tags.deep_view() == inclusion_tags(self@),
                out.deep_view() == cfv.subrange(0, i as int).map_values(
                    |f: FileV| included_file(self@, f),
                ),
            decreases child_files.len() - i,
        {
            let ghost prev = out.deep_view();
            let child = &child_files[i];
            let f = File {
                path: join_path(&self.subfolder, &child.get_path()),
                tags: clone_opt_tags(&self.tags),
                hash: clone_opt_string(&child.hash),
                sources: clone_sources(&child.sources),
                edits: include_edits(&child.edits, &own_tags),
            };
            proof {
                assert(cfv[i as int] == child_files@[i as int]@);
                assert(f@ == included_file(self@, cfv[i as int]));
            }
            out.push(f);
            proof {
                assert(out.deep_view() =~~= prev.push(included_file(self@, cfv[i as int])));
                assert(out.deep_view() =~~= cfv.subrange(0, i + 1).map_values(
                    |f: FileV| included_file(self@, f),
                ));
            }
            i = i + 1;
        }
        proof {
            assert(cfv.subrange(0, i as int) =~~= cfv);
        }
        Ok(out)
    }
}

/// The variable names an inclusion requires: those of its subfolder and its
/// reference.
pub open spec fn inclusion_vars(inc: InclusionV) -> Seq<Seq<char>> {
    dedup_seq(scan_vars(inc.subfolder) + scan_vars(inc.config))
}

/// An inclusion with one name substituted in its reference and subfolder.
pub open spec fn inclusion_subst1(inc: InclusionV, k: Seq<char>, val: Seq<char>) -> InclusionV {
    InclusionV {
        config: subst_str(inc.config, k, val),
        tags: inc.tags,
        with_tags: inc.with_tags,
        subfolder: subst_str(inc.subfolder, k, val),
        hash: inc.hash,
    }
}

/// An inclusion with a list of names substituted, in order.
pub open spec fn inclusion_folded(
    inc: InclusionV,
    names: Seq<Seq<char>>,
    m: Seq<(String, String)>,
) -> InclusionV {
    InclusionV {
        config: fold_subst_str(inc.config, names, m),
        tags: inc.tags,
        with_tags: inc.with_tags,
        subfolder: fold_subst_str(inc.subfolder, names, m),
        hash: inc.hash,
    }
}

impl VariableCompletion for Inclusion {
    fn required_variables(&self) -> (r: Vec<String>)
        ensures
            r.deep_view() == inclusion_vars(self@),
    {
        crate::variables::union2(
            self.subfolder.required_variables(),
            self.config.required_variables(),
        )
    }

    fn set_single_variable(&self, key: &str, value: &str) -> (r: Self)
        ensures
            r@ == inclusion_subst1(self@, key@, value@),
    {
        Inclusion {
            config: subst_string(self.config.as_str(), key, value),
            tags: clone_opt_tags(&self.tags),
            with_tags: clone_tags(&self.with_tags),
            subfolder: subst_string(self.subfolder.as_str(), key, value),
            hash: clone_opt_string(&self.hash),
        }
    }

    fn set_variables(&self, map: &Vec<(String, String)>) -> (r: Result<Self, VaultError>)
        ensures
            r is Ok <==> all_bound(inclusion_vars(self@), map@),
            r matches Ok(v) ==> v@ == inclusion_folded(self@, inclusion_vars(self@), map@),
            r matches Err(e) ==> e is Variable && inclusion_vars(self@).contains(e.detail_view())
                && crate::variables::lookup_var(map@, e.detail_view()) is None,
    {
        let names = self.required_variables();
        if let Err(e) = check_all_bound(&names, map) {
            return Err(e);
        }
        Ok(
            Inclusion {
                config: apply_all_string(&self.config, &names, map),
                tags: clone_opt_tags(&self.tags),
                with_tags: clone_tags(&self.with_tags),
                subfolder: apply_all_string(&self.subfolder, &names, map),
                hash: clone_opt_string(&self.hash),
            },
        )
    }
}

/// The manifest: variables, file declarations, inclusions, directory scans
/// and default tags. Its derived file list may only be queried once the
/// variables have been resolved, which the `variables_set` flag records.
#[derive(Debug, Clone, PartialEq)]
pub struct Config {
    pub variables_set: bool,
    pub variables: Vec<(String, String)>,
    pub content: Vec<File>,
    pub inclusions: Vec<Inclusion>,
    pub directories: Vec<Directory>,
    pub default_tags: Vec<String>,
}

/// The concatenated tag sets of a list of edits.
pub open spec fn edits_tags_cat(es: Seq<EditV>) -> Seq<Seq<char>>
    decreases es.len(),
{
    if es.len() == 0 {
        Seq::empty()
    } else {
        edits_tags_cat(es.drop_last()) + edit_tags_view(es.last())
    }
}

/// The concatenated tag sets of a list of files, each file's own tags before
/// those of its edits.
pub open spec fn files_tags_cat(fs: Seq<FileV>) -> Seq<Seq<char>>
    decreases fs.len(),
{
    if fs.len() == 0 {
        Seq::empty()
    } else {
        files_tags_cat(fs.drop_last()) + file_tags(fs.last()) + edits_tags_cat(fs.last().edits)
    }
}

/// The concatenated tag sets of a list of inclusions.
pub open spec fn incls_tags_cat(is_: Seq<InclusionV>) -> Seq<Seq<char>>
    decreases is_.len(),
{
    if is_.len() == 0 {
        Seq::empty()
    } else {
        incls_tags_cat(is_.drop_last()) + inclusion_tags(is_.last())
    }
}

/// The concatenated tag sets of a list of directories.
pub open spec fn dirs_tags_cat(ds: Seq<crate::directories::DirectoryV>) -> Seq<Seq<char>>
    decreases ds.len(),
{
    if ds.len() == 0 {
        Seq::empty()
    } else {
        dirs_tags_cat(ds.drop_last()) + crate::directories::dir_tags(ds.last())
    }
}

/// The tag universe of a manifest: every tag declared on a file, an edit, an
/// inclusion or a directory, without duplicates.
pub open spec fn tag_universe(
    content: Seq<FileV>,
    incls: Seq<InclusionV>,
    dirs: Seq<crate::directories::DirectoryV>,
) -> Seq<Seq<char>> {
    dedup_seq(files_tags_cat(content) + incls_tags_cat(incls) + dirs_tags_cat(dirs))
}

/// The tag requests after trimming surrounding whitespace.
pub open spec fn trimmed_tags(given: Seq<Seq<char>>) -> Seq<Seq<char>> {
    given.map_values(|t: Seq<char>| crate::tags::trim_spec(t))
}

/// Whether a tag request is a negation.
pub open spec fn starts_bang(t: Seq<char>) -> bool {
    t.len() > 0 && t[0] == '!'
}

/// The positive requests of a trimmed tag request list.
pub open spec fn positives(ts: Seq<Seq<char>>) -> Seq<Seq<char>>
    decreases ts.len(),
{
    if ts.len() == 0 {
        Seq::empty()
    } else {
        let rest = positives(ts.drop_last());
        if starts_bang(ts.last()) {
            rest
        } else {
            rest.push(ts.last())
        }
    }
}

/// The negated requests of a trimmed tag request list, without their leading
/// `!`.
pub open spec fn negatives(ts: Seq<Seq<char>>) -> Seq<Seq<char>>
    decreases ts.len(),
{
    if ts.len() == 0 {
        Seq::empty()
    } else {
        let rest = negatives(ts.drop_last());
        if starts_bang(ts.last()) {
            rest.push(ts.last().skip(1))
        } else {
            rest
        }
    }
}

/// A request both activates and negates some tag.
pub open spec fn has_conflict(given: Seq<Seq<char>>) -> bool {
    exists|i: int|
        0 <= i < negatives(trimmed_tags(given)).len() && positives(trimmed_tags(given)).contains(
            negatives(trimmed_tags(given))[i],
        )
}

/// A tag list with the negated tags removed.
pub open spec fn remove_negs(ts: Seq<Seq<char>>, negs: Seq<Seq<char>>) -> Seq<Seq<char>>
    decreases ts.len(),
{
    if ts.len() == 0 {
        Seq::empty()
    } else {
        let rest = remove_negs(ts.drop_last(), negs);
        if negs.contains(ts.last()) {
            rest
        } else {
            rest.push(ts.last())
        }
    }
}

/// The active tag set of a request: the defaults joined with the positive
/// requests, without duplicates, minus the negated tags.
pub open spec fn active_set(defaults: Seq<Seq<char>>, given: Seq<Seq<char>>) -> Seq<Seq<char>> {
    remove_negs(
        dedup_seq(defaults + positives(trimmed_tags(given))),
        negatives(trimmed_tags(given)),
    )
}

/// Every tag of `act` is declared in the universe.
pub open spec fn all_declared(act: Seq<Seq<char>>, universe: Seq<Seq<char>>) -> bool {
    forall|i: int| 0 <= i < act.len() ==> universe.contains(act[i])
}

/// A file carries a tag that is active (an empty tag set does not count).
pub open spec fn file_tagged_active(f: FileV, act: Seq<Seq<char>>) -> bool {
    exists|i: int| 0 <= i < file_tags(f).len() && act.contains(file_tags(f)[i])
}

/// The stripped paths of the candidates that carry an active tag.
pub open spec fn tagged_paths_spec(cands: Seq<FileV>, act: Seq<Seq<char>>) -> Seq<Seq<char>>
    decreases cands.len(),
{
    if cands.len() == 0 {
        Seq::empty()
    } else {
        let rest = tagged_paths_spec(cands.drop_last(), act);
        if file_tagged_active(cands.last(), act) {
            rest.push(strip_slashes(cands.last().path))
        } else {
            rest
        }
    }
}

/// Membership in the tagged paths is the existence of a tagged-and-active
/// candidate with that path.
pub proof fn lemma_tagged_paths_contains(cands: Seq<FileV>, act: Seq<Seq<char>>, p: Seq<char>)
    ensures
        tagged_paths_spec(cands, act).contains(p) <==> (exists|j: int|
            0 <= j < cands.len() && file_tagged_active(cands[j], act) && strip_slashes(
                cands[j].path,
            ) == p),
    decreases cands.len(),
{
    if cands.len() > 0 {
        lemma_tagged_paths_contains(cands.drop_last(), act, p);
        let tp = tagged_paths_spec(cands, act);
        let rest = tagged_paths_spec(cands.drop_last(), act);
        if exists|j: int|
            0 <= j < cands.drop_last().len() && file_tagged_active(cands.drop_last()[j], act)
                && strip_slashes(cands.drop_last()[j].path) == p {
            let j = choose|j: int|
                0 <= j < cands.drop_last().len() && file_tagged_active(cands.drop_last()[j], act)
                    && strip_slashes(cands.drop_last()[j].path) == p;
            assert(cands[j] == cands.drop_last()[j]);
        }
        if rest.contains(p) {
            let i = choose|i: int| 0 <= i < rest.len() && rest[i] == p;
            if file_tagged_active(cands.last(), act) {
                assert(tp[i] == p);
            }
            assert(tp.contains(p));
        }
        if file_tagged_active(cands.last(), act) && strip_slashes(cands.last().path) == p {
            assert(tp.last() == p);
            assert(tp.contains(p));
        }
        if tp.contains(p) {
            let i = choose|i: int| 0 <= i < tp.len() && tp[i] == p;
            if file_tagged_active(cands.last(), act) {
                if i < tp.len() - 1 {
                    assert(rest[i] == p);
                    assert(rest.contains(p));
                } else {
                    assert(strip_slashes(cands.last().path) == p);
                }
            } else {
                assert(rest[i] == p);
                assert(rest.contains(p));
            }
        }
        if exists|j: int|
            0 <= j < cands.len() && file_tagged_active(cands[j], act) && strip_slashes(
                cands[j].path,
            ) == p {
            let j = choose|j: int|
                0 <= j < cands.len() && file_tagged_active(cands[j], act) && strip_slashes(
                    cands[j].path,
                ) == p;
            if j < cands.len() - 1 {
                assert(cands.drop_last()[j] == cands[j]);
            }
        }
    }
}

/// Whether a candidate survives activation and precedence: it must be active,
/// and an untagged candidate yields to a tagged-and-active candidate with the
/// same path.
pub open spec fn keep_candidate(f: FileV, cands: Seq<FileV>, act: Seq<Seq<char>>) -> bool {
    &&& tag_active(file_tags(f), act)
    &&& !(file_tags(f).len() == 0 && (exists|j: int|
        0 <= j < cands.len() && file_tagged_active(cands[j], act) && strip_slashes(cands[j].path)
            == strip_slashes(f.path)))
}

/// The candidates of the first `n` that survive activation and precedence,
/// in order.
pub open spec fn selected(cands: Seq<FileV>, n: int, act: Seq<Seq<char>>) -> Seq<FileV>
    decreases n,
    when 0 <= n <= cands.len()
{
    if n == 0 {
        Seq::empty()
    } else {
        let rest = selected(cands, n - 1, act);
        if keep_candidate(cands[n - 1], cands, act) {
            rest.push(cands[n - 1])
        } else {
            rest
        }
    }
}

/// No two files resolve to the same target path.
pub open spec fn distinct_paths(fs: Seq<FileV>) -> bool {
    forall|i: int, j: int| 0 <= i < j < fs.len() ==> strip_slashes(fs[i].path) != strip_slashes(
        fs[j].path,
    )
}

/// Two of the files map to one target path.
pub open spec fn collides_at(fs: Seq<FileV>, p: Seq<char>) -> bool {
    exists|x: int, y: int|
        0 <= x < y < fs.len() && strip_slashes(fs[x].path) == p && strip_slashes(fs[y].path) == p
}

/// A pair of selected candidates mapping to one path persists as more
/// candidates are considered.
pub proof fn lemma_collision_persists(
    cands: Seq<FileV>,
    act: Seq<Seq<char>>,
    n: int,
    m: int,
    p: Seq<char>,
)
    requires
        0 <= n <= m <= cands.len(),
        collides_at(selected(cands, n, act), p),
    ensures
        collides_at(selected(cands, m, act), p),
    decreases m - n,
{
    if m > n {
        let s1 = selected(cands, n, act);
        let s2 = selected(cands, n + 1, act);
        let (x, y) = choose|x: int, y: int|
            0 <= x < y < s1.len() && strip_slashes(s1[x].path) == p && strip_slashes(s1[y].path)
                == p;
        assert(s2[x] == s1[x]);
        assert(s2[y] == s1[y]);
        assert(collides_at(s2, p));
        lemma_collision_persists(cands, act, n + 1, m, p);
    }
}

/// A path collision among the first `n` candidates persists among more.
pub proof fn lemma_selected_monotone(cands: Seq<FileV>, act: Seq<Seq<char>>, n: int, m: int)
    requires
        0 <= n <= m <= cands.len(),
        !distinct_paths(selected(cands, n, act)),
    ensures
        !distinct_paths(selected(cands, m, act)),
    decreases m - n,
{
    if m > n {
        let s1 = selected(cands, n, act);
        let s2 = selected(cands, n + 1, act);
        let (i, j) = choose|i: int, j: int|
            0 <= i < j < s1.len() && strip_slashes(s1[i].path) == strip_slashes(s1[j].path);
        assert(s2[i] == s1[i]);
        assert(s2[j] == s1[j]);
        assert(!distinct_paths(s2));
        lemma_selected_monotone(cands, act, n + 1, m);
    }
}

/// Decide whether a file carries an active tag.
fn file_has_active_tag(f: &File, act: &Vec<String>) -> (r: bool)
    ensures
        r == file_tagged_active(f@, act.deep_view()),
{
    let own = f.get_tags();
    let mut i: usize = 0;
    while i < own.len()
        invariant
            i <= own.len(),
            own.deep_view() == file_tags(f@),
            forall|t: int| 0 <= t < i ==> !act.deep_view().contains(file_tags(f@)[t]),
        decreases own.len() - i,
    {
        proof {
            assert(own.deep_view()[i as int] == own@[i as int]@);
        }
        if crate::variables::contains_string(act, &own[i]) {
            return true;
        }
        i = i + 1;
    }
    false
}

impl Config {
    /// Every tag declared anywhere in the manifest: on files, on their edits,
    /// on inclusions and on directories, without duplicates.
    pub fn tags(&self) -> (r: Vec<String>)
        ensures
            r.deep_view() == tag_universe(
                self.content.deep_view(),
                self.inclusions.deep_view(),
                self.directories.deep_view(),
            ),
    {
        let ghost fsv = self.content.deep_view();
        let ghost isv = self.inclusions.deep_view();
        let ghost dsv = self.directories.deep_view();
        let mut parts: Vec<Vec<String>> = Vec::new();
        let mut i: usize = 0;
        proof {
            assert(fsv.subrange(0, 0) =~~= Seq::<FileV>::empty());
            assert(concat_all(parts.deep_view()) =~~= files_tags_cat(fsv.subrange(0, 0)));
        }
        while i < self.content.len()
            invariant
                i <= self.content.len(),
                fsv == self.content.deep_view(),
                fsv.len() == self.content@.len(),
                concat_all(parts.deep_view()) == files_tags_cat(fsv.subrange(0, i as int)),
            decreases self.content.len() - i,
        {
            let ghost outer = concat_all(parts.deep_view());
            let f = &self.content[i];
            proof {
                assert(fsv[i as int] == self.content@[i as int]@);
            }
            let ghost pv0 = parts.deep_view();
            let ft = f.get_tags();
            let ghost ftv = ft.deep_view();
            parts.push(ft);
            proof {
                assert(parts.deep_view().drop_last() =~~= pv0);
                assert(parts.deep_view().last() =~~= ftv);
                assert(concat_all(parts.deep_view()) =~~= outer + file_tags(fsv[i as int]));
            }
            let mut j: usize = 0;
            let ghost esv = self.content@[i as int].edits.deep_view();
            proof {
                assert(esv.subrange(0, 0) =~~= Seq::<EditV>::empty());
                assert(concat_all(parts.deep_view()) =~~= outer + file_tags(fsv[i as int])
                    + edits_tags_cat(esv.subrange(0, 0)));
            }
            while j < f.edits.len()
                invariant
                    j <= f.edits.len(),
                    esv == f.edits.deep_view(),
                    esv.len() == f.edits@.len(),
                    fsv[i as int] == f@,
                    concat_all(parts.deep_view()) == outer + file_tags(fsv[i as int])
                        + edits_tags_cat(esv.subrange(0, j as int)),
                decreases f.edits.len() - j,
            {
                let ghost pv = parts.deep_view();
                let et = clone_tags(f.edits[j].get_tags());
                let ghost etv = et.deep_view();
                parts.push(et);
                proof {
                    assert(parts.deep_view().drop_last() =~~= pv);
                    assert(parts.deep_view().last() =~~= etv);
                    assert(esv.subrange(0, j + 1).drop_last() =~~= esv.subrange(0, j as int));
                    assert(esv.subrange(0, j + 1).last() == esv[j as int]);
                    assert(esv[j as int] == f.edits@[j as int]@);
                    assert(concat_all(parts.deep_view()) =~~= outer + file_tags(fsv[i as int])
                        + edits_tags_cat(esv.subrange(0, j + 1)));
                }
                j = j + 1;
            }
            proof {
                assert(esv.subrange(0, j as int) =~~= esv);
                assert(fsv.subrange(0, i + 1).drop_last() =~~= fsv.subrange(0, i as int));
                assert(fsv.subrange(0, i + 1).last() == fsv[i as int]);
                assert(concat_all(parts.deep_view()) =~~= files_tags_cat(fsv.subrange(0, i + 1)));
            }
            i = i + 1;
        }
        proof {
            assert(fsv.subrange(0, i as int) =~~= fsv);
        }
        let ghost files_part = concat_all(parts.deep_view());
        let mut k: usize = 0;
        proof {
            assert(isv.subrange(0, 0) =~~= Seq::<InclusionV>::empty());
            assert(concat_all(parts.deep_view()) =~~= files_part + incls_tags_cat(
                isv.subrange(0, 0),
            ));
        }
        while k < self.inclusions.len()
            invariant
                k <= self.inclusions.len(),
                isv == self.inclusions.deep_view(),
                isv.len() == self.inclusions@.len(),
                files_part == files_tags_cat(self.content.deep_view()),
                concat_all(parts.deep_view()) == files_part + incls_tags_cat(
                    isv.subrange(0, k as int),
                ),
            decreases self.inclusions.len() - k,
        {
            let ghost pv = parts.deep_view();
            let it = match &self.inclusions[k].tags {
                Some(t) => clone_tags(t),
                None => empty_names(),
            };
            let ghost itv = it.deep_view();
            parts.push(it);
            proof {
                assert(parts.deep_view().drop_last() =~~= pv);
                assert(parts.deep_view().last() =~~= itv);
                assert(isv.subrange(0, k + 1).drop_last() =~~= isv.subrange(0, k as int));
                assert(isv.subrange(0, k + 1).last() == isv[k as int]);
                assert(isv[k as int] == self.inclusions@[k as int]@);
                assert(concat_all(parts.deep_view()) =~~= files_part + incls_tags_cat(
                    isv.subrange(0, k + 1),
                ));
            }
            k = k + 1;
        }
        proof {
            assert(isv.subrange(0, k as int) =~~= isv);
        }
        let ghost incl_part = concat_all(parts.deep_view());
        let mut d: usize = 0;
        proof {
            assert(dsv.subrange(0, 0) =~~= Seq::<crate::directories::DirectoryV>::empty());
            assert(concat_all(parts.deep_view()) =~~= incl_part + dirs_tags_cat(
                dsv.subrange(0, 0),
            ));
        }
        while d < self.directories.len()
            invariant
                d <= self.directories.len(),
                dsv == self.directories.deep_view(),
                dsv.len() == self.directories@.len(),
                incl_part == files_tags_cat(self.content.deep_view()) + incls_tags_cat(
                    self.inclusions.deep_view(),
                ),
                concat_all(parts.deep_view()) == incl_part + dirs_tags_cat(
                    dsv.subrange(0, d as int),
                ),
            decreases self.directories.len() - d,
        {
            let ghost pv = parts.deep_view();
            let dt = self.directories[d].get_tags();
            let ghost dtv = dt.deep_view();
            parts.push(dt);
            proof {
                assert(parts.deep_view().drop_last() =~~= pv);
                assert(parts.deep_view().last() =~~= dtv);
                assert(dsv.subrange(0, d + 1).drop_last() =~~= dsv.subrange(0, d as int));
                assert(dsv.subrange(0, d + 1).last() == dsv[d as int]);
                assert(dsv[d as int] == self.directories@[d as int]@);
                assert(concat_all(parts.deep_view()) =~~= incl_part + dirs_tags_cat(
                    dsv.subrange(0, d + 1),
                ));
            }
            d = d + 1;
        }
        proof {
            assert(dsv.subrange(0, d as int) =~~= dsv);
            assert(concat_all(parts.deep_view()) =~~= files_tags_cat(fsv) + incls_tags_cat(isv)
                + dirs_tags_cat(dsv));
        }
        vecset(parts)
    }

    /// Compute the active tag set of a request: trim the requests, split them
    /// into positive and negated tags, reject a tag requested both ways
    /// (naming that tag), join the defaults with the positives, drop the
    /// negated ones, and demand that every resulting tag is declared in the
    /// manifest (naming the first undeclared one).
    pub fn active_tags(&self, given_tags: &Vec<String>) -> (r: Result<Vec<String>, VaultError>)
        ensures
            r is Ok <==> (!has_conflict(given_tags.deep_view()) && all_declared(
                active_set(self.default_tags.deep_view(), given_tags.deep_view()),
                tag_universe(
                    self.content.deep_view(),
                    self.inclusions.deep_view(),
                    self.directories.deep_view(),
                ),
            )),
            r matches Ok(act) ==> act.deep_view() == active_set(
                self.default_tags.deep_view(),
                given_tags.deep_view(),
            ),
            r matches Err(e) ==> e is Tag,
            r matches Err(e) ==> {
                &&& has_conflict(given_tags.deep_view()) ==> (positives(
                    trimmed_tags(given_tags.deep_view()),
                ).contains(e.detail_view()) && negatives(
                    trimmed_tags(given_tags.deep_view()),
                ).contains(e.detail_view()))
                &&& !has_conflict(given_tags.deep_view()) ==> (active_set(
                    self.default_tags.deep_view(),
                    given_tags.deep_view(),
                ).contains(e.detail_view()) && !tag_universe(
                    self.content.deep_view(),
                    self.inclusions.deep_view(),
                    self.directories.deep_view(),
                ).contains(e.detail_view()))
            },
    {
        let ghost gv = given_tags.deep_view();
        // Trim the requests.
        let mut trimmed: Vec<String> = Vec::new();
        let mut i: usize = 0;
        while i < given_tags.len()
            invariant
                i <= given_tags.len(),
                gv == given_tags.deep_view(),
                gv.len() == given_tags@.len(),
                trimmed.deep_view() == trimmed_tags(gv.subrange(0, i as int)),
            decreases given_tags.len() - i,
        {
            let ghost prev = trimmed.deep_view();
            trimmed.push(crate::tags::trim_string(&given_tags[i]));
            proof {
                assert(gv[i as int] == given_tags@[i as int]@);
                assert(trimmed.deep_view() =~~= prev.push(crate::tags::trim_spec(gv[i as int])));
                assert(trimmed.deep_view() =~~= trimmed_tags(gv.subrange(0, i + 1)));
            }
            i = i + 1;
        }
        proof {
            assert(gv.subrange(0, i as int) =~~= gv);
        }
        let ghost tv = trimmed.deep_view();
        // Split into positive and negated requests.
        let mut pos: Vec<String> = Vec::new();
        let mut neg: Vec<String> = Vec::new();
        let mut j: usize = 0;
        proof {
            assert(tv.subrange(0, 0) =~~= Seq::<Seq<char>>::empty());
        }
        while j < trimmed.len()
            invariant
                j <= trimmed.len(),
                tv == trimmed.deep_view(),
                tv.len() == trimmed@.len(),
                pos.deep_view() == positives(tv.subrange(0, j as int)),
                neg.deep_view() == negatives(tv.subrange(0, j as int)),
            decreases trimmed.len() - j,
        {
            let ghost posv = pos.deep_view();
            let ghost negv = neg.deep_view();
            let cs = crate::text::chars_vec(trimmed[j].as_str());
            proof {
                assert(tv[j as int] == trimmed@[j as int]@);
                assert(tv.subrange(0, j + 1).drop_last() =~~= tv.subrange(0, j as int));
                assert(tv.subrange(0, j + 1).last() == tv[j as int]);
            }
            if cs.len() > 0 && cs[0] == '!' {
                let stripped = string_from_chars(&crate::text::subvec(&cs, 1, cs.len()));
                proof {
                    assert(stripped@ =~= tv[j as int].skip(1));
                }
                neg.push(stripped);
                proof {
                    assert(neg.deep_view() =~~= negv.push(tv[j as int].skip(1)));
                    assert(neg.deep_view() =~~= negatives(tv.subrange(0, j + 1)));
                    assert(pos.deep_view() =~~= positives(tv.subrange(0, j + 1)));
                }
            } else {
                pos.push(trimmed[j].clone());
                proof {
                    assert(pos.deep_view() =~~= posv.push(tv[j as int]));
                    assert(pos.deep_view() =~~= positives(tv.subrange(0, j + 1)));
                    assert(neg.deep_view() =~~= negatives(tv.subrange(0, j + 1)));
                }
            }
            j = j + 1;
        }
        proof {
            assert(tv.subrange(0, j as int) =~~= tv);
        }
        // A tag requested both positively and negatively is a conflict.
        let mut n: usize = 0;
        while n < neg.len()
            invariant
                n <= neg.len(),
                gv == given_tags.deep_view(),
                pos.deep_view() == positives(tv),
                neg.deep_view() == negatives(tv),
                tv == trimmed_tags(gv),
                forall|t: int| 0 <= t < n ==> !positives(tv).contains(negatives(tv)[t]),
            decreases neg.len() - n,
        {
            proof {
                assert(neg.deep_view()[n as int] == neg@[n as int]@);
            }
            if crate::variables::contains_string(&pos, &neg[n]) {
                proof {
                    assert(negatives(trimmed_tags(gv))[n as int] == neg.deep_view()[n as int]);
                    assert(positives(trimmed_tags(gv)).contains(
                        negatives(trimmed_tags(gv))[n as int],
                    ));
                    assert(negatives(trimmed_tags(gv)).contains(
                        negatives(trimmed_tags(gv))[n as int],
                    ));
                    assert(has_conflict(gv));
                }
                return Err(VaultError::Tag(neg[n].clone()));
            }
            n = n + 1;
        }
        proof {
            assert(negatives(tv).len() == neg@.len());
            assert(!has_conflict(gv));
        }
        // The defaults joined with the positives, minus the negated tags.
        let base = crate::variables::union2(clone_tags(&self.default_tags), pos);
        let ghost bv = base.deep_view();
        let mut act: Vec<String> = Vec::new();
        let mut a: usize = 0;
        proof {
            assert(bv.subrange(0, 0) =~~= Seq::<Seq<char>>::empty());
        }
        while a < base.len()
            invariant
                a <= base.len(),
                bv == base.deep_view(),
                bv.len() == base@.len(),
                gv == given_tags.deep_view(),
                !has_conflict(gv),
                neg.deep_view() == negatives(tv),
                act.deep_view() == remove_negs(bv.subrange(0, a as int), negatives(tv)),
            decreases base.len() - a,
        {
            let ghost actv = act.deep_view();
            proof {
                assert(bv[a as int] == base@[a as int]@);
                assert(bv.subrange(0, a + 1).drop_last() =~~= bv.subrange(0, a as int));
                assert(bv.subrange(0, a + 1).last() == bv[a as int]);
            }
            if !crate::variables::contains_string(&neg, &base[a]) {
                act.push(base[a].clone());
                proof {
                    assert(act.deep_view() =~~= actv.push(bv[a as int]));
                }
            }
            proof {
                assert(act.deep_view() =~~= remove_negs(bv.subrange(0, a + 1), negatives(tv)));
            }
            a = a + 1;
        }
        proof {
            assert(bv.subrange(0, a as int) =~~= bv);
        }
        // Every active tag must be declared somewhere in the manifest.
        let defined = self.tags();
        let mut c: usize = 0;
        while c < act.len()
            invariant
                c <= act.len(),
                act.deep_view() == active_set(self.default_tags.deep_view(), gv),
                gv == given_tags.deep_view(),
                !has_conflict(gv),
                defined.deep_view() == tag_universe(
                    self.content.deep_view(),
                    self.inclusions.deep_view(),
                    self.directories.deep_view(),
                ),
                forall|t: int| 0 <= t < c ==> defined.deep_view().contains(act.deep_view()[t]),
            decreases act.len() - c,
        {
            proof {
                assert(act.deep_view()[c as int] == act@[c as int]@);
            }
            if !crate::variables::contains_string(&defined, &act[c]) {
                proof {
                    assert(active_set(self.default_tags.deep_view(), gv).contains(
                        act.deep_view()[c as int],
                    ));
                }
                return Err(VaultError::Tag(act[c].clone()));
            }
            c = c + 1;
        }
        proof {
            assert(!has_conflict(gv));
            assert(all_declared(
                active_set(self.default_tags.deep_view(), gv),
                tag_universe(
                    self.content.deep_view(),
                    self.inclusions.deep_view(),
                    self.directories.deep_view(),
                ),
            ));
        }
        Ok(act)
    }

    /// The ordered, deduplicated active file list of the manifest, given the
    /// files its directories contribute and the files its inclusions pull in.
    /// Candidates are pooled in a fixed order: direct declarations first,
    /// then directory files, then inclusion files. An untagged candidate
    /// yields to a tagged-and-active candidate with the same target path; any
    /// other two candidates mapping to one path are a collision, named in the
    /// error.
    #[verifier::rlimit(60)]
    pub fn get_active(&self, given_tags: &Vec<String>, included: &Vec<File>, dir_files: &Vec<
        File,
    >) -> (r: Result<Vec<File>, VaultError>)
        ensures
            !self.variables_set ==> (r matches Err(e) && e is Variable),
            self.variables_set && has_conflict(given_tags.deep_view()) ==> (r matches Err(e)
                && e is Tag),
            self.variables_set && !has_conflict(given_tags.deep_view()) && !all_declared(
                active_set(self.default_tags.deep_view(), given_tags.deep_view()),
                tag_universe(
                    self.content.deep_view(),
                    self.inclusions.deep_view(),
                    self.directories.deep_view(),
                ),
            ) ==> (r matches Err(e) && e is Tag),
            r matches Err(e) ==> self.variables_set && e is Tag ==> {
                &&& has_conflict(given_tags.deep_view()) ==> (positives(
                    trimmed_tags(given_tags.deep_view()),
                ).contains(e.detail_view()) && negatives(
                    trimmed_tags(given_tags.deep_view()),
                ).contains(e.detail_view()))
                &&& !has_conflict(given_tags.deep_view()) ==> (active_set(
                    self.default_tags.deep_view(),
                    given_tags.deep_view(),
                ).contains(e.detail_view()) && !tag_universe(
                    self.content.deep_view(),
                    self.inclusions.deep_view(),
                    self.directories.deep_view(),
                ).contains(e.detail_view()))
            },
            self.variables_set && !has_conflict(given_tags.deep_view()) && all_declared(
                active_set(self.default_tags.deep_view(), given_tags.deep_view()),
                tag_universe(
                    self.content.deep_view(),
                    self.inclusions.deep_view(),
                    self.directories.deep_view(),
                ),
            ) ==> {
                let act = active_set(self.default_tags.deep_view(), given_tags.deep_view());
                let cands = self.content.deep_view() + dir_files.deep_view()
                    + included.deep_view();
                &&& (r is Ok <==> distinct_paths(selected(cands, cands.len() as int, act)))
                &&& (r matches Ok(out) ==> out.deep_view() == selected(
                    cands,
                    cands.len() as int,
                    act,
                ))
                &&& (r matches Err(e) ==> e is PathCollision && collides_at(
                    selected(cands, cands.len() as int, act),
                    e.detail_view(),
                ))
            },
            r matches Ok(out) ==> distinct_paths(out.deep_view()),
    {
        if !self.variables_set {
            return Err(VaultError::Variable(String::new()));
        }
        let act = match self.active_tags(given_tags) {
            Ok(a) => a,
            Err(e) => {
                return Err(e);
            },
        };
        let ghost actv = act.deep_view();
        // The candidate pool: direct declarations, then directory files, then
        // inclusion files.
        let mut cands: Vec<File> = Vec::new();
        let mut i: usize = 0;
        while i < self.content.len()
            invariant
                i <= self.content.len(),
                cands.deep_view() == self.content.deep_view().subrange(0, i as int),
            decreases self.content.len() - i,
        {
            let ghost prev = cands.deep_view();
            cands.push(self.content[i].duplicate());
            proof {
                assert(cands.deep_view() =~~= prev.push(self.content.deep_view()[i as int]));
                assert(cands.deep_view() =~~= self.content.deep_view().subrange(0, i + 1));
            }
            i = i + 1;
        }
        proof {
            assert(self.content.deep_view().subrange(0, i as int) =~~= self.content.deep_view());
        }
        let mut k: usize = 0;
        while k < dir_files.len()
            invariant
                k <= dir_files.len(),
                cands.deep_view() == self.content.deep_view() + dir_files.deep_view().subrange(
                    0,
                    k as int,
                ),
            decreases dir_files.len() - k,
        {
            let ghost prev = cands.deep_view();
            cands.push(dir_files[k].duplicate());
            proof {
                assert(cands.deep_view() =~~= prev.push(dir_files.deep_view()[k as int]));
                assert(cands.deep_view() =~~= self.content.deep_view()
                    + dir_files.deep_view().subrange(0, k + 1));
            }
            k = k + 1;
        }
        proof {
            assert(dir_files.deep_view().subrange(0, k as int) =~~= dir_files.deep_view());
        }
        let mut j: usize = 0;
        while j < included.len()
            invariant
                j <= included.len(),
                cands.deep_view() == self.content.deep_view() + dir_files.deep_view()
                    + included.deep_view().subrange(0, j as int),
            decreases included.len() - j,
        {
            let ghost prev = cands.deep_view();
            cands.push(included[j].duplicate());
            proof {
                assert(cands.deep_view() =~~= prev.push(included.deep_view()[j as int]));
                assert(cands.deep_view() =~~= self.content.deep_view() + dir_files.deep_view()
                    + included.deep_view().subrange(0, j + 1));
            }
            j = j + 1;
        }
        proof {
            assert(included.deep_view().subrange(0, j as int) =~~= included.deep_view());
        }
        let ghost cv = cands.deep_view();
        // The stripped paths of candidates that carry an active tag.
        let mut tp: Vec<String> = Vec::new();
        let mut t: usize = 0;
        proof {
            assert(cv.subrange(0, 0) =~~= Seq::<FileV>::empty());
        }
        while t < cands.len()
            invariant
                t <= cands.len(),
                cv == cands.deep_view(),
                cv.len() == cands@.len(),
                actv == act.deep_view(),
                tp.deep_view() == tagged_paths_spec(cv.subrange(0, t as int), actv),
            decreases cands.len() - t,
        {
            let ghost prev = tp.deep_view();
            proof {
                assert(cv[t as int] == cands@[t as int]@);
                assert(cv.subrange(0, t + 1).drop_last() =~~= cv.subrange(0, t as int));
                assert(cv.subrange(0, t + 1).last() == cv[t as int]);
            }
            if file_has_active_tag(&cands[t], &act) {
                tp.push(cands[t].get_path());
                proof {
                    assert(tp.deep_view() =~~= prev.push(strip_slashes(cv[t as int].path)));
                }
            }
            proof {
                assert(tp.deep_view() =~~= tagged_paths_spec(cv.subrange(0, t + 1), actv));
            }
            t = t + 1;
        }
        proof {
            assert(cv.subrange(0, t as int) =~~= cv);
        }
        // Keep the active candidates, let untagged ones yield to tagged ones,
        // and reject any remaining path collision.
        let mut out: Vec<File> = Vec::new();
        let mut kept: Vec<String> = Vec::new();
        let mut n: usize = 0;
        while n < cands.len()
            invariant
                n <= cands.len(),
                cv == cands.deep_view(),
                cv.len() == cands@.len(),
                actv == act.deep_view(),
                self.variables_set,
                !has_conflict(given_tags.deep_view()),
                all_declared(
                    active_set(self.default_tags.deep_view(), given_tags.deep_view()),
                    tag_universe(
                        self.content.deep_view(),
                        self.inclusions.deep_view(),
                        self.directories.deep_view(),
                    ),
                ),
                actv == active_set(self.default_tags.deep_view(), given_tags.deep_view()),
                cv == self.content.deep_view() + dir_files.deep_view() + included.deep_view(),
                tp.deep_view() == tagged_paths_spec(cv, actv),
                out.deep_view() == selected(cv, n as int, actv),
                kept.deep_view() == selected(cv, n as int, actv).map_values(
                    |f: FileV| strip_slashes(f.path),
                ),
                distinct_paths(selected(cv, n as int, actv)),
            decreases cands.len() - n,
        {
            let ghost sel = selected(cv, n as int, actv);
            proof {
                assert(cv[n as int] == cands@[n as int]@);
            }
            let active = cands[n].is_active(&act);
            if active {
                let own = cands[n].get_tags();
                let p = cands[n].get_path();
                let in_tagged = crate::variables::contains_string(&tp, &p);
                proof {
                    lemma_tagged_paths_contains(cv, actv, p@);
                }
                if own.len() == 0 && in_tagged {
                    proof {
                        assert(file_tags(cv[n as int]).len() == 0);
                        assert(!keep_candidate(cv[n as int], cv, actv));
                        assert(selected(cv, n + 1, actv) =~~= sel);
                    }
                } else {
                    proof {
                        assert(keep_candidate(cv[n as int], cv, actv));
                        assert(selected(cv, n + 1, actv) =~~= sel.push(cv[n as int]));
                    }
                    let dup = crate::variables::contains_string(&kept, &p);
                    if dup {
                        proof {
                            let kv = kept.deep_view();
                            let idx = choose|idx: int| 0 <= idx < kv.len() && kv[idx] == p@;
                            assert(sel.map_values(|f: FileV| strip_slashes(f.path))[idx] == p@);
                            assert(strip_slashes(sel[idx].path) == p@);
                            let s2 = selected(cv, n + 1, actv);
                            assert(s2[idx] == sel[idx]);
                            assert(s2.last() == cv[n as int]);
                            assert(strip_slashes(s2[idx].path) == strip_slashes(
                                s2[s2.len() - 1].path,
                            ));
                            assert(strip_slashes(s2[s2.len() - 1].path) == p@);
                            assert(collides_at(s2, p@));
                            assert(!distinct_paths(s2));
                            lemma_selected_monotone(cv, actv, n + 1, cv.len() as int);
                            lemma_collision_persists(cv, actv, n + 1, cv.len() as int, p@);
                        }
                        return Err(VaultError::PathCollision(p));
                    }
                    out.push(cands[n].duplicate());
                    kept.push(p);
                    proof {
                        assert(out.deep_view() =~~= sel.push(cv[n as int]));
                        assert(selected(cv, n + 1, actv).map_values(
                            |f: FileV| strip_slashes(f.path),
                        ) =~~= sel.map_values(|f: FileV| strip_slashes(f.path)).push(
                            strip_slashes(cv[n as int].path),
                        ));
                        assert(kept.deep_view() =~~= selected(cv, n + 1, actv).map_values(
                            |f: FileV| strip_slashes(f.path),
                        ));
                        let s2 = selected(cv, n + 1, actv);
                        assert forall|x: int, y: int| 0 <= x < y < s2.len() implies strip_slashes(
                            s2[x].path,
                        ) != strip_slashes(s2[y].path) by {
                            if y < s2.len() - 1 {
                                assert(s2[x] == sel[x] && s2[y] == sel[y]);
                            } else {
                                assert(s2[y] == cv[n as int]);
                                assert(s2[x] == sel[x]);
                                let kv = kept.deep_view();
                                assert(sel.map_values(|f: FileV| strip_slashes(f.path))[x]
                                    == strip_slashes(sel[x].path));
                            }
                        }
                    }
                }
            } else {
                proof {
                    assert(!keep_candidate(cv[n as int], cv, actv));
                    assert(selected(cv, n + 1, actv) =~~= sel);
                }
            }
            n = n + 1;
        }
        Ok(out)
    }
}

/// The reserved prefix of provenance variable names.
pub open spec fn self_prefix() -> Seq<char> {
    seq!['S', 'E', 'L', 'F', '_']
}

/// The reserved name `SELF_ID`.
pub open spec fn self_id_key() -> Seq<char> {
    seq!['S', 'E', 'L', 'F', '_', 'I', 'D']
}

/// The reserved name `SELF_REPO`.
pub open spec fn self_repo_key() -> Seq<char> {
    seq!['S', 'E', 'L', 'F', '_', 'R', 'E', 'P', 'O']
}

/// The reserved name `SELF_NAME`.
pub open spec fn self_name_key() -> Seq<char> {
    seq!['S', 'E', 'L', 'F', '_', 'N', 'A', 'M', 'E']
}

/// The reserved name `SELF_ROOT`.
pub open spec fn self_root_key() -> Seq<char> {
    seq!['S', 'E', 'L', 'F', '_', 'R', 'O', 'O', 'T']
}

/// The reserved name `SELF_PARENT`.
pub open spec fn self_parent_key() -> Seq<char> {
    seq!['S', 'E', 'L', 'F', '_', 'P', 'A', 'R', 'E', 'N', 'T']
}

/// A user variable name that collides with the protected namespace: the
/// `SELF_` prefix, or a leading `#` or `!`.
pub open spec fn protected_name(k: Seq<char>) -> bool {
    ||| crate::text::matches_at(k, 0, self_prefix())
    ||| (k.len() > 0 && (k[0] == '#' || k[0] == '!'))
}

/// Push the characters of a string slice onto a character vector.
fn push_str_chars(out: &mut Vec<char>, s: &str)
    ensures
        final(out)@ == old(out)@ + s@,
{
    let cs = crate::text::chars_vec(s);
    crate::text::append_chars(out, &cs);
}

/// A path with its trailing slashes removed.
pub open spec fn strip_trailing_slashes(s: Seq<char>) -> Seq<char>
    decreases s.len(),
{
    if s.len() > 0 && s.last() == '/' {
        strip_trailing_slashes(s.drop_last())
    } else {
        s
    }
}

/// A position before the trailing slashes marks where stripping ends.
proof fn lemma_strip_trailing_at(s: Seq<char>, b: int)
    requires
        0 <= b <= s.len(),
        forall|j: int| b <= j < s.len() ==> s[j] == '/',
        b > 0 ==> s[b - 1] != '/',
    ensures
        strip_trailing_slashes(s) == s.subrange(0, b),
    decreases s.len(),
{
    if s.len() > 0 && s.last() == '/' {
        assert(b < s.len());
        assert forall|j: int| b <= j < s.drop_last().len() implies s.drop_last()[j] == '/' by {
            assert(s.drop_last()[j] == s[j]);
        }
        lemma_strip_trailing_at(s.drop_last(), b);
        assert(s.drop_last().subrange(0, b) =~= s.subrange(0, b));
    } else {
        assert(b == s.len());
        assert(s.subrange(0, s.len() as int) =~= s);
    }
}

/// The final path segment naming a manifest: after trailing slashes are
/// dropped, everything after the last `/`; nothing when that is empty.
pub open spec fn file_name_spec(s: Seq<char>) -> Option<Seq<char>> {
    let u = strip_trailing_slashes(s);
    let t = u.subrange(crate::text::last_index(u, '/') + 1, u.len() as int);
    if t.len() == 0 {
        None
    } else {
        Some(t)
    }
}

/// The final path segment naming a manifest.
pub fn file_name_of(path: &String) -> (r: Option<String>)
    ensures
        match r {
            Some(n) => file_name_spec(path@) == Some(n@),
            None => file_name_spec(path@) is None,
        },
{
    let cs = crate::text::chars_vec(path.as_str());
    let mut b: usize = cs.len();
    while b > 0 && cs[b - 1] == '/'
        invariant
            b <= cs.len(),
            forall|j: int| b <= j < cs.len() ==> cs@[j] == '/',
        decreases b,
    {
        b = b - 1;
    }
    proof {
        lemma_strip_trailing_at(cs@, b as int);
    }
    let u = crate::text::subvec(&cs, 0, b);
    proof {
        crate::text::lemma_last_index(u@, '/');
    }
    let start = match crate::text::find_last(&u, '/') {
        Some(i) => i + 1,
        None => 0,
    };
    if start == u.len() {
        return None;
    }
    let t = crate::text::subvec(&u, start, u.len());
    Some(crate::text::string_from_chars(&t))
}

/// A source from which a manifest can be loaded: a repository source with a
/// derivable file name and, unless the repository locator is a URL or SSH
/// address, its canonicalized path; or a local source with a derivable file
/// name and its canonicalized parent directory.
pub open spec fn source_loadable(src: SourceV, canon: Option<Seq<char>>) -> bool {
    match src {
        SourceV::Git { repo, id, path } => file_name_spec(path) is Some && (
        crate::sources::is_url_or_ssh_spec(repo) || canon is Some),
        SourceV::Local { path } => canon is Some && file_name_spec(path) is Some,
        _ => false,
    }
}

/// The assembled load-time variable map: the user's declared variables
/// followed by the provenance entries describing how the manifest itself was
/// loaded. For a repository source these are the commit id, the repository
/// locator, the manifest's file name, and the composed root locator
/// `repo#id:` (with the repository path canonicalized where it is not a URL
/// or SSH address); for a local source, the canonicalized parent directory as
/// both parent and root, and the file name.
pub open spec fn assembled_vars(
    user: Seq<(String, String)>,
    src: SourceV,
    canon: Option<Seq<char>>,
    full: Seq<(String, String)>,
) -> bool {
    match src {
        SourceV::Git { repo, id, path } => {
            let rs = if crate::sources::is_url_or_ssh_spec(repo) {
                repo
            } else {
                canon->Some_0
            };
            &&& source_loadable(src, canon)
            &&& full.len() == user.len() + 4
            &&& full.subrange(0, user.len() as int) == user
            &&& full[user.len() as int].0@ == self_id_key()
            &&& full[user.len() as int].1@ == id
            &&& full[user.len() + 1 as int].0@ == self_repo_key()
            &&& full[user.len() + 1 as int].1@ == repo
            &&& full[user.len() + 2 as int].0@ == self_name_key()
            &&& full[user.len() + 2 as int].1@ == file_name_spec(path)->Some_0
            &&& full[user.len() + 3 as int].0@ == self_root_key()
            &&& full[user.len() + 3 as int].1@ == rs + seq!['#'] + id + seq![':']
        },
        SourceV::Local { path } => {
            &&& source_loadable(src, canon)
            &&& full.len() == user.len() + 3
            &&& full.subrange(0, user.len() as int) == user
            &&& full[user.len() as int].0@ == self_parent_key()
            &&& full[user.len() as int].1@ == canon->Some_0
            &&& full[user.len() + 1 as int].0@ == self_root_key()
            &&& full[user.len() + 1 as int].1@ == canon->Some_0
            &&& full[user.len() + 2 as int].0@ == self_name_key()
            &&& full[user.len() + 2 as int].1@ == file_name_spec(path)->Some_0
        },
        _ => false,
    }
}

/// Every variable name required anywhere in the manifest is bound in the map.
pub open spec fn config_names_bound(
    content: Seq<FileV>,
    incls: Seq<InclusionV>,
    dirs: Seq<crate::directories::DirectoryV>,
    m: Seq<(String, String)>,
) -> bool {
    &&& forall|i: int| 0 <= i < content.len() ==> all_bound(file_vars(content[i]), m)
    &&& forall|i: int| 0 <= i < incls.len() ==> all_bound(inclusion_vars(incls[i]), m)
    &&& forall|i: int| 0 <= i < dirs.len() ==> all_bound(
        crate::directories::directory_vars(dirs[i]),
        m,
    )
}

/// A manifest that is owed a successful load from the given source: its
/// variables are fresh and unprotected, the source carries what loading
/// needs, the assembled variable map resolves (a ranking witnesses that its
/// references are acyclic, within the resolution bound), every name the
/// manifest requires is bound in it, and every declared tag name is valid.
pub open spec fn config_loadable(c: Config, src: SourceV, canon: Option<Seq<char>>) -> bool {
    &&& !c.variables_set
    &&& (forall|i: int| 0 <= i < c.variables@.len() ==> !protected_name(c.variables@[i].0@))
    &&& source_loadable(src, canon)
    &&& c.variables@.len() + 4 <= 1000
    &&& (forall|full: Seq<(String, String)>|
        assembled_vars(c.variables@, src, canon, full) ==> ((exists|
            rank: spec_fn(Seq<char>) -> nat,
        |
            crate::variables::rank_ok(full, rank)) && config_names_bound(
            c.content.deep_view(),
            c.inclusions.deep_view(),
            c.directories.deep_view(),
            full,
        )))
    &&& (forall|t: int|
        0 <= t < tag_universe(
            c.content.deep_view(),
            c.inclusions.deep_view(),
            c.directories.deep_view(),
        ).len() ==> tag_name_ok(
            tag_universe(
                c.content.deep_view(),
                c.inclusions.deep_view(),
                c.directories.deep_view(),
            )[t],
        ))
}

/// A resolved variable map has been applied throughout a manifest: every
/// entity's required names were bound, and every entity is its old value with
/// those names substituted, in order.
pub open spec fn config_applied(
    old_content: Seq<FileV>,
    old_incls: Seq<InclusionV>,
    old_dirs: Seq<crate::directories::DirectoryV>,
    new_content: Seq<FileV>,
    new_incls: Seq<InclusionV>,
    new_dirs: Seq<crate::directories::DirectoryV>,
    vm: Seq<(String, String)>,
) -> bool {
    &&& crate::variables::unique_keys(vm)
    &&& new_content == old_content.map_values(|f: FileV| file_folded(f, file_vars(f), vm))
    &&& new_incls == old_incls.map_values(
        |inc: InclusionV| inclusion_folded(inc, inclusion_vars(inc), vm),
    )
    &&& new_dirs == old_dirs.map_values(
        |d: crate::directories::DirectoryV|
            crate::directories::directory_folded(d, crate::directories::directory_vars(d), vm),
    )
    &&& forall|i: int| 0 <= i < old_content.len() ==> all_bound(
        file_vars(old_content[i]),
        vm,
    )
    &&& forall|i: int| 0 <= i < old_incls.len() ==> all_bound(inclusion_vars(old_incls[i]), vm)
    &&& forall|i: int| 0 <= i < old_dirs.len() ==> all_bound(
        crate::directories::directory_vars(old_dirs[i]),
        vm,
    )
}

/// Folding a variable map through an edit list leaves its tag sets unchanged.
proof fn lemma_edits_tags_folded(es: Seq<EditV>, names: Seq<Seq<char>>, m: Seq<(String, String)>)
    ensures
        edits_tags_cat(es.map_values(|e: EditV| edit_folded(e, names, m))) == edits_tags_cat(es),
    decreases es.len(),
{
    let mapped = es.map_values(|e: EditV| edit_folded(e, names, m));
    if es.len() > 0 {
        assert(mapped.drop_last() =~= es.drop_last().map_values(
            |e: EditV| edit_folded(e, names, m),
        ));
        lemma_edits_tags_folded(es.drop_last(), names, m);
        assert(mapped.last() == edit_folded(es.last(), names, m));
        assert(edit_tags_view(edit_folded(es.last(), names, m)) == edit_tags_view(es.last()));
    }
}

/// Folding a variable map through the file declarations leaves their tag
/// sets unchanged.
proof fn lemma_files_tags_folded(content: Seq<FileV>, m: Seq<(String, String)>)
    ensures
        files_tags_cat(content.map_values(|f: FileV| file_folded(f, file_vars(f), m)))
            == files_tags_cat(content),
    decreases content.len(),
{
    let mapped = content.map_values(|f: FileV| file_folded(f, file_vars(f), m));
    if content.len() > 0 {
        assert(mapped.drop_last() =~= content.drop_last().map_values(
            |f: FileV| file_folded(f, file_vars(f), m),
        ));
        lemma_files_tags_folded(content.drop_last(), m);
        let lf = content.last();
        assert(mapped.last() == file_folded(lf, file_vars(lf), m));
        assert(file_tags(file_folded(lf, file_vars(lf), m)) == file_tags(lf));
        assert(file_folded(lf, file_vars(lf), m).edits == lf.edits.map_values(
            |e: EditV| edit_folded(e, file_vars(lf), m),
        ));
        lemma_edits_tags_folded(lf.edits, file_vars(lf), m);
    }
}

/// Folding a variable map through the inclusions leaves their tag sets
/// unchanged.
proof fn lemma_incls_tags_folded(incls: Seq<InclusionV>, m: Seq<(String, String)>)
    ensures
        incls_tags_cat(
            incls.map_values(|inc: InclusionV| inclusion_folded(inc, inclusion_vars(inc), m)),
        ) == incls_tags_cat(incls),
    decreases incls.len(),
{
    let mapped = incls.map_values(|inc: InclusionV| inclusion_folded(inc, inclusion_vars(inc), m));
    if incls.len() > 0 {
        assert(mapped.drop_last() =~= incls.drop_last().map_values(
            |inc: InclusionV| inclusion_folded(inc, inclusion_vars(inc), m),
        ));
        lemma_incls_tags_folded(incls.drop_last(), m);
        assert(mapped.last() == inclusion_folded(incls.last(), inclusion_vars(incls.last()), m));
        assert(inclusion_tags(inclusion_folded(incls.last(), inclusion_vars(incls.last()), m))
            == inclusion_tags(incls.last()));
    }
}

/// Folding a variable map through the directories leaves their tag sets
/// unchanged.
proof fn lemma_dirs_tags_folded(
    dirs: Seq<crate::directories::DirectoryV>,
    m: Seq<(String, String)>,
)
    ensures
        dirs_tags_cat(
            dirs.map_values(
                |d: crate::directories::DirectoryV|
                    crate::directories::directory_folded(
                        d,
                        crate::directories::directory_vars(d),
                        m,
                    ),
            ),
        ) == dirs_tags_cat(dirs),
    decreases dirs.len(),
{
    let mapped = dirs.map_values(
        |d: crate::directories::DirectoryV|
            crate::directories::directory_folded(d, crate::directories::directory_vars(d), m),
    );
    if dirs.len() > 0 {
        assert(mapped.drop_last() =~= dirs.drop_last().map_values(
            |d: crate::directories::DirectoryV|
                crate::directories::directory_folded(d, crate::directories::directory_vars(d), m),
        ));
        lemma_dirs_tags_folded(dirs.drop_last(), m);
        assert(mapped.last() == crate::directories::directory_folded(
            dirs.last(),
            crate::directories::directory_vars(dirs.last()),
            m,
        ));
        assert(crate::directories::dir_tags(mapped.last()) == crate::directories::dir_tags(
            dirs.last(),
        ));
    }
}

/// Substituting a variable map changes no tag set: the manifest's tag
/// universe is the same before and after.
proof fn lemma_folded_universe(
    content: Seq<FileV>,
    incls: Seq<InclusionV>,
    dirs: Seq<crate::directories::DirectoryV>,
    m: Seq<(String, String)>,
)
    ensures
        tag_universe(
            content.map_values(|f: FileV| file_folded(f, file_vars(f), m)),
            incls.map_values(|inc: InclusionV| inclusion_folded(inc, inclusion_vars(inc), m)),
            dirs.map_values(
                |d: crate::directories::DirectoryV|
                    crate::directories::directory_folded(
                        d,
                        crate::directories::directory_vars(d),
                        m,
                    ),
            ),
        ) == tag_universe(content, incls, dirs),
{
    lemma_files_tags_folded(content, m);
    lemma_incls_tags_folded(incls, m);
    lemma_dirs_tags_folded(dirs, m);
}

impl Config {
    /// Inject the provenance variables for the way the manifest was loaded,
    /// resolve all variables to a fixed point, substitute them throughout the
    /// manifest, and validate every declared tag name. `canon` carries the
    /// canonicalized repository path (for a local repository) or the
    /// canonicalized parent directory (for a locally loaded manifest), both
    /// of which only the surrounding program can compute.
    #[verifier::rlimit(60)]
    pub fn set_variables(&self, source: &FileSource, canon: &Option<String>) -> (r: Result<
        Config,
        VaultError,
    >)
        requires
            crate::variables::unique_keys(self.variables@),
        ensures
            self.variables_set ==> (r matches Err(e) && e is Variable),
            !self.variables_set && (exists|i: int|
                0 <= i < self.variables@.len() && protected_name(self.variables@[i].0@)) ==> (
            r matches Err(e) && e is Variable),
            r matches Ok(c) ==> {
                &&& c.variables_set
                &&& c.variables@ == self.variables@
                &&& c.default_tags.deep_view() == self.default_tags.deep_view()
                &&& (forall|t: int|
                    0 <= t < tag_universe(
                        c.content.deep_view(),
                        c.inclusions.deep_view(),
                        c.directories.deep_view(),
                    ).len() ==> tag_name_ok(
                        tag_universe(
                            c.content.deep_view(),
                            c.inclusions.deep_view(),
                            c.directories.deep_view(),
                        )[t],
                    ))
                &&& (exists|full: Seq<(String, String)>, vm: Seq<(String, String)>|
                    assembled_vars(self.variables@, source@, opt_str_view(canon), full)
                        && crate::variables::resolution_of(full, vm) && config_applied(
                        self.content.deep_view(),
                        self.inclusions.deep_view(),
                        self.directories.deep_view(),
                        c.content.deep_view(),
                        c.inclusions.deep_view(),
                        c.directories.deep_view(),
                        vm,
                    ))
            },
            r matches Err(e) ==> (e is Variable || e is Parse || e is Filesystem || e is Tag),
            config_loadable(*self, source@, opt_str_view(canon)) ==> r is Ok,
    {
        if self.variables_set {
            return Err(VaultError::Variable(String::new()));
        }
        // User variable names must stay out of the protected namespace.
        let mut ci: usize = 0;
        while ci < self.variables.len()
            invariant
                ci <= self.variables.len(),
                forall|t: int| 0 <= t < ci ==> !protected_name(self.variables@[t].0@),
            decreases self.variables.len() - ci,
        {
            let key = &self.variables[ci].0;
            let kc = crate::text::chars_vec(key.as_str());
            let mut pref: Vec<char> = Vec::new();
            pref.push('S');
            pref.push('E');
            pref.push('L');
            pref.push('F');
            pref.push('_');
            proof {
                assert(pref@ =~= self_prefix());
            }
            let is_self = crate::text::starts_with_chars(&kc, &pref);
            let is_mark = kc.len() > 0 && (kc[0] == '#' || kc[0] == '!');
            if is_self || is_mark {
                return Err(VaultError::Variable(key.clone()));
            }
            ci = ci + 1;
        }
        // Assemble the variable map: the user's variables plus the
        // provenance of the manifest itself.
        let mut vars: Vec<(String, String)> = Vec::new();
        let mut vi: usize = 0;
        while vi < self.variables.len()
            invariant
                vi <= self.variables.len(),
                vars@.len() == vi,
                forall|t: int| #![all_triggers] 0 <= t < vi ==> vars@[t] == self.variables@[t],
            decreases self.variables.len() - vi,
        {
            vars.push((self.variables[vi].0.clone(), self.variables[vi].1.clone()));
            vi = vi + 1;
        }
        proof {
            assert(vars@ =~= self.variables@);
        }
        let ghost user = self.variables@;
        match source {
            FileSource::Git { repo, id, path } => {
                let name = match file_name_of(path) {
                    Some(n) => n,
                    None => {
                        return Err(VaultError::Parse(path.clone()));
                    },
                };
                let repostring = if crate::sources::is_url_or_ssh(repo.as_str()) {
                    repo.clone()
                } else {
                    match canon {
                        Some(c) => c.clone(),
                        None => {
                            return Err(VaultError::Filesystem(repo.clone()));
                        },
                    }
                };
                let mut rootc: Vec<char> = Vec::new();
                push_str_chars(&mut rootc, repostring.as_str());
                rootc.push('#');
                push_str_chars(&mut rootc, id.as_str());
                rootc.push(':');
                let root = crate::text::string_from_chars(&rootc);
                proof {
                    assert(rootc@ =~= repostring@ + seq!['#'] + id@ + seq![':']);
                }
                let k_id = make_key_id();
                let k_repo = make_key_repo();
                let k_name = make_key_name();
                let k_root = make_key_root();
                proof {
                    lemma_vars_push_git(user, k_id@, k_repo@, k_name@, k_root@);
                }
                vars.push((k_id, id.clone()));
                vars.push((k_repo, repo.clone()));
                vars.push((k_name, name));
                vars.push((k_root, root));
                proof {
                    assert(vars@.subrange(0, user.len() as int) =~= user);
                    lemma_git_domain(user, vars@, source@);
                    assert(assembled_vars(user, source@, opt_str_view(canon), vars@));
                }
                let ghost vseq = vars@;
                let out = self.apply_resolved(source, vars);
                proof {
                    if out is Ok {
                        let c = out->Ok_0;
                        let w = choose|w: Seq<(String, String)>|
                            config_applied(
                                self.content.deep_view(),
                                self.inclusions.deep_view(),
                                self.directories.deep_view(),
                                c.content.deep_view(),
                                c.inclusions.deep_view(),
                                c.directories.deep_view(),
                                w,
                            ) && crate::variables::resolution_of(vseq, w);
                        assert(assembled_vars(user, source@, opt_str_view(canon), vseq)
                            && crate::variables::resolution_of(vseq, w) && config_applied(
                            self.content.deep_view(),
                            self.inclusions.deep_view(),
                            self.directories.deep_view(),
                            c.content.deep_view(),
                            c.inclusions.deep_view(),
                            c.directories.deep_view(),
                            w,
                        ));
                    }
                    if config_loadable(*self, source@, opt_str_view(canon)) {
                        assert(assembled_vars(user, source@, opt_str_view(canon), vseq));
                        assert(exists|rank: spec_fn(Seq<char>) -> nat|
                            crate::variables::rank_ok(vseq, rank));
                        assert(config_names_bound(
                            self.content.deep_view(),
                            self.inclusions.deep_view(),
                            self.directories.deep_view(),
                            vseq,
                        ));
                        assert(vseq.len() <= 1000);
                        assert(out is Ok);
                    }
                }
                out
            },
            FileSource::Local { path } => {
                let parent = match canon {
                    Some(c) => c.clone(),
                    None => {
                        return Err(VaultError::Filesystem(path.clone()));
                    },
                };
                let name = match file_name_of(path) {
                    Some(n) => n,
                    None => {
                        return Err(VaultError::Parse(path.clone()));
                    },
                };
                let k_parent = make_key_parent();
                let k_root = make_key_root();
                let k_name = make_key_name();
                proof {
                    lemma_vars_push_local(user, k_parent@, k_root@, k_name@);
                }
                vars.push((k_parent, parent.clone()));
                vars.push((k_root, parent));
                vars.push((k_name, name));
                proof {
                    assert(vars@.subrange(0, user.len() as int) =~= user);
                    lemma_local_domain(user, vars@, source@);
                    assert(assembled_vars(user, source@, opt_str_view(canon), vars@));
                }
                let ghost vseq = vars@;
                let out = self.apply_resolved(source, vars);
                proof {
                    if out is Ok {
                        let c = out->Ok_0;
                        let w = choose|w: Seq<(String, String)>|
                            config_applied(
                                self.content.deep_view(),
                                self.inclusions.deep_view(),
                                self.directories.deep_view(),
                                c.content.deep_view(),
                                c.inclusions.deep_view(),
                                c.directories.deep_view(),
                                w,
                            ) && crate::variables::resolution_of(vseq, w);
                        assert(assembled_vars(user, source@, opt_str_view(canon), vseq)
                            && crate::variables::resolution_of(vseq, w) && config_applied(
                            self.content.deep_view(),
                            self.inclusions.deep_view(),
                            self.directories.deep_view(),
                            c.content.deep_view(),
                            c.inclusions.deep_view(),
                            c.directories.deep_view(),
                            w,
                        ));
                    }
                    if config_loadable(*self, source@, opt_str_view(canon)) {
                        assert(assembled_vars(user, source@, opt_str_view(canon), vseq));
                        assert(exists|rank: spec_fn(Seq<char>) -> nat|
                            crate::variables::rank_ok(vseq, rank));
                        assert(config_names_bound(
                            self.content.deep_view(),
                            self.inclusions.deep_view(),
                            self.directories.deep_view(),
                            vseq,
                        ));
                        assert(vseq.len() <= 1000);
                        assert(out is Ok);
                    }
                }
                out
            },
            _ => {
                proof {
                    if config_loadable(*self, source@, opt_str_view(canon)) {
                        assert(false);
                    }
                }
                Err(VaultError::Parse(String::new()))
            },
        }
    }

    /// Resolve an assembled variable map and substitute it throughout the
    /// manifest, then validate the resulting tag names.
    #[verifier::rlimit(100)]
    #[verifier::spinoff_prover]
    fn apply_resolved(&self, source: &FileSource, vars: Vec<(String, String)>) -> (r: Result<
        Config,
        VaultError,
    >)
        requires
            crate::variables::unique_keys(vars@),
            !self.variables_set,
        ensures
            r matches Ok(c) ==> c.variables_set,
            r matches Ok(c) ==> c.variables@ == self.variables@,
            r matches Ok(c) ==> c.default_tags.deep_view() == self.default_tags.deep_view(),
            r matches Ok(c) ==> (forall|t: int|
                0 <= t < tag_universe(
                    c.content.deep_view(),
                    c.inclusions.deep_view(),
                    c.directories.deep_view(),
                ).len() ==> tag_name_ok(
                    tag_universe(
                        c.content.deep_view(),
                        c.inclusions.deep_view(),
                        c.directories.deep_view(),
                    )[t],
                )),
            r matches Ok(c) ==> (exists|vm: Seq<(String, String)>|
                config_applied(
                    self.content.deep_view(),
                    self.inclusions.deep_view(),
                    self.directories.deep_view(),
                    c.content.deep_view(),
                    c.inclusions.deep_view(),
                    c.directories.deep_view(),
                    vm,
                ) && crate::variables::resolution_of(vars@, vm)),
            r matches Err(e) ==> (e is Variable || e is Tag),
            ({
                &&& (exists|rank: spec_fn(Seq<char>) -> nat|
                    crate::variables::rank_ok(vars@, rank))
                &&& vars@.len() <= 1000
                &&& config_names_bound(
                    self.content.deep_view(),
                    self.inclusions.deep_view(),
                    self.directories.deep_view(),
                    vars@,
                )
                &&& (forall|t: int|
                    0 <= t < tag_universe(
                        self.content.deep_view(),
                        self.inclusions.deep_view(),
                        self.directories.deep_view(),
                    ).len() ==> tag_name_ok(
                        tag_universe(
                            self.content.deep_view(),
                            self.inclusions.deep_view(),
                            self.directories.deep_view(),
                        )[t],
                    ))
            }) ==> r is Ok,
    {
        let resolved = match crate::variables::resolve_variable_inter_refs(&vars) {
            Ok(m) => m,
            Err(e) => {
                return Err(e);
            },
        };
        let ghost vm = resolved@;
        proof {
            assert(crate::variables::resolution_of(vars@, vm));
        }
        // Substitute throughout the file declarations.
        let mut new_content: Vec<File> = Vec::new();
        let mut i: usize = 0;
        let ghost fsv = self.content.deep_view();
        while i < self.content.len()
            invariant
                i <= self.content.len(),
                fsv == self.content.deep_view(),
                fsv.len() == self.content@.len(),
                vm == resolved@,
                crate::variables::resolution_of(vars@, vm),
                new_content.deep_view() == fsv.subrange(0, i as int).map_values(
                    |f: FileV| file_folded(f, file_vars(f), vm),
                ),
                forall|t: int| 0 <= t < i ==> all_bound(file_vars(fsv[t]), vm),
            decreases self.content.len() - i,
        {
            let ghost prev = new_content.deep_view();
            let nf = match self.content[i].set_variables(&resolved) {
                Ok(f) => f,
                Err(e) => {
                    proof {
                        if config_names_bound(
                            self.content.deep_view(),
                            self.inclusions.deep_view(),
                            self.directories.deep_view(),
                            vars@,
                        ) {
                            assert(all_bound(file_vars(fsv[i as int]), vars@));
                            crate::variables::lemma_all_bound_same_domain(
                                file_vars(fsv[i as int]),
                                vars@,
                                vm,
                            );
                            assert(false);
                        }
                    }
                    return Err(e);
                },
            };
            new_content.push(nf);
            proof {
                assert(fsv[i as int] == self.content@[i as int]@);
                assert(new_content.deep_view() =~~= prev.push(
                    file_folded(fsv[i as int], file_vars(fsv[i as int]), vm),
                ));
                assert(new_content.deep_view() =~~= fsv.subrange(0, i + 1).map_values(
                    |f: FileV| file_folded(f, file_vars(f), vm),
                ));
            }
            i = i + 1;
        }
        proof {
            assert(fsv.subrange(0, i as int) =~~= fsv);
        }
        // Substitute throughout the inclusions.
        let mut new_incls: Vec<Inclusion> = Vec::new();
        let mut j: usize = 0;
        let ghost isv = self.inclusions.deep_view();
        while j < self.inclusions.len()
            invariant
                j <= self.inclusions.len(),
                isv == self.inclusions.deep_view(),
                isv.len() == self.inclusions@.len(),
                vm == resolved@,
                crate::variables::resolution_of(vars@, vm),
                new_incls.deep_view() == isv.subrange(0, j as int).map_values(
                    |inc: InclusionV| inclusion_folded(inc, inclusion_vars(inc), vm),
                ),
                forall|t: int| 0 <= t < j ==> all_bound(inclusion_vars(isv[t]), vm),
            decreases self.inclusions.len() - j,
        {
            let ghost prev = new_incls.deep_view();
            let ni = match self.inclusions[j].set_variables(&resolved) {
                Ok(x) => x,
                Err(e) => {
                    proof {
                        if config_names_bound(
                            self.content.deep_view(),
                            self.inclusions.deep_view(),
                            self.directories.deep_view(),
                            vars@,
                        ) {
                            assert(all_bound(inclusion_vars(isv[j as int]), vars@));
                            crate::variables::lemma_all_bound_same_domain(
                                inclusion_vars(isv[j as int]),
                                vars@,
                                vm,
                            );
                            assert(false);
                        }
                    }
                    return Err(e);
                },
            };
            new_incls.push(ni);
            proof {
                assert(isv[j as int] == self.inclusions@[j as int]@);
                assert(new_incls.deep_view() =~~= prev.push(
                    inclusion_folded(isv[j as int], inclusion_vars(isv[j as int]), vm),
                ));
                assert(new_incls.deep_view() =~~= isv.subrange(0, j + 1).map_values(
                    |inc: InclusionV| inclusion_folded(inc, inclusion_vars(inc), vm),
                ));
            }
            j = j + 1;
        }
        proof {
            assert(isv.subrange(0, j as int) =~~= isv);
        }
        // Substitute throughout the directories.
        let mut new_dirs: Vec<Directory> = Vec::new();
        let mut k: usize = 0;
        let ghost dsv = self.directories.deep_view();
        while k < self.directories.len()
            invariant
                k <= self.directories.len(),
                dsv == self.directories.deep_view(),
                dsv.len() == self.directories@.len(),
                vm == resolved@,
                crate::variables::resolution_of(vars@, vm),
                new_dirs.deep_view() == dsv.subrange(0, k as int).map_values(
                    |d: crate::directories::DirectoryV|
                        crate::directories::directory_folded(
                            d,
                            crate::directories::directory_vars(d),
                            vm,
                        ),
                ),
                forall|t: int| 0 <= t < k ==> all_bound(
                    crate::directories::directory_vars(dsv[t]),
                    vm,
                ),
            decreases self.directories.len() - k,
        {
            let ghost prev = new_dirs.deep_view();
            let nd = match self.directories[k].set_variables(&resolved) {
                Ok(x) => x,
                Err(e) => {
                    proof {
                        if config_names_bound(
                            self.content.deep_view(),
                            self.inclusions.deep_view(),
                            self.directories.deep_view(),
                            vars@,
                        ) {
                            assert(all_bound(
                                crate::directories::directory_vars(dsv[k as int]),
                                vars@,
                            ));
                            crate::variables::lemma_all_bound_same_domain(
                                crate::directories::directory_vars(dsv[k as int]),
                                vars@,
                                vm,
                            );
                            assert(false);
                        }
                    }
                    return Err(e);
                },
            };
            new_dirs.push(nd);
            proof {
                assert(dsv[k as int] == self.directories@[k as int]@);
                assert(new_dirs.deep_view() =~~= prev.push(
                    crate::directories::directory_folded(
                        dsv[k as int],
                        crate::directories::directory_vars(dsv[k as int]),
                        vm,
                    ),
                ));
                assert(new_dirs.deep_view() =~~= dsv.subrange(0, k + 1).map_values(
                    |d: crate::directories::DirectoryV|
                        crate::directories::directory_folded(
                            d,
                            crate::directories::directory_vars(d),
                            vm,
                        ),
                ));
            }
            k = k + 1;
        }
        proof {
            assert(dsv.subrange(0, k as int) =~~= dsv);
        }
        // Copy the raw variables over and mark the manifest resolved.
        let mut kept_vars: Vec<(String, String)> = Vec::new();
        let mut v: usize = 0;
        while v < self.variables.len()
            invariant
                v <= self.variables.len(),
                kept_vars@.len() == v,
                forall|t: int|
                    #![all_triggers]
                    0 <= t < v ==> kept_vars@[t] == self.variables@[t],
            decreases self.variables.len() - v,
        {
            kept_vars.push((self.variables[v].0.clone(), self.variables[v].1.clone()));
            v = v + 1;
        }
        proof {
            assert(kept_vars@ =~= self.variables@);
        }
        let conf = Config {
            variables_set: true,
            variables: kept_vars,
            content: new_content,
            inclusions: new_incls,
            directories: new_dirs,
            default_tags: crate::variables::clone_tags(&self.default_tags),
        };
        proof {
            assert(conf.content.deep_view() =~~= self.content.deep_view().map_values(
                |f: FileV| file_folded(f, file_vars(f), vm),
            ));
            assert(conf.inclusions.deep_view() =~~= self.inclusions.deep_view().map_values(
                |inc: InclusionV| inclusion_folded(inc, inclusion_vars(inc), vm),
            ));
            assert(conf.directories.deep_view() =~~= self.directories.deep_view().map_values(
                |d: crate::directories::DirectoryV|
                    crate::directories::directory_folded(
                        d,
                        crate::directories::directory_vars(d),
                        vm,
                    ),
            ));
            lemma_folded_universe(
                self.content.deep_view(),
                self.inclusions.deep_view(),
                self.directories.deep_view(),
                vm,
            );
        }
        let universe = conf.tags();
        if let Err(e) = crate::tags::validate_tags(&universe) {
            proof {
                assert(tag_universe(
                    conf.content.deep_view(),
                    conf.inclusions.deep_view(),
                    conf.directories.deep_view(),
                ) == tag_universe(
                    self.content.deep_view(),
                    self.inclusions.deep_view(),
                    self.directories.deep_view(),
                ));
            }
            return Err(e);
        }
        proof {
            assert(config_applied(
                self.content.deep_view(),
                self.inclusions.deep_view(),
                self.directories.deep_view(),
                conf.content.deep_view(),
                conf.inclusions.deep_view(),
                conf.directories.deep_view(),
                vm,
            ));
            assert(exists|w: Seq<(String, String)>|
                config_applied(
                    self.content.deep_view(),
                    self.inclusions.deep_view(),
                    self.directories.deep_view(),
                    conf.content.deep_view(),
                    conf.inclusions.deep_view(),
                    conf.directories.deep_view(),
                    w,
                ) && crate::variables::resolution_of(vars@, w));
        }
        Ok(conf)
    }
}

/// Build the string `SELF_ID`.
fn make_key_id() -> (r: String)
    ensures
        r@ == self_id_key(),
{
    let mut c: Vec<char> = Vec::new();
    c.push('S');
    c.push('E');
    c.push('L');
    c.push('F');
    c.push('_');
    c.push('I');
    c.push('D');
    proof {
        assert(c@ =~= self_id_key());
    }
    crate::text::string_from_chars(&c)
}

/// Build the string `SELF_REPO`.
fn make_key_repo() -> (r: String)
    ensures
        r@ == self_repo_key(),
{
    let mut c: Vec<char> = Vec::new();
    c.push('S');
    c.push('E');
    c.push('L');
    c.push('F');
    c.push('_');
    c.push('R');
    c.push('E');
    c.push('P');
    c.push('O');
    proof {
        assert(c@ =~= self_repo_key());
    }
    crate::text::string_from_chars(&c)
}

/// Build the string `SELF_NAME`.
fn make_key_name() -> (r: String)
    ensures
        r@ == self_name_key(),
{
    let mut c: Vec<char> = Vec::new();
    c.push('S');
    c.push('E');
    c.push('L');
    c.push('F');
    c.push('_');
    c.push('N');
    c.push('A');
    c.push('M');
    c.push('E');
    proof {
        assert(c@ =~= self_name_key());
    }
    crate::text::string_from_chars(&c)
}

/// Build the string `SELF_ROOT`.
fn make_key_root() -> (r: String)
    ensures
        r@ == self_root_key(),
{
    let mut c: Vec<char> = Vec::new();
    c.push('S');
    c.push('E');
    c.push('L');
    c.push('F');
    c.push('_');
    c.push('R');
    c.push('O');
    c.push('O');
    c.push('T');
    proof {
        assert(c@ =~= self_root_key());
    }
    crate::text::string_from_chars(&c)
}

/// Build the string `SELF_PARENT`.
fn make_key_parent() -> (r: String)
    ensures
        r@ == self_parent_key(),
{
    let mut c: Vec<char> = Vec::new();
    c.push('S');
    c.push('E');
    c.push('L');
    c.push('F');
    c.push('_');
    c.push('P');
    c.push('A');
    c.push('R');
    c.push('E');
    c.push('N');
    c.push('T');
    proof {
        assert(c@ =~= self_parent_key());
    }
    crate::text::string_from_chars(&c)
}

/// The four provenance names of a repository-loaded manifest are distinct
/// and outside the unprotected user namespace.
proof fn lemma_vars_push_git(
    user: Seq<(String, String)>,
    k_id: Seq<char>,
    k_repo: Seq<char>,
    k_name: Seq<char>,
    k_root: Seq<char>,
)
    requires
        forall|t: int| 0 <= t < user.len() ==> !protected_name(user[t].0@),
        k_id == self_id_key(),
        k_repo == self_repo_key(),
        k_name == self_name_key(),
        k_root == self_root_key(),
    ensures
        forall|t: int| 0 <= t < user.len() ==> user[t].0@ != k_id && user[t].0@ != k_repo
            && user[t].0@ != k_name && user[t].0@ != k_root,
        k_id != k_repo && k_id != k_name && k_id != k_root && k_repo != k_name && k_repo != k_root
            && k_name != k_root,
{
    assert(k_id.subrange(0, 5) =~= self_prefix());
    assert(k_repo.subrange(0, 5) =~= self_prefix());
    assert(k_name.subrange(0, 5) =~= self_prefix());
    assert(k_root.subrange(0, 5) =~= self_prefix());
    assert forall|t: int| 0 <= t < user.len() implies user[t].0@ != k_id && user[t].0@ != k_repo
        && user[t].0@ != k_name && user[t].0@ != k_root by {
        let u = user[t].0@;
        assert(!crate::text::matches_at(u, 0, self_prefix()));
        lemma_self_key_prefixed(u, k_id);
        lemma_self_key_prefixed(u, k_repo);
        lemma_self_key_prefixed(u, k_name);
        lemma_self_key_prefixed(u, k_root);
    }
    assert(k_id.len() != k_repo.len());
    assert(k_id.len() != k_name.len());
    assert(k_id.len() != k_root.len());
    assert(k_repo[5] != k_name[5]);
    assert(k_repo[6] != k_root[6]);
    assert(k_name[5] != k_root[5]);
}

/// The three provenance names of a locally loaded manifest are distinct and
/// outside the unprotected user namespace.
proof fn lemma_vars_push_local(
    user: Seq<(String, String)>,
    k_parent: Seq<char>,
    k_root: Seq<char>,
    k_name: Seq<char>,
)
    requires
        forall|t: int| 0 <= t < user.len() ==> !protected_name(user[t].0@),
        k_parent == self_parent_key(),
        k_root == self_root_key(),
        k_name == self_name_key(),
    ensures
        forall|t: int| 0 <= t < user.len() ==> user[t].0@ != k_parent && user[t].0@ != k_root
            && user[t].0@ != k_name,
        k_parent != k_root && k_parent != k_name && k_root != k_name,
{
    assert(k_parent.subrange(0, 5) =~= self_prefix());
    assert(k_root.subrange(0, 5) =~= self_prefix());
    assert(k_name.subrange(0, 5) =~= self_prefix());
    assert forall|t: int| 0 <= t < user.len() implies user[t].0@ != k_parent && user[t].0@
        != k_root && user[t].0@ != k_name by {
        let u = user[t].0@;
        assert(!crate::text::matches_at(u, 0, self_prefix()));
        lemma_self_key_prefixed(u, k_parent);
        lemma_self_key_prefixed(u, k_root);
        lemma_self_key_prefixed(u, k_name);
    }
    assert(k_parent.len() != k_root.len());
    assert(k_parent.len() != k_name.len());
    assert(k_root[5] != k_name[5]);
}

/// A name equal to a provenance name would carry the protected prefix.
proof fn lemma_self_key_prefixed(u: Seq<char>, k: Seq<char>)
    requires
        !crate::text::matches_at(u, 0, self_prefix()),
        crate::text::matches_at(k, 0, self_prefix()),
    ensures
        u != k,
{
    if u == k {
        assert(crate::text::matches_at(u, 0, self_prefix()));
    }
}

/// After pushing the four provenance entries of a repository-loaded
/// manifest, the map is unique-keyed and binds exactly the user names plus
/// the provenance names.
proof fn lemma_git_domain(
    user: Seq<(String, String)>,
    vars: Seq<(String, String)>,
    src: SourceV,
)
    requires
        crate::variables::unique_keys(user),
        src is Git,
        vars.len() == user.len() + 4,
        vars.subrange(0, user.len() as int) == user,
        vars[user.len() as int].0@ == self_id_key(),
        vars[user.len() + 1 as int].0@ == self_repo_key(),
        vars[user.len() + 2 as int].0@ == self_name_key(),
        vars[user.len() + 3 as int].0@ == self_root_key(),
        forall|t: int| 0 <= t < user.len() ==> user[t].0@ != self_id_key() && user[t].0@
            != self_repo_key() && user[t].0@ != self_name_key() && user[t].0@ != self_root_key(),
    ensures
        crate::variables::unique_keys(vars),
        forall|k: Seq<char>| crate::variables::lookup_var(vars, k) is Some <==> (
        crate::variables::lookup_var(user, k) is Some || k == self_id_key() || k
            == self_repo_key() || k == self_name_key() || k == self_root_key()),
{
    let n = user.len() as int;
    assert forall|x: int, y: int| 0 <= x < y < vars.len() implies vars[x].0@ != vars[y].0@ by {
        if y < n {
            assert(vars[x] == user[x]);
            assert(vars[y] == user[y]);
        } else if x < n {
            assert(vars[x] == user[x]);
        }
    }
    let v1 = vars.subrange(0, n + 1);
    let v2 = vars.subrange(0, n + 2);
    let v3 = vars.subrange(0, n + 3);
    assert(v1.drop_last() =~= user);
    assert(v2.drop_last() =~= v1);
    assert(v3.drop_last() =~= v2);
    assert(vars.subrange(0, vars.len() as int) =~= vars);
    assert(vars.drop_last() =~= v3);
    assert forall|k: Seq<char>| true implies (crate::variables::lookup_var(vars, k) is Some <==> (
    crate::variables::lookup_var(user, k) is Some || k == self_id_key() || k == self_repo_key()
        || k == self_name_key() || k == self_root_key())) by {
        assert(v1 =~= user.push(vars[n]));
        assert(v2 =~= v1.push(vars[n + 1 as int]));
        assert(v3 =~= v2.push(vars[n + 2 as int]));
        assert(vars =~= v3.push(vars[n + 3 as int]));
        crate::variables::lemma_lookup_push(user, vars[n], k);
        crate::variables::lemma_lookup_push(v1, vars[n + 1 as int], k);
        crate::variables::lemma_lookup_push(v2, vars[n + 2 as int], k);
        crate::variables::lemma_lookup_push(v3, vars[n + 3 as int], k);
    }
}

/// After pushing the three provenance entries of a locally loaded manifest,
/// the map is unique-keyed and binds exactly the user names plus the
/// provenance names.
proof fn lemma_local_domain(
    user: Seq<(String, String)>,
    vars: Seq<(String, String)>,
    src: SourceV,
)
    requires
        crate::variables::unique_keys(user),
        src is Local,
        vars.len() == user.len() + 3,
        vars.subrange(0, user.len() as int) == user,
        vars[user.len() as int].0@ == self_parent_key(),
        vars[user.len() + 1 as int].0@ == self_root_key(),
        vars[user.len() + 2 as int].0@ == self_name_key(),
        forall|t: int| 0 <= t < user.len() ==> user[t].0@ != self_parent_key() && user[t].0@
            != self_root_key() && user[t].0@ != self_name_key(),
    ensures
        crate::variables::unique_keys(vars),
        forall|k: Seq<char>| crate::variables::lookup_var(vars, k) is Some <==> (
        crate::variables::lookup_var(user, k) is Some || k == self_parent_key() || k
            == self_root_key() || k == self_name_key()),
{
    let n = user.len() as int;
    assert forall|x: int, y: int| 0 <= x < y < vars.len() implies vars[x].0@ != vars[y].0@ by {
        if y < n {
            assert(vars[x] == user[x]);
            assert(vars[y] == user[y]);
        } else if x < n {
            assert(vars[x] == user[x]);
        }
    }
    let v1 = vars.subrange(0, n + 1);
    let v2 = vars.subrange(0, n + 2);
    assert(v1.drop_last() =~= user);
    assert(v2.drop_last() =~= v1);
    assert(vars.subrange(0, vars.len() as int) =~= vars);
    assert(vars.drop_last() =~= v2);
    assert forall|k: Seq<char>| true implies (crate::variables::lookup_var(vars, k) is Some <==> (
    crate::variables::lookup_var(user, k) is Some || k == self_parent_key() || k
        == self_root_key() || k == self_name_key())) by {
        assert(v1 =~= user.push(vars[n]));
        assert(v2 =~= v1.push(vars[n + 1 as int]));
        assert(vars =~= v2.push(vars[n + 2 as int]));
        crate::variables::lemma_lookup_push(user, vars[n], k);
        crate::variables::lemma_lookup_push(v1, vars[n + 1 as int], k);
        crate::variables::lemma_lookup_push(v2, vars[n + 2 as int], k);
    }
}

} // verus!
