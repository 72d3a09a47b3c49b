//! Directory declarations: a target path prefix populated from a listing
//! source, each listed subpath becoming one file declaration. Listing itself
//! is outside work done by the surrounding program; the library turns a
//! listing into file declarations and is verified for every listing.

use vstd::prelude::*;

use crate::cli::{extract_components, gp_id, gp_path, gp_repo, is_repo, is_repo_spec,
    repo_components_ok};
use crate::config::{File, FileV};
use crate::errors::VaultError;
use crate::sources::{format_subpath, strip_slashes, FileSource, SourceV};
use crate::tags::{is_active_gate, tag_active};
use crate::text::{chars_vec, string_from_chars};
use crate::variables::{
    all_bound, apply_all_string, check_all_bound, clone_tags, concat_all, dedup_seq,
    fold_subst_str, opt_strs_view, scan_vars, subst_str, subst_string, union2, union3, vecset,
    VariableCompletion, empty_names, clone_opt_tags,
};

verus! {

/// A source a directory listing can come from: a local folder, a tree in a
/// git repository, or a shorthand string parsed into one of the two.
#[derive(Debug, Clone, PartialEq)]
pub enum DirSource {
    Local { path: String },
    Git { repo: String, id: String, path: String },
    Auto(String),
}

/// The mathematical value of a directory source.
pub enum DirSourceV {
    Local { path: Seq<char> },
    Git { repo: Seq<char>, id: Seq<char>, path: Seq<char> },
    Auto(Seq<char>),
}

impl DeepView for DirSource {
    type V = DirSourceV;

    open spec fn deep_view(&self) -> DirSourceV {
        self.view()
    }
}

impl View for DirSource {
    type V = DirSourceV;

    open spec fn view(&self) -> DirSourceV {
        match self {
            DirSource::Local { path } => DirSourceV::Local { path: path@ },
            DirSource::Git { repo, id, path } => DirSourceV::Git {
                repo: repo@,
                id: id@,
                path: path@,
            },
            DirSource::Auto(s) => DirSourceV::Auto(s@),
        }
    }
}

/// A directory declaration: a target prefix, an optional expected file
/// count, an optional tag set, a fallback chain of listing sources, and a
/// flag to skip dotfiles.
#[derive(Debug, Clone, PartialEq)]
pub struct Directory {
    pub count: Option<usize>,
    pub path: String,
    pub tags: Option<Vec<String>>,
    pub sources: Vec<DirSource>,
    pub ignore_hidden: bool,
}

/// The mathematical value of a directory declaration.
pub struct DirectoryV {
    pub count: Option<usize>,
    pub path: Seq<char>,
    pub tags: Option<Seq<Seq<char>>>,
    pub sources: Seq<DirSourceV>,
    pub ignore_hidden: bool,
}

impl DeepView for Directory {
    type V = DirectoryV;

    open spec fn deep_view(&self) -> DirectoryV {
        self.view()
    }
}

impl View for Directory {
    type V = DirectoryV;

    open spec fn view(&self) -> DirectoryV {
        DirectoryV {
            count: self.count,
            path: self.path@,
            tags: opt_strs_view(&self.tags),
            sources: self.sources.deep_view(),
            ignore_hidden: self.ignore_hidden,
        }
    }
}

/// The tag set of a directory, empty where none was declared.
pub open spec fn dir_tags(d: DirectoryV) -> Seq<Seq<char>> {
    match d.tags {
        Some(t) => t,
        None => Seq::empty(),
    }
}

/// Joining a base path and a relative subpath with a single separator.
pub open spec fn path_join(a: Seq<char>, b: Seq<char>) -> Seq<char> {
    if a.len() == 0 {
        b
    } else if a.last() == '/' {
        a + b
    } else {
        a + seq!['/'] + b
    }
}

/// Join a base path and a relative subpath.
pub fn join_path(a: &String, b: &String) -> (r: String)
    ensures
        r@ == path_join(a@, b@),
{
    let ac = chars_vec(a.as_str());
    let bc = chars_vec(b.as_str());
    let mut out = ac;
    if out.len() == 0 {
        return string_from_chars(&bc);
    }
    if out[out.len() - 1] != '/' {
        out.push('/');
        proof {
            assert(out@ =~= a@ + seq!['/']);
        }
    }
    crate::text::append_chars(&mut out, &bc);
    string_from_chars(&out)
}

/// Whether a shorthand directory-source string can be parsed.
pub open spec fn dir_auto_ok(s: Seq<char>) -> bool {
    !is_repo_spec(s) || repo_components_ok(s)
}

/// The directory source a shorthand string denotes.
pub open spec fn dir_auto_val(s: Seq<char>) -> DirSourceV {
    if is_repo_spec(s) {
        DirSourceV::Git { repo: gp_repo(s), id: gp_id(s), path: gp_path(s) }
    } else {
        DirSourceV::Local { path: s }
    }
}

/// Parse a shorthand directory-source string: a locator becomes a git tree
/// source, anything else a local folder.
pub fn parse_auto_dir_source(auto: &str) -> (r: Result<DirSource, VaultError>)
    ensures
        r is Ok <==> dir_auto_ok(auto@),
        r matches Ok(d) ==> d@ == dir_auto_val(auto@),
        r matches Err(e) ==> e is Parse,
{
    if is_repo(auto) {
        match extract_components(auto) {
            Some((repo, id, path)) => Ok(DirSource::Git { repo, id, path }),
            None => Err(VaultError::Parse(auto.to_owned())),
        }
    } else {
        Ok(DirSource::Local { path: auto.to_owned() })
    }
}

/// Whether the single-file sources of a directory source can be formed: only
/// a malformed shorthand string prevents it.
pub open spec fn dir_source_ok(src: DirSourceV) -> bool {
    match src {
        DirSourceV::Auto(a) => dir_auto_ok(a),
        _ => true,
    }
}

/// A directory source with any shorthand resolved.
pub open spec fn dir_source_resolved(src: DirSourceV) -> DirSourceV {
    match src {
        DirSourceV::Auto(a) => dir_auto_val(a),
        _ => src,
    }
}

/// The single-file source for one listed subpath of a directory source.
pub open spec fn single_source_spec(src: DirSourceV, sub: Seq<char>) -> SourceV {
    match dir_source_resolved(src) {
        DirSourceV::Git { repo, id, path } => SourceV::Git {
            repo,
            id,
            path: path_join(path, strip_slashes(sub)),
        },
        DirSourceV::Local { path } => SourceV::Local { path: path_join(path, strip_slashes(sub)) },
        DirSourceV::Auto(a) => SourceV::Auto(a),
    }
}

impl DirSource {
    /// An equal copy, field by field.
    pub fn duplicate(&self) -> (r: Self)
        ensures
            r@ == self@,
    {
        match self {
            DirSource::Local { path } => DirSource::Local { path: path.clone() },
            DirSource::Git { repo, id, path } => DirSource::Git {
                repo: repo.clone(),
                id: id.clone(),
                path: path.clone(),
            },
            DirSource::Auto(s) => DirSource::Auto(s.clone()),
        }
    }

    /// The content source for one subpath of the listing: the directory
    /// source narrowed to a single file.
    pub fn get_single_file_source(&self, subpath: &String) -> (r: Result<FileSource, VaultError>)
        ensures
            r is Ok <==> dir_source_ok(self@),
            r matches Ok(src) ==> src@ == single_source_spec(self@, subpath@),
            r matches Err(e) ==> e is Parse,
    {
        let sub = format_subpath(subpath);
        match self {
            DirSource::Git { repo, id, path } => Ok(FileSource::Git {
                repo: repo.clone(),
                id: id.clone(),
                path: join_path(path, &sub),
            }),
            DirSource::Local { path } => Ok(FileSource::Local { path: join_path(path, &sub) }),
            DirSource::Auto(auto) => {
                match parse_auto_dir_source(auto.as_str()) {
                    Ok(DirSource::Git { repo, id, path }) => Ok(FileSource::Git {
                        repo,
                        id,
                        path: join_path(&path, &sub),
                    }),
                    Ok(DirSource::Local { path }) => Ok(FileSource::Local {
                        path: join_path(&path, &sub),
                    }),
                    Ok(DirSource::Auto(_)) => {
                        // A parsed shorthand is never itself a shorthand.
                        assert(false);
                        Err(VaultError::Parse(auto.clone()))
                    },
                    Err(e) => Err(e),
                }
            },
        }
    }
}

/// The variable names a directory source requires.
pub open spec fn dirsource_vars(s: DirSourceV) -> Seq<Seq<char>> {
    match s {
        DirSourceV::Auto(a) => scan_vars(a),
        DirSourceV::Git { repo, id, path } => dedup_seq(
            scan_vars(path) + scan_vars(repo) + scan_vars(id),
        ),
        DirSourceV::Local { path } => scan_vars(path),
    }
}

/// A directory source with one name substituted in its string fields.
pub open spec fn dirsource_subst1(s: DirSourceV, k: Seq<char>, val: Seq<char>) -> DirSourceV {
    match s {
        DirSourceV::Auto(a) => DirSourceV::Auto(subst_str(a, k, val)),
        DirSourceV::Git { repo, id, path } => DirSourceV::Git {
            repo: subst_str(repo, k, val),
            id: subst_str(id, k, val),
            path: subst_str(path, k, val),
        },
        DirSourceV::Local { path } => DirSourceV::Local { path: subst_str(path, k, val) },
    }
}

/// A directory source with a list of names substituted, in order.
pub open spec fn dirsource_folded(
    s: DirSourceV,
    names: Seq<Seq<char>>,
    m: Seq<(String, String)>,
) -> DirSourceV {
    match s {
        DirSourceV::Auto(a) => DirSourceV::Auto(fold_subst_str(a, names, m)),
        DirSourceV::Git { repo, id, path } => DirSourceV::Git {
            repo: fold_subst_str(repo, names, m),
            id: fold_subst_str(id, names, m),
            path: fold_subst_str(path, names, m),
        },
        DirSourceV::Local { path } => DirSourceV::Local { path: fold_subst_str(path, names, m) },
    }
}

impl VariableCompletion for DirSource {
    fn required_variables(&self) -> (r: Vec<String>)
        ensures
            r.deep_view() == dirsource_vars(self@),
    {
        match self {
            DirSource::Auto(a) => a.required_variables(),
            DirSource::Git { repo, id, path } => union3(
                path.required_variables(),
                repo.required_variables(),
                id.required_variables(),
            ),
            DirSource::Local { path } => path.required_variables(),
        }
    }

    fn set_single_variable(&self, key: &str, value: &str) -> (r: Self)
        ensures
            r@ == dirsource_subst1(self@, key@, value@),
    {
        match self {
            DirSource::Auto(a) => DirSource::Auto(subst_string(a.as_str(), key, value)),
            DirSource::Git { repo, id, path } => DirSource::Git {
                repo: subst_string(repo.as_str(), key, value),
                id: subst_string(id.as_str(), key, value),
                path: subst_string(path.as_str(), key, value),
            },
            DirSource::Local { path } => DirSource::Local {
                path: subst_string(path.as_str(), key, value),
            },
        }
    }

    fn set_variables(&self, map: &Vec<(String, String)>) -> (r: Result<Self, VaultError>)
        ensures
            r is Ok <==> all_bound(dirsource_vars(self@), map@),
            r matches Ok(v) ==> v@ == dirsource_folded(self@, dirsource_vars(self@), map@),
            r matches Err(e) ==> e is Variable && dirsource_vars(self@).contains(e.detail_view())
                && crate::variables::lookup_var(map@, e.detail_view()) is None,
    {
        let names = self.required_variables();
        if let Err(e) = check_all_bound(&names, map) {
            return Err(e);
        }
        Ok(fold_dirsource(self, &names, map))
    }
}

/// Apply a list of named substitutions to every string field of a directory
/// source.
fn fold_dirsource(s: &DirSource, names: &Vec<String>, map: &Vec<(String, String)>) -> (r:
    DirSource)
    ensures
        r@ == dirsource_folded(s@, names.deep_view(), map@),
{
    match s {
        DirSource::Auto(a) => DirSource::Auto(apply_all_string(a, names, map)),
        DirSource::Git { repo, id, path } => DirSource::Git {
            repo: apply_all_string(repo, names, map),
            id: apply_all_string(id, names, map),
            path: apply_all_string(path, names, map),
        },
        DirSource::Local { path } => DirSource::Local { path: apply_all_string(path, names, map) },
    }
}

/// The concatenated variable names of a list of directory sources.
pub open spec fn dir_sources_cat(ss: Seq<DirSourceV>) -> Seq<Seq<char>>
    decreases ss.len(),
{
    if ss.len() == 0 {
        Seq::empty()
    } else {
        dir_sources_cat(ss.drop_last()) + dirsource_vars(ss.last())
    }
}

/// The variable names a directory requires: those of its sources, then those
/// of its path.
pub open spec fn directory_vars(d: DirectoryV) -> Seq<Seq<char>> {
    dedup_seq(dedup_seq(dir_sources_cat(d.sources)) + scan_vars(d.path))
}

/// A directory with one name substituted in its path and sources.
pub open spec fn directory_subst1(d: DirectoryV, k: Seq<char>, val: Seq<char>) -> DirectoryV {
    DirectoryV {
        count: d.count,
        path: subst_str(d.path, k, val),
        tags: d.tags,
        sources: d.sources.map_values(|s: DirSourceV| dirsource_subst1(s, k, val)),
        ignore_hidden: d.ignore_hidden,
    }
}

/// A directory with a list of names substituted, in order, in its path and
/// sources.
pub open spec fn directory_folded(
    d: DirectoryV,
    names: Seq<Seq<char>>,
    m: Seq<(String, String)>,
) -> DirectoryV {
    DirectoryV {
        count: d.count,
        path: fold_subst_str(d.path, names, m),
        tags: d.tags,
        sources: d.sources.map_values(|s: DirSourceV| dirsource_folded(s, names, m)),
        ignore_hidden: d.ignore_hidden,
    }
}

impl VariableCompletion for Directory {
    fn required_variables(&self) -> (r: Vec<String>)
        ensures
            r.deep_view() == directory_vars(self@),
    {
        let mut parts: Vec<Vec<String>> = Vec::new();
        let mut i: usize = 0;
        let ghost ssv = self.sources.deep_view();
        proof {
            assert(ssv.subrange(0, 0) =~~= Seq::<DirSourceV>::empty());
            assert(concat_all(parts.deep_view()) =~~= dir_sources_cat(ssv.subrange(0, 0)));
        }
        while i < self.sources.len()
            invariant
                i <= self.sources.len(),
                ssv == self.sources.deep_view(),
                ssv.len() == self.sources@.len(),
                concat_all(parts.deep_view()) == dir_sources_cat(ssv.subrange(0, i as int)),
            decreases self.sources.len() - i,
        {
            let ghost pv = parts.deep_view();
            let req = self.sources[i].required_variables();
            let ghost reqv = req.deep_view();
            parts.push(req);
            proof {
                assert(parts.deep_view().drop_last() =~~= pv);
                assert(parts.deep_view().last() =~~= reqv);
                assert(ssv.subrange(0, i + 1).drop_last() =~~= ssv.subrange(0, i as int));
                assert(ssv.subrange(0, i + 1).last() == ssv[i as int]);
                assert(ssv[i as int] == self.sources@[i as int]@);
                assert(concat_all(parts.deep_view()) =~~= dir_sources_cat(ssv.subrange(0, i + 1)));
            }
            i = i + 1;
        }
        proof {
            assert(ssv.subrange(0, i as int) =~~= ssv);
        }
        let srcs_req = vecset(parts);
        union2(srcs_req, self.path.required_variables())
    }

    fn set_single_variable(&self, key: &str, value: &str) -> (r: Self)
        ensures
            r@ == directory_subst1(self@, key@, value@),
    {
        let mut new_sources: Vec<DirSource> = Vec::new();
        let mut i: usize = 0;
        let ghost ssv = self.sources.deep_view();
        while i < self.sources.len()
            invariant
                i <= self.sources.len(),
                ssv == self.sources.deep_view(),
                ssv.len() == self.sources@.len(),
                new_sources.deep_view() == ssv.subrange(0, i as int).map_values(
                    |s: DirSourceV| dirsource_subst1(s, key@, value@),
                ),
            decreases self.sources.len() - i,
        {
            let ghost prev = new_sources.deep_view();
            new_sources.push(self.sources[i].set_single_variable(key, value));
            proof {
                assert(ssv[i as int] == self.sources@[i as int]@);
                assert(new_sources.deep_view() =~~= prev.push(
                    dirsource_subst1(ssv[i as int], key@, value@),
                ));
                assert(new_sources.deep_view() =~~= ssv.subrange(0, i + 1).map_values(
                    |s: DirSourceV| dirsource_subst1(s, key@, value@),
                ));
            }
            i = i + 1;
        }
        proof {
            assert(ssv.subrange(0, i as int) =~~= ssv);
        }
        Directory {
            count: self.count,
            path: subst_string(self.path.as_str(), key, value),
            tags: clone_opt_tags(&self.tags),
            sources: new_sources,
            ignore_hidden: self.ignore_hidden,
        }
    }

    fn set_variables(&self, map: &Vec<(String, String)>) -> (r: Result<Self, VaultError>)
        ensures
            r is Ok <==> all_bound(directory_vars(self@), map@),
            r matches Ok(v) ==> v@ == directory_folded(self@, directory_vars(self@), map@),
            r matches Err(e) ==> e is Variable && directory_vars(self@).contains(e.detail_view())
                && crate::variables::lookup_var(map@, e.detail_view()) is None,
    {
        let names = self.required_variables();
        if let Err(e) = check_all_bound(&names, map) {
            return Err(e);
        }
        let mut new_sources: Vec<DirSource> = Vec::new();
        let mut i: usize = 0;
        let ghost ssv = self.sources.deep_view();
        let ghost nv = names.deep_view();
        while i < self.sources.len()
            invariant
                i <= self.sources.len(),
                ssv == self.sources.deep_view(),
                ssv.len() == self.sources@.len(),
                nv == names.deep_view(),
                new_sources.deep_view() == ssv.subrange(0, i as int).map_values(
                    |s: DirSourceV| dirsource_folded(s, nv, map@),
                ),
            decreases self.sources.len() - i,
        {
            let ghost prev = new_sources.deep_view();
            new_sources.push(fold_dirsource(&self.sources[i], &names, map));
            proof {
                assert(ssv[i as int] == self.sources@[i as int]@);
                assert(new_sources.deep_view() =~~= prev.push(
                    dirsource_folded(ssv[i as int], nv, map@),
                ));
                assert(new_sources.deep_view() =~~= ssv.subrange(0, i + 1).map_values(
                    |s: DirSourceV| dirsource_folded(s, nv, map@),
                ));
            }
            i = i + 1;
        }
        proof {
            assert(ssv.subrange(0, i as int) =~~= ssv);
        }
        Ok(
            Directory {
                count: self.count,
                path: apply_all_string(&self.path, &names, map),
                tags: clone_opt_tags(&self.tags),
                sources: new_sources,
                ignore_hidden: self.ignore_hidden,
            },
        )
    }
}

/// The listed subpaths that survive the dotfile filter.
pub open spec fn visible_subpaths(listing: Seq<Seq<char>>, ignore_hidden: bool) -> Seq<Seq<char>>
    decreases listing.len(),
{
    if listing.len() == 0 {
        Seq::empty()
    } else {
        let rest = visible_subpaths(listing.drop_last(), ignore_hidden);
        if ignore_hidden && listing.last().len() > 0 && listing.last()[0] == '.' {
            rest
        } else {
            rest.push(listing.last())
        }
    }
}

/// The file declarations a directory contributes, one per visible subpath.
pub open spec fn dir_files_spec(d: DirectoryV, src: DirSourceV, subs: Seq<Seq<char>>) -> Seq<
    FileV,
> {
    subs.map_values(
        |sub: Seq<char>|
            FileV {
                path: path_join(d.path, sub),
                tags: d.tags,
                hash: None,
                sources: seq![single_source_spec(src, sub)],
                edits: Seq::empty(),
            },
    )
}

/// Whether the expected file count of a directory matches a listing.
pub open spec fn count_ok(d: DirectoryV, listing: Seq<Seq<char>>) -> bool {
    match d.count {
        Some(c) => c == listing.len(),
        None => true,
    }
}

impl Directory {
    /// The tag set gating this directory, empty where none was declared.
    pub fn get_tags(&self) -> (r: Vec<String>)
        ensures
            r.deep_view() == dir_tags(self@),
    {
        match &self.tags {
            Some(t) => clone_tags(t),
            None => empty_names(),
        }
    }

    /// Whether this directory participates under the given active tag set.
    pub fn is_active(&self, tags: &Vec<String>) -> (r: bool)
        ensures
            r == tag_active(dir_tags(self@), tags.deep_view()),
    {
        let own = self.get_tags();
        is_active_gate(&own, tags)
    }

    /// All file declarations of this directory, one per visible subpath of
    /// the given listing: the expected count is checked against the whole
    /// listing, dotfiles are skipped when so configured, and a directory
    /// that contributes no file at all is rejected.
    pub fn get_all_files(&self, source: &DirSource, listing: &Vec<String>) -> (r: Result<
        Vec<File>,
        VaultError,
    >)
        ensures
            r is Ok <==> count_ok(self@, listing.deep_view()) && visible_subpaths(
                listing.deep_view(),
                self.ignore_hidden,
            ).len() > 0 && dir_source_ok(source@),
            r matches Ok(out) ==> out.deep_view() == dir_files_spec(
                self@,
                source@,
                visible_subpaths(listing.deep_view(), self.ignore_hidden),
            ),
            r matches Err(e) ==> e is Parse || e is SourceExhausted,
    {
        if let Some(c) = self.count {
            if c != listing.len() {
                return Err(VaultError::Parse(self.path.clone()));
            }
        }
        // Keep the subpaths that survive the dotfile filter.
        let mut subs: Vec<String> = Vec::new();
        let mut i: usize = 0;
        proof {
            assert(listing.deep_view().subrange(0, 0) =~~= Seq::<Seq<char>>::empty());
        }
        while i < listing.len()
            invariant
                i <= listing.len(),
                subs.deep_view() == visible_subpaths(
                    listing.deep_view().subrange(0, i as int),
                    self.ignore_hidden,
                ),
            decreases listing.len() - i,
        {
            let ghost prev = subs.deep_view();
            let ghost sub1 = listing.deep_view().subrange(0, i + 1);
            proof {
                assert(sub1.drop_last() =~~= listing.deep_view().subrange(0, i as int));
                assert(sub1.last() == listing.deep_view()[i as int]);
                assert(listing.deep_view()[i as int] == listing@[i as int]@);
            }
            let cs = chars_vec(listing[i].as_str());
            let hidden = self.ignore_hidden && cs.len() > 0 && cs[0] == '.';
            if !hidden {
                subs.push(listing[i].clone());
                proof {
                    assert(subs.deep_view() =~~= prev.push(listing@[i as int]@));
                }
            }
            proof {
                assert(subs.deep_view() =~~= visible_subpaths(sub1, self.ignore_hidden));
            }
            i = i + 1;
        }
        proof {
            assert(listing.deep_view().subrange(0, i as int) =~~= listing.deep_view());
        }
        if subs.len() == 0 {
            return Err(VaultError::SourceExhausted(self.path.clone()));
        }
        // Build one file declaration per visible subpath.
        let mut out: Vec<File> = Vec::new();
        let mut j: usize = 0;
        let ghost subsv = subs.deep_view();
        while j < subs.len()
            invariant
                j <= subs.len(),
                subsv == subs.deep_view(),
                j > 0 ==> dir_source_ok(source@),
                out.deep_view() =~~= dir_files_spec(self@, source@, subsv.subrange(0, j as int)),
            decreases subs.len() - j,
        {
            let ghost prev = out.deep_view();
            let single = match source.get_single_file_source(&subs[j]) {
                Ok(s) => s,
                Err(e) => {
                    return Err(e);
                },
            };
            let mut srcs: Vec<FileSource> = Vec::new();
            srcs.push(single);
            let f = File {
                path: join_path(&self.path, &subs[j]),
                tags: clone_opt_tags(&self.tags),
                hash: None,
                sources: srcs,
                edits: Vec::new(),
            };
            proof {
                assert(subsv[j as int] == subs@[j as int]@);
                assert(f@.sources =~~= seq![single_source_spec(source@, subsv[j as int])]);
                assert(f@.edits =~~= Seq::<crate::edits::EditV>::empty());
            }
            out.push(f);
            proof {
                assert(out.deep_view() =~~= prev.push(f@));
                assert(dir_files_spec(self@, source@, subsv.subrange(0, j + 1)) =~~= dir_files_spec(
                    self@,
                    source@,
                    subsv.subrange(0, j as int),
                ).push(
                    FileV {
                        path: path_join(self@.path, subsv[j as int]),
                        tags: self@.tags,
                        hash: None,
                        sources: seq![single_source_spec(source@, subsv[j as int])],
                        edits: Seq::empty(),
                    },
                ));
            }
            j = j + 1;
        }
        proof {
            assert(subsv.subrange(0, j as int) =~~= subsv);
        }
        // The first visible subpath would already have failed on a malformed
        // shorthand source, so reaching here with none left means success.
        Ok(out)
    }

    /// The directory's file declarations where it is active, and none where
    /// it is not.
    pub fn get_active(&self, tags: &Vec<String>, source: &DirSource, listing: &Vec<String>) -> (r:
        Result<Vec<File>, VaultError>)
        ensures
            !tag_active(dir_tags(self@), tags.deep_view()) ==> (r matches Ok(out) && out@.len()
                == 0),
            tag_active(dir_tags(self@), tags.deep_view()) ==> {
                &&& r is Ok <==> count_ok(self@, listing.deep_view()) && visible_subpaths(
                    listing.deep_view(),
                    self.ignore_hidden,
                ).len() > 0 && dir_source_ok(source@)
                &&& (r matches Ok(out) ==> out.deep_view() == dir_files_spec(
                    self@,
                    source@,
                    visible_subpaths(listing.deep_view(), self.ignore_hidden),
                ))
            },
            r matches Err(e) ==> e is Parse || e is SourceExhausted,
    {
        if self.is_active(tags) {
            self.get_all_files(source, listing)
        } else {
            Ok(Vec::new())
        }
    }
}

} // verus!
