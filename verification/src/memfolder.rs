//! The reconciler: an in-memory snapshot of the target tree, built from the
//! resolved file list by reusing reference content whose hash pin still
//! matches and taking freshly fetched bytes otherwise, and the two write
//! modes as functions from the existing tree to the resulting tree.

use vstd::prelude::*;
use vstd::utf8::{encode_utf8, valid_utf8};

use crate::config::{apply_edits, clone_bytes, edits_apply, File, FileV};
use crate::errors::VaultError;
use crate::sources::{hash_hex, strip_slashes};
use crate::text::{chars_vec, first_index, lemma_first_index, lemma_first_index_at, string_from_chars, subvec};

verus! {

/// An in-memory target tree: relative paths mapped to content bytes.
#[derive(Debug)]
pub struct MemFolder(pub Vec<(String, Vec<u8>)>);

/// First-match lookup of a path in a tree.
pub open spec fn folder_lookup(m: Seq<(String, Vec<u8>)>, k: Seq<char>) -> Option<Seq<u8>>
    decreases m.len(),
{
    if m.len() == 0 {
        None
    } else if m[0].0@ == k {
        Some(m[0].1@)
    } else {
        folder_lookup(m.skip(1), k)
    }
}

/// No two entries hold the same path.
pub open spec fn folder_keys_unique(m: Seq<(String, Vec<u8>)>) -> bool {
    forall|i: int, j: int| 0 <= i < j < m.len() ==> m[i].0@ != m[j].0@
}

/// A path that escapes its folder: one of its `/`-separated components is
/// `..`.
pub open spec fn has_parent_dir(p: Seq<char>) -> bool
    decreases p.len(),
{
    let k = first_index(p, '/');
    if k >= p.len() {
        p == seq!['.', '.']
    } else {
        p.subrange(0, k as int) == seq!['.', '.'] || has_parent_dir(p.skip(k + 1 as int))
    }
}

/// Whether one of the `/`-separated components of a path is `..`.
pub fn contains_parent_dir(path: &String) -> (r: bool)
    ensures
        r == has_parent_dir(path@),
{
    let cs = chars_vec(path.as_str());
    let mut i: usize = 0;
    proof {
        assert(cs@.skip(0) =~= cs@);
    }
    loop
        invariant
            i <= cs.len(),
            cs@ == path@,
            has_parent_dir(path@) == has_parent_dir(cs@.skip(i as int)),
        decreases cs.len() - i,
    {
        let ghost rest = cs@.skip(i as int);
        // Find the end of the current component.
        let mut j: usize = i;
        while j < cs.len() && cs[j] != '/'
            invariant
                i <= j <= cs.len(),
                forall|t: int| i <= t < j ==> cs@[t] != '/',
            decreases cs.len() - j,
        {
            j = j + 1;
        }
        proof {
            assert forall|t: int| 0 <= t < j - i implies rest[t] != '/' by {
                assert(rest[t] == cs@[t + i]);
            }
            if j < cs.len() {
                assert(rest[j - i] == cs@[j as int]);
                lemma_first_index_at(rest, '/', j - i);
            } else {
                lemma_first_index(rest, '/');
                if rest.contains('/') {
                    let t = choose|t: int| 0 <= t < rest.len() && rest[t] == '/';
                    assert(false);
                }
                assert(first_index(rest, '/') == rest.len());
            }
            assert(rest.subrange(0, (j - i) as int) =~= cs@.subrange(i as int, j as int));
        }
        let is_dots = j - i == 2 && cs[i] == '.' && cs[i + 1] == '.';
        proof {
            if j - i == 2 && cs@[i as int] == '.' && cs@[i + 1] == '.' {
                assert(cs@.subrange(i as int, j as int) =~= seq!['.', '.']);
            } else if j - i == 2 {
                assert(cs@.subrange(i as int, j as int)[0] == cs@[i as int]);
                assert(cs@.subrange(i as int, j as int)[1] == cs@[i + 1]);
                assert(cs@.subrange(i as int, j as int) != seq!['.', '.']);
            } else {
                assert(cs@.subrange(i as int, j as int).len() != 2);
                assert(cs@.subrange(i as int, j as int) != seq!['.', '.']);
            }
        }
        if is_dots {
            return true;
        }
        if j == cs.len() {
            proof {
                assert(rest =~= cs@.subrange(i as int, j as int));
            }
            return false;
        }
        proof {
            assert(rest.skip((j - i) + 1) =~= cs@.skip(j + 1));
        }
        i = j + 1;
    }
}

/// Whether a file's hash pin matches content already present at its path in
/// the reference tree, so that fetching can be skipped.
pub open spec fn reuses_reference(f: FileV, reference: Seq<(String, Vec<u8>)>) -> bool {
    match f.hash {
        Some(h) => match folder_lookup(reference, strip_slashes(f.path)) {
            Some(bytes) => hash_hex(bytes) == h,
            None => false,
        },
        None => false,
    }
}

/// The produced bytes are the given base content with the file's active
/// edits applied.
pub open spec fn edited_ok(f: FileV, data: Seq<u8>, act: Seq<Seq<char>>, out: Seq<u8>) -> bool {
    if f.edits.len() == 0 {
        out == data
    } else {
        exists|t: Seq<char>, o: Seq<char>|
            encode_utf8(t) == data && apply_edits(f.edits, act, t) == Some(o) && out
                == encode_utf8(o)
    }
}

/// The produced bytes are a correct reconciliation of one file: edits run
/// over the reference content where its hash still matches, and over the
/// fetched bytes (which must match any pin) otherwise.
pub open spec fn reconciled_entry(
    f: FileV,
    reference: Seq<(String, Vec<u8>)>,
    fetched: Option<Vec<u8>>,
    act: Seq<Seq<char>>,
    out: Seq<u8>,
) -> bool {
    if reuses_reference(f, reference) {
        edited_ok(f, folder_lookup(reference, strip_slashes(f.path)).unwrap(), act, out)
    } else {
        match fetched {
            Some(d) => (match f.hash {
                Some(h) => hash_hex(d@) == h,
                None => true,
            }) && edited_ok(f, d@, act, out),
            None => false,
        }
    }
}

/// One file can be reconciled: its path stays inside the target, and either
/// the reference content is reused and its edits apply to it, or fetched
/// bytes are present, satisfy any pin, and the edits apply to them.
pub open spec fn entry_buildable(
    f: FileV,
    reference: Seq<(String, Vec<u8>)>,
    fetched: Option<Vec<u8>>,
    act: Seq<Seq<char>>,
) -> bool {
    &&& !has_parent_dir(strip_slashes(f.path))
    &&& if reuses_reference(f, reference) {
        edits_apply(f, folder_lookup(reference, strip_slashes(f.path)).unwrap(), act)
    } else {
        match fetched {
            Some(d) => (match f.hash {
                Some(h) => hash_hex(d@) == h,
                None => true,
            }) && edits_apply(f, d@, act),
            None => false,
        }
    }
}

/// A file whose hash pin already matches the reference content is rebuilt
/// from that content alone: its reconciled bytes do not depend on what was,
/// or was not, fetched for it.
pub proof fn lemma_reuse_ignores_fetch(
    f: FileV,
    reference: Seq<(String, Vec<u8>)>,
    fetched_a: Option<Vec<u8>>,
    fetched_b: Option<Vec<u8>>,
    act: Seq<Seq<char>>,
    out: Seq<u8>,
)
    requires
        reuses_reference(f, reference),
    ensures
        reconciled_entry(f, reference, fetched_a, act, out) == reconciled_entry(
            f,
            reference,
            fetched_b,
            act,
            out,
        ),
{
}

impl MemFolder {
    /// The empty tree.
    pub fn empty() -> (r: Self)
        ensures
            r.0@.len() == 0,
    {
        MemFolder(Vec::new())
    }

    /// Look a path up in the tree.
    pub fn get(&self, k: &String) -> (r: Option<Vec<u8>>)
        ensures
            match r {
                Some(v) => folder_lookup(self.0@, k@) == Some(v@),
                None => folder_lookup(self.0@, k@) is None,
            },
    {
        let mut i: usize = 0;
        proof {
            assert(self.0@.skip(0) =~= self.0@);
        }
        while i < self.0.len()
            invariant
                i <= self.0.len(),
                folder_lookup(self.0@, k@) == folder_lookup(self.0@.skip(i as int), k@),
            decreases self.0.len() - i,
        {
            proof {
                assert(self.0@.skip(i as int)[0] == self.0@[i as int]);
                assert(self.0@.skip(i as int).skip(1) =~= self.0@.skip(i + 1));
            }
            if self.0[i].0.eq(k) {
                return Some(clone_bytes(&self.0[i].1));
            }
            i = i + 1;
        }
        None
    }

    /// Bind a path to content, replacing any existing binding.
    fn upsert(&mut self, k: String, v: Vec<u8>)
        requires
            folder_keys_unique(old(self).0@),
        ensures
            folder_keys_unique(final(self).0@),
            folder_lookup(final(self).0@, k@) == Some(v@),
            forall|k2: Seq<char>| k2 != k@ ==> folder_lookup(final(self).0@, k2) == folder_lookup(
                old(self).0@,
                k2,
            ),
            forall|k2: Seq<char>| folder_lookup(final(self).0@, k2) is Some <==> (folder_lookup(
                old(self).0@,
                k2,
            ) is Some || k2 == k@),
    {
        let ghost kv = k@;
        let ghost vv = v@;
        let mut i: usize = 0;
        while i < self.0.len()
            invariant
                i <= self.0.len(),
                folder_keys_unique(self.0@),
                self.0@ == old(self).0@,
                kv == k@,
                vv == v@,
                forall|t: int| 0 <= t < i ==> self.0@[t].0@ != kv,
            decreases self.0.len() - i,
        {
            let hit = self.0[i].0.eq(&k);
            proof {
                assert(self.0@[i as int].0@ == self.0@[i as int].0@);
            }
            if hit {
                let ghost before = self.0@;
                self.0.remove(i);
                let ghost removed = self.0@;
                self.0.push((k, v));
                proof {
                    assert(self.0@.drop_last() =~= removed);
                    lemma_folder_remove_push(before, removed, self.0@, i as int, kv, vv);
                }
                return ;
            }
            proof {
                assert(self.0@[i as int].0@ != kv);
            }
            i = i + 1;
        }
        let ghost before = self.0@;
        self.0.push((k, v));
        proof {
            assert(self.0@.drop_last() =~= before);
            lemma_folder_push_fresh(before, self.0@, kv, vv);
        }
    }

    /// Build the target snapshot for a resolved file list: paths may not
    /// escape the target; a file whose hash pin matches the reference content
    /// at its path is rebuilt from that content without consuming a fetch;
    /// any other file consumes its fetched bytes, which must satisfy its pin.
    pub fn load_first_valid_with_ref(
        files: &Vec<File>,
        tags: &Vec<String>,
        reference: &MemFolder,
        fetched: &Vec<Option<Vec<u8>>>,
    ) -> (r: Result<MemFolder, VaultError>)
        requires
            fetched.len() == files.len(),
        ensures
            r matches Ok(m) ==> {
                &&& folder_keys_unique(m.0@)
                &&& forall|i: int|
                    0 <= i < files.deep_view().len() ==> !has_parent_dir(strip_slashes(
                        files.deep_view()[i].path,
                    ))
                &&& forall|i: int|
                    #![trigger files.deep_view()[i]]
                    0 <= i < files.deep_view().len() && (forall|j: int|
                        i < j < files.deep_view().len() ==> strip_slashes(
                            files.deep_view()[j].path,
                        ) != strip_slashes(files.deep_view()[i].path)) ==> match folder_lookup(
                        m.0@,
                        strip_slashes(files.deep_view()[i].path),
                    ) {
                        Some(c) => reconciled_entry(
                            files.deep_view()[i],
                            reference.0@,
                            fetched@[i],
                            tags.deep_view(),
                            c,
                        ),
                        None => false,
                    }
                &&& forall|k: Seq<char>| folder_lookup(m.0@, k) is Some ==> (exists|i: int|
                    0 <= i < files.deep_view().len() && strip_slashes(files.deep_view()[i].path)
                        == k)
            },
            (forall|i: int|
                0 <= i < files.deep_view().len() ==> entry_buildable(
                    files.deep_view()[i],
                    reference.0@,
                    fetched@[i],
                    tags.deep_view(),
                )) ==> r is Ok,
            r matches Err(e) ==> (e is Filesystem || e is SourceExhausted || e is HashMismatch
                || e is Edit),
    {
        let mut memfolder = MemFolder::empty();
        let mut i: usize = 0;
        let ghost fv = files.deep_view();
        let ghost act = tags.deep_view();
        while i < files.len()
            invariant
                i <= files.len(),
                fv == files.deep_view(),
                fv.len() == files@.len(),
                act == tags.deep_view(),
                fetched.len() == files.len(),
                folder_keys_unique(memfolder.0@),
                forall|t: int| 0 <= t < i ==> !has_parent_dir(strip_slashes(fv[t].path)),
                forall|t: int|
                    #![trigger fv[t]]
                    0 <= t < i && (forall|j: int|
                        t < j < i ==> strip_slashes(fv[j].path) != strip_slashes(fv[t].path))
                        ==> match folder_lookup(memfolder.0@, strip_slashes(fv[t].path)) {
                        Some(c) => reconciled_entry(fv[t], reference.0@, fetched@[t], act, c),
                        None => false,
                    },
                forall|k: Seq<char>| folder_lookup(memfolder.0@, k) is Some ==> (exists|t: int|
                    0 <= t < i && strip_slashes(fv[t].path) == k),
            decreases files.len() - i,
        {
            let item = &files[i];
            proof {
                assert(fv[i as int] == files@[i as int]@);
            }
            let p = item.get_path();
            if contains_parent_dir(&p) {
                proof {
                    if forall|t: int|
                        0 <= t < fv.len() ==> entry_buildable(
                            fv[t],
                            reference.0@,
                            fetched@[t],
                            act,
                        ) {
                        assert(entry_buildable(fv[i as int], reference.0@, fetched@[i as int], act));
                        assert(false);
                    }
                }
                return Err(VaultError::Filesystem(p));
            }
            let content = match reconcile_one(item, &p, reference, &fetched[i], tags) {
                Ok(c) => c,
                Err(e) => {
                    proof {
                        if forall|t: int|
                            0 <= t < fv.len() ==> entry_buildable(
                                fv[t],
                                reference.0@,
                                fetched@[t],
                                act,
                            ) {
                            assert(entry_buildable(
                                fv[i as int],
                                reference.0@,
                                fetched@[i as int],
                                act,
                            ));
                            assert(false);
                        }
                    }
                    return Err(e);
                },
            };
            let ghost pv = p@;
            let ghost cv = content@;
            memfolder.upsert(p, content);
            proof {
                assert(folder_lookup(memfolder.0@, pv) == Some(cv));
                assert forall|k: Seq<char>| folder_lookup(memfolder.0@, k) is Some implies (
                exists|t: int| 0 <= t < i + 1 && strip_slashes(fv[t].path) == k) by {
                    if k == pv {
                        assert(strip_slashes(fv[i as int].path) == k);
                    } else {
                        let t = choose|t: int| 0 <= t < i && strip_slashes(fv[t].path) == k;
                        assert(0 <= t < i + 1 && strip_slashes(fv[t].path) == k);
                    }
                }
            }
            i = i + 1;
        }
        Ok(memfolder)
    }
}

/// Reconcile one file: reuse the reference content where its hash pin still
/// matches, and take the fetched bytes otherwise.
fn reconcile_one(
    item: &File,
    p: &String,
    reference: &MemFolder,
    fetched_i: &Option<Vec<u8>>,
    tags: &Vec<String>,
) -> (r: Result<Vec<u8>, VaultError>)
    requires
        p@ == strip_slashes(item@.path),
    ensures
        r matches Ok(c) ==> reconciled_entry(
            item@,
            reference.0@,
            *fetched_i,
            tags.deep_view(),
            c@,
        ),
        entry_buildable(item@, reference.0@, *fetched_i, tags.deep_view()) ==> r is Ok,
        r matches Err(e) ==> (e is SourceExhausted || e is HashMismatch || e is Edit),
{
    let ghost act = tags.deep_view();
    let ref_got = reference.get(p);
    if let Some(ref_bytes) = ref_got {
        if let Some(reqhash) = &item.hash {
            let actual = crate::sources::compute_hash(&ref_bytes);
            if reqhash.eq(&actual) {
                proof {
                    assert(reuses_reference(item@, reference.0@));
                }
                match item.from_reference_unchecked(&ref_bytes, tags) {
                    Ok(c) => {
                        proof {
                            lemma_edited_from_ensures(item@, ref_bytes@, tags.deep_view(), c@);
                        }
                        return Ok(c);
                    },
                    Err(e) => {
                        proof {
                            if entry_buildable(item@, reference.0@, *fetched_i, act) {
                                assert(folder_lookup(reference.0@, strip_slashes(item@.path))
                                    == Some(ref_bytes@));
                                assert(edits_apply(item@, ref_bytes@, act));
                                assert(false);
                            }
                        }
                        return Err(e);
                    },
                }
            }
        }
    }
    proof {
        assert(!reuses_reference(item@, reference.0@));
    }
    let data = match fetched_i {
        Some(d) => d,
        None => {
            return Err(VaultError::SourceExhausted(p.clone()));
        },
    };
    match item.build(tags, data) {
        Ok(c) => {
            proof {
                lemma_edited_from_ensures(item@, data@, tags.deep_view(), c@);
            }
            Ok(c)
        },
        Err(e) => {
            proof {
                if entry_buildable(item@, reference.0@, *fetched_i, act) {
                    assert(edits_apply(item@, data@, act));
                    assert(false);
                }
            }
            Err(e)
        },
    }
}

/// Output bytes that satisfy the edit-pipeline postcondition are a correct
/// edited result.
proof fn lemma_edited_from_ensures(f: FileV, data: Seq<u8>, act: Seq<Seq<char>>, out: Seq<u8>)
    requires
        f.edits.len() == 0 ==> out == data,
        f.edits.len() > 0 ==> exists|t: Seq<char>|
            encode_utf8(t) == data && match apply_edits(f.edits, act, t) {
                Some(o) => out == encode_utf8(o),
                None => false,
            },
    ensures
        edited_ok(f, data, act, out),
{
    if f.edits.len() > 0 {
        let t = choose|t: Seq<char>|
            encode_utf8(t) == data && match apply_edits(f.edits, act, t) {
                Some(o) => out == encode_utf8(o),
                None => false,
            };
        match apply_edits(f.edits, act, t) {
            Some(o) => {
                assert(encode_utf8(t) == data && apply_edits(f.edits, act, t) == Some(o) && out
                    == encode_utf8(o));
            },
            None => {
                assert(false);
            },
        }
    }
}

/// Removing an entry by index and appending a new binding for the same path
/// leaves a unique-keyed tree that binds the path to the new content.
proof fn lemma_folder_remove_push(
    before: Seq<(String, Vec<u8>)>,
    removed: Seq<(String, Vec<u8>)>,
    after: Seq<(String, Vec<u8>)>,
    i: int,
    k: Seq<char>,
    v: Seq<u8>,
)
    requires
        folder_keys_unique(before),
        0 <= i < before.len(),
        before[i].0@ == k,
        removed == before.remove(i),
        after.len() > 0,
        after.drop_last() == removed,
        after.last().0@ == k,
        after.last().1@ == v,
    ensures
        folder_keys_unique(after),
        folder_lookup(after, k) == Some(v),
        forall|k2: Seq<char>| k2 != k ==> folder_lookup(after, k2) == folder_lookup(before, k2),
        forall|k2: Seq<char>| folder_lookup(after, k2) is Some <==> (folder_lookup(before, k2)
            is Some || k2 == k),
{
    before.remove_ensures(i);
    assert forall|x: int, y: int| 0 <= x < y < after.len() implies after[x].0@ != after[y].0@ by {
        if y < after.len() - 1 {
            if x < i && y < i {
                assert(removed[x] == before[x]);
                assert(removed[y] == before[y]);
            } else if x < i {
                assert(removed[x] == before[x]);
                assert(removed[y] == before[y + 1]);
            } else {
                assert(removed[x] == before[x + 1]);
                assert(removed[y] == before[y + 1]);
            }
        } else {
            if x < i {
                assert(removed[x] == before[x]);
            } else {
                assert(removed[x] == before[x + 1]);
            }
        }
    }
    lemma_lookup_all(before, removed, after, i, k, v);
}

/// The lookup consequences of the remove-and-append operation.
proof fn lemma_lookup_all(
    before: Seq<(String, Vec<u8>)>,
    removed: Seq<(String, Vec<u8>)>,
    after: Seq<(String, Vec<u8>)>,
    i: int,
    k: Seq<char>,
    v: Seq<u8>,
)
    requires
        folder_keys_unique(before),
        0 <= i < before.len(),
        before[i].0@ == k,
        removed == before.remove(i),
        after.len() > 0,
        after.drop_last() == removed,
        after.last().0@ == k,
        after.last().1@ == v,
    ensures
        folder_lookup(after, k) == Some(v),
        forall|k2: Seq<char>| k2 != k ==> folder_lookup(after, k2) == folder_lookup(before, k2),
        forall|k2: Seq<char>| folder_lookup(after, k2) is Some <==> (folder_lookup(before, k2)
            is Some || k2 == k),
{
    before.remove_ensures(i);
    assert forall|t: int| 0 <= t < removed.len() implies removed[t].0@ != k by {
        if t < i {
            assert(removed[t] == before[t]);
        } else {
            assert(removed[t] == before[t + 1]);
        }
    }
    lemma_lookup_last(removed, after, k, v);
    assert forall|k2: Seq<char>| k2 != k implies folder_lookup(after, k2) == folder_lookup(
        before,
        k2,
    ) by {
        lemma_lookup_skip_absent(removed, after, k2);
        lemma_lookup_remove(before, removed, i, k2);
    }
    assert forall|k2: Seq<char>| (folder_lookup(after, k2) is Some) implies (folder_lookup(
        before,
        k2,
    ) is Some || k2 == k) by {
        if k2 != k {
            lemma_lookup_skip_absent(removed, after, k2);
            lemma_lookup_remove(before, removed, i, k2);
        }
    }
}

/// Looking up the key of a freshly appended entry finds it, when no earlier
/// entry holds that key.
proof fn lemma_lookup_last(
    removed: Seq<(String, Vec<u8>)>,
    after: Seq<(String, Vec<u8>)>,
    k: Seq<char>,
    v: Seq<u8>,
)
    requires
        forall|t: int| 0 <= t < removed.len() ==> removed[t].0@ != k,
        after.len() > 0,
        after.drop_last() == removed,
        after.last().0@ == k,
        after.last().1@ == v,
    ensures
        folder_lookup(after, k) == Some(v),
    decreases after.len(),
{
    if after.len() == 1 {
    } else {
        assert(after[0] == removed[0]);
        assert(after.skip(1).drop_last() =~= removed.skip(1));
        assert(after.skip(1).last() == after.last());
        assert forall|t: int| 0 <= t < removed.skip(1).len() implies removed.skip(1)[t].0@
            != k by {
            assert(removed.skip(1)[t] == removed[t + 1]);
        }
        lemma_lookup_last(removed.skip(1), after.skip(1), k, v);
    }
}

/// A key different from an appended entry's key looks up the same before and
/// after the append.
proof fn lemma_lookup_skip_absent(
    removed: Seq<(String, Vec<u8>)>,
    after: Seq<(String, Vec<u8>)>,
    k2: Seq<char>,
)
    requires
        after.len() > 0,
        after.drop_last() == removed,
        after.last().0@ != k2,
    ensures
        folder_lookup(after, k2) == folder_lookup(removed, k2),
    decreases after.len(),
{
    if after.len() == 1 {
    } else {
        assert(after[0] == removed[0]);
        if after[0].0@ == k2 {
        } else {
            assert(after.skip(1).drop_last() =~= removed.skip(1));
            assert(after.skip(1).last() == after.last());
            lemma_lookup_skip_absent(removed.skip(1), after.skip(1), k2);
        }
    }
}

/// Removing the unique entry of key `k` leaves every other key's lookup
/// unchanged.
proof fn lemma_lookup_remove(
    before: Seq<(String, Vec<u8>)>,
    removed: Seq<(String, Vec<u8>)>,
    i: int,
    k2: Seq<char>,
)
    requires
        0 <= i < before.len(),
        removed == before.remove(i),
        before[i].0@ != k2,
    ensures
        folder_lookup(removed, k2) == folder_lookup(before, k2),
    decreases before.len(),
{
    before.remove_ensures(i);
    if i == 0 {
        assert(removed =~= before.skip(1));
    } else {
        assert(removed[0] == before[0]);
        if before[0].0@ == k2 {
        } else {
            assert(removed.skip(1) =~= before.skip(1).remove(i - 1));
            assert(before.skip(1)[i - 1] == before[i]);
            lemma_lookup_remove(before.skip(1), removed.skip(1), i - 1, k2);
        }
    }
}

/// Appending a fresh key binds it and leaves every other key's lookup
/// unchanged.
proof fn lemma_folder_push_fresh(
    before: Seq<(String, Vec<u8>)>,
    after: Seq<(String, Vec<u8>)>,
    k: Seq<char>,
    v: Seq<u8>,
)
    requires
        folder_keys_unique(before),
        forall|t: int| 0 <= t < before.len() ==> before[t].0@ != k,
        after.len() == before.len() + 1,
        after.drop_last() == before,
        after.last().0@ == k,
        after.last().1@ == v,
    ensures
        folder_keys_unique(after),
        folder_lookup(after, k) == Some(v),
        forall|k2: Seq<char>| k2 != k ==> folder_lookup(after, k2) == folder_lookup(before, k2),
        forall|k2: Seq<char>| folder_lookup(after, k2) is Some <==> (folder_lookup(before, k2)
            is Some || k2 == k),
{
    assert forall|x: int, y: int| 0 <= x < y < after.len() implies after[x].0@ != after[y].0@ by {
        if y < after.len() - 1 {
            assert(after[x] == before[x]);
            assert(after[y] == before[y]);
        } else {
            assert(after[x] == before[x]);
        }
    }
    lemma_lookup_last(before, after, k, v);
    assert forall|k2: Seq<char>| k2 != k implies folder_lookup(after, k2) == folder_lookup(
        before,
        k2,
    ) by {
        lemma_lookup_skip_absent(before, after, k2);
    }
    assert forall|k2: Seq<char>| (folder_lookup(after, k2) is Some) implies (folder_lookup(
        before,
        k2,
    ) is Some || k2 == k) by {
        if k2 != k {
            lemma_lookup_skip_absent(before, after, k2);
        }
    }
}

/// The first `/`-separated component of a path.
pub open spec fn first_component(p: Seq<char>) -> Seq<char> {
    p.subrange(0, first_index(p, '/') as int)
}

/// The distinct first components of the tree's paths, first occurrence
/// first.
pub open spec fn tracked_list(m: Seq<(String, Vec<u8>)>) -> Seq<Seq<char>>
    decreases m.len(),
{
    if m.len() == 0 {
        Seq::empty()
    } else {
        let rest = tracked_list(m.drop_last());
        if rest.contains(first_component(m.last().0@)) {
            rest
        } else {
            rest.push(first_component(m.last().0@))
        }
    }
}

/// The entries of a tree whose first path component the snapshot does not
/// own.
pub open spec fn untouched(
    existing: Seq<(String, Vec<u8>)>,
    tops: Seq<Seq<char>>,
) -> Seq<(String, Vec<u8>)>
    decreases existing.len(),
{
    if existing.len() == 0 {
        Seq::empty()
    } else {
        let rest = untouched(existing.drop_last(), tops);
        if tops.contains(first_component(existing.last().0@)) {
            rest
        } else {
            rest.push(existing.last())
        }
    }
}

/// The total content size of a tree, in bytes.
pub open spec fn total_bytes(m: Seq<(String, Vec<u8>)>) -> int
    decreases m.len(),
{
    if m.len() == 0 {
        0int
    } else {
        total_bytes(m.drop_last()) + m.last().1@.len()
    }
}

/// A prefix of a tree never holds more bytes than the whole tree.
proof fn lemma_total_bytes_prefix(m: Seq<(String, Vec<u8>)>, i: int)
    requires
        0 <= i <= m.len(),
    ensures
        total_bytes(m.subrange(0, i)) <= total_bytes(m),
        total_bytes(m.subrange(0, i)) >= 0,
    decreases m.len() - i,
{
    lemma_total_bytes_nonneg(m.subrange(0, i));
    if i == m.len() {
        assert(m.subrange(0, i) =~= m);
    } else {
        lemma_total_bytes_prefix(m, i + 1);
        assert(m.subrange(0, i + 1).drop_last() =~= m.subrange(0, i));
        assert(m.subrange(0, i + 1).last() == m[i]);
    }
}

/// A tree's total content size is never negative.
proof fn lemma_total_bytes_nonneg(m: Seq<(String, Vec<u8>)>)
    ensures
        total_bytes(m) >= 0,
    decreases m.len(),
{
    if m.len() > 0 {
        lemma_total_bytes_nonneg(m.drop_last());
    }
}

/// Compute the first component of a path.
fn first_component_exec(k: &String) -> (r: String)
    ensures
        r@ == first_component(k@),
{
    let cs = chars_vec(k.as_str());
    let mut j: usize = 0;
    while j < cs.len() && cs[j] != '/'
        invariant
            j <= cs.len(),
            forall|t: int| 0 <= t < j ==> cs@[t] != '/',
        decreases cs.len() - j,
    {
        j = j + 1;
    }
    proof {
        if j < cs.len() {
            lemma_first_index_at(cs@, '/', j as int);
        } else {
            lemma_first_index(cs@, '/');
            if cs@.contains('/') {
                let t = choose|t: int| 0 <= t < cs@.len() && cs@[t] == '/';
                assert(false);
            }
            assert(first_index(cs@, '/') == cs@.len());
        }
    }
    string_from_chars(&subvec(&cs, 0, j))
}

impl MemFolder {
    /// The distinct first path components of the snapshot: the top-level
    /// entries a selective write owns. An entry with an empty path has no
    /// components and is rejected.
    pub fn tracked_subpaths(&self) -> (r: Result<Vec<String>, VaultError>)
        ensures
            r is Ok <==> (forall|i: int| 0 <= i < self.0@.len() ==> self.0@[i].0@.len() > 0),
            r matches Ok(v) ==> v.deep_view() == tracked_list(self.0@),
            r matches Err(e) ==> e is Filesystem,
    {
        let mut out: Vec<String> = Vec::new();
        let mut i: usize = 0;
        proof {
            assert(self.0@.subrange(0, 0) =~= Seq::<(String, Vec<u8>)>::empty());
        }
        while i < self.0.len()
            invariant
                i <= self.0.len(),
                forall|t: int| 0 <= t < i ==> self.0@[t].0@.len() > 0,
                out.deep_view() == tracked_list(self.0@.subrange(0, i as int)),
            decreases self.0.len() - i,
        {
            let ghost prev = out.deep_view();
            let key = &self.0[i].0;
            if key.as_str().is_empty() {
                return Err(VaultError::Filesystem(key.clone()));
            }
            let fc = first_component_exec(key);
            proof {
                assert(self.0@.subrange(0, i + 1).drop_last() =~= self.0@.subrange(0, i as int));
                assert(self.0@.subrange(0, i + 1).last() == self.0@[i as int]);
            }
            if !crate::variables::contains_string(&out, &fc) {
                out.push(fc);
                proof {
                    assert(out.deep_view() =~~= prev.push(first_component(self.0@[i as int].0@)));
                }
            }
            proof {
                assert(out.deep_view() =~~= tracked_list(self.0@.subrange(0, i + 1)));
            }
            i = i + 1;
        }
        proof {
            assert(self.0@.subrange(0, i as int) =~= self.0@);
        }
        Ok(out)
    }

    /// The target tree after a full-replace write: exactly the snapshot, its
    /// paths made relative, whatever stood there before.
    pub fn write_to_folder(&self, existing: &MemFolder) -> (r: MemFolder)
        ensures
            r.0@.len() == self.0@.len(),
            forall|i: int|
                #![all_triggers]
                0 <= i < self.0@.len() ==> r.0@[i].0@ == strip_slashes(self.0@[i].0@)
                    && r.0@[i].1@ == self.0@[i].1@,
    {
        let mut out: Vec<(String, Vec<u8>)> = Vec::new();
        let mut i: usize = 0;
        while i < self.0.len()
            invariant
                i <= self.0.len(),
                out@.len() == i,
                forall|t: int|
                    #![all_triggers]
                    0 <= t < i ==> out@[t].0@ == strip_slashes(self.0@[t].0@) && out@[t].1@
                        == self.0@[t].1@,
            decreases self.0.len() - i,
        {
            let k = crate::sources::format_subpath(&self.0[i].0);
            let v = clone_bytes(&self.0[i].1);
            out.push((k, v));
            i = i + 1;
        }
        MemFolder(out)
    }

    /// The target tree after a selective write: the existing entries whose
    /// top-level component the snapshot does not own, followed by the
    /// snapshot's entries with their paths made relative.
    pub fn write_to_folder_skip_first(&self, existing: &MemFolder) -> (r: Result<
        MemFolder,
        VaultError,
    >)
        ensures
            r is Ok <==> (forall|i: int| 0 <= i < self.0@.len() ==> self.0@[i].0@.len() > 0),
            r matches Ok(m) ==> {
                let base = untouched(existing.0@, tracked_list(self.0@));
                &&& m.0@.len() == base.len() + self.0@.len()
                &&& forall|i: int|
                    #![all_triggers]
                    0 <= i < base.len() ==> m.0@[i].0@ == base[i].0@ && m.0@[i].1@ == base[i].1@
                &&& forall|i: int|
                    #![all_triggers]
                    0 <= i < self.0@.len() ==> m.0@[base.len() + i].0@ == strip_slashes(
                        self.0@[i].0@,
                    ) && m.0@[base.len() + i].1@ == self.0@[i].1@
            },
            r matches Err(e) ==> e is Filesystem,
    {
        let owned_tops = match self.tracked_subpaths() {
            Ok(t) => t,
            Err(e) => {
                return Err(e);
            },
        };
        let ghost trv = owned_tops.deep_view();
        let mut out: Vec<(String, Vec<u8>)> = Vec::new();
        let mut i: usize = 0;
        proof {
            assert(existing.0@.subrange(0, 0) =~= Seq::<(String, Vec<u8>)>::empty());
        }
        while i < existing.0.len()
            invariant
                i <= existing.0.len(),
                trv == tracked_list(self.0@),
                trv == owned_tops.deep_view(),
                out@.len() == untouched(existing.0@.subrange(0, i as int), trv).len(),
                forall|t: int|
                    #![all_triggers]
                    0 <= t < out@.len() ==> out@[t].0@ == untouched(
                        existing.0@.subrange(0, i as int),
                        trv,
                    )[t].0@ && out@[t].1@ == untouched(existing.0@.subrange(0, i as int), trv)[t].1@,
            decreases existing.0.len() - i,
        {
            let ghost prevseq = existing.0@.subrange(0, i as int);
            proof {
                assert(existing.0@.subrange(0, i + 1).drop_last() =~= prevseq);
                assert(existing.0@.subrange(0, i + 1).last() == existing.0@[i as int]);
            }
            let fc = first_component_exec(&existing.0[i].0);
            if !crate::variables::contains_string(&owned_tops, &fc) {
                let k = existing.0[i].0.clone();
                let v = clone_bytes(&existing.0[i].1);
                out.push((k, v));
            }
            i = i + 1;
        }
        proof {
            assert(existing.0@.subrange(0, i as int) =~= existing.0@);
        }
        let ghost base_len = out@.len();
        let mut j: usize = 0;
        while j < self.0.len()
            invariant
                j <= self.0.len(),
                out@.len() == base_len + j,
                base_len == untouched(existing.0@, tracked_list(self.0@)).len(),
                forall|t: int|
                    #![all_triggers]
                    0 <= t < base_len ==> out@[t].0@ == untouched(
                        existing.0@,
                        tracked_list(self.0@),
                    )[t].0@ && out@[t].1@ == untouched(existing.0@, tracked_list(self.0@))[t].1@,
                forall|t: int|
                    #![all_triggers]
                    0 <= t < j ==> out@[base_len + t].0@ == strip_slashes(self.0@[t].0@)
                        && out@[base_len + t].1@ == self.0@[t].1@,
            decreases self.0.len() - j,
        {
            let k = crate::sources::format_subpath(&self.0[j].0);
            let v = clone_bytes(&self.0[j].1);
            out.push((k, v));
            j = j + 1;
        }
        Ok(MemFolder(out))
    }

    /// The total content size of the snapshot, in bytes.
    pub fn size_in_bytes(&self) -> (r: usize)
        requires
            total_bytes(self.0@) <= usize::MAX,
        ensures
            r == total_bytes(self.0@),
    {
        let mut acc: usize = 0;
        let mut i: usize = 0;
        proof {
            assert(self.0@.subrange(0, 0) =~= Seq::<(String, Vec<u8>)>::empty());
        }
        while i < self.0.len()
            invariant
                i <= self.0.len(),
                total_bytes(self.0@) <= usize::MAX,
                acc == total_bytes(self.0@.subrange(0, i as int)),
            decreases self.0.len() - i,
        {
            proof {
                assert(self.0@.subrange(0, i + 1).drop_last() =~= self.0@.subrange(0, i as int));
                assert(self.0@.subrange(0, i + 1).last() == self.0@[i as int]);
                lemma_total_bytes_prefix(self.0@, i + 1);
            }
            acc = acc + self.0[i].1.len();
            i = i + 1;
        }
        proof {
            assert(self.0@.subrange(0, i as int) =~= self.0@);
        }
        acc
    }
}

} // verus!
