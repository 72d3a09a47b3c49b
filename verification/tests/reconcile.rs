use lorevault::config::{check_hash_pin, source_bytes_valid, File};
use lorevault::edits::{EditPosition, FileEdit};
use lorevault::errors::VaultError;
use lorevault::memfolder::{contains_parent_dir, MemFolder};
use lorevault::sources::{compute_hash, FileSource};

fn edit_replace(from: &str, to: &str, required: bool) -> FileEdit {
    FileEdit::Replace {
        from: from.to_string(),
        to: to.to_string(),
        required,
        tags: Vec::new(),
        ignore_variables: false,
    }
}

#[test]
fn replace_required_missing_fails() {
    let e = edit_replace("A", "B", true);
    let err = e.apply("no match here").unwrap_err();
    assert!(matches!(err, VaultError::Edit(_)));
    // The same replacement, not required, passes the text through.
    let e2 = edit_replace("A", "B", false);
    assert_eq!(e2.apply("no match here").unwrap(), "no match here".to_string());
}

#[test]
fn replace_rewrites_every_occurrence() {
    let e = edit_replace("aa", "b", true);
    assert_eq!(e.apply("aaaa x aa").unwrap(), "bb x b".to_string());
}

#[test]
fn delete_removes_exact_line_range() {
    let e = FileEdit::Delete {
        start: 2,
        end: 3,
        tags: Vec::new(),
    };
    assert_eq!(e.apply("l1\nl2\nl3\nl4").unwrap(), "l1\nl4".to_string());
    // Out-of-range and zero-based requests fail.
    assert!(FileEdit::Delete { start: 0, end: 1, tags: Vec::new() }.apply("a\nb").is_err());
    assert!(FileEdit::Delete { start: 3, end: 2, tags: Vec::new() }.apply("a\nb\nc").is_err());
    assert!(FileEdit::Delete { start: 1, end: 5, tags: Vec::new() }.apply("a\nb").is_err());
}

#[test]
fn delete_drops_a_trailing_newline() {
    // Lines are cut at newlines and rejoined with single newlines, so a
    // trailing newline does not survive an edit of the line structure.
    let e = FileEdit::Delete {
        start: 1,
        end: 1,
        tags: Vec::new(),
    };
    assert_eq!(e.apply("a\nb\n").unwrap(), "b".to_string());
}

#[test]
fn insert_positions() {
    let append = FileEdit::Insert {
        content: "!".to_string(),
        position: EditPosition::Append,
        tags: Vec::new(),
        ignore_variables: false,
    };
    assert_eq!(append.apply("ab").unwrap(), "ab!".to_string());
    let prepend = FileEdit::Insert {
        content: "# ".to_string(),
        position: EditPosition::Prepend,
        tags: Vec::new(),
        ignore_variables: false,
    };
    assert_eq!(prepend.apply("ab").unwrap(), "# ab".to_string());
    let at_line = FileEdit::Insert {
        content: "mid".to_string(),
        position: EditPosition::Line(1),
        tags: Vec::new(),
        ignore_variables: false,
    };
    assert_eq!(at_line.apply("a\nb").unwrap(), "a\nmid\nb".to_string());
    let too_far = FileEdit::Insert {
        content: "x".to_string(),
        position: EditPosition::Line(5),
        tags: Vec::new(),
        ignore_variables: false,
    };
    assert!(too_far.apply("a\nb").is_err());
}

#[test]
fn inactive_edits_are_skipped() {
    let gated = FileEdit::Replace {
        from: "a".to_string(),
        to: "b".to_string(),
        required: true,
        tags: vec!["off".to_string()],
        ignore_variables: false,
    };
    let f = File {
        path: "t.txt".to_string(),
        tags: None,
        hash: None,
        sources: Vec::new(),
        edits: vec![gated],
    };
    // Without the tag the gated edit does not run.
    let out = f
        .from_reference_unchecked(&b"zzz".to_vec(), &Vec::new())
        .unwrap();
    assert_eq!(out, b"zzz".to_vec());
    // With the tag active it runs and fails on the missing pattern.
    assert!(f
        .from_reference_unchecked(&b"zzz".to_vec(), &vec!["off".to_string()])
        .is_err());
}

#[test]
fn include_edits_bakes_in_activation() {
    let gated = FileEdit::Replace {
        from: "a".to_string(),
        to: "b".to_string(),
        required: false,
        tags: vec!["on".to_string()],
        ignore_variables: false,
    };
    let kept = lorevault::edits::include_edits(&vec![gated.clone()], &vec!["on".to_string()]);
    assert_eq!(kept.len(), 1);
    assert_eq!(kept[0].get_tags().len(), 0);
    let dropped = lorevault::edits::include_edits(&vec![gated], &Vec::new());
    assert_eq!(dropped.len(), 0);
}

#[test]
fn hash_is_stable_and_not_identity() {
    let bytes = b"hello".to_vec();
    let h1 = compute_hash(&bytes);
    let h2 = compute_hash(&bytes);
    assert_eq!(h1, h2);
    assert_eq!(h1.len(), 64);
    // Known SHA3-256 digests pin the wrapper to the real function.
    assert_eq!(
        compute_hash(&Vec::new()),
        "A7FFC6F8BF1ED76651C14756A061D662F580FF4DE43B49FA82D80A4B80F8434A".to_string()
    );
    assert_eq!(
        compute_hash(&b"abc".to_vec()),
        "3A985DA74FE225B2045C172D6BD390BD855F086E3E9D525B46BFE24511431532".to_string()
    );
}

#[test]
fn hash_pins_gate_bytes() {
    let bytes = b"content".to_vec();
    let h = compute_hash(&bytes);
    assert!(source_bytes_valid(&Some(h.clone()), &bytes));
    assert!(!source_bytes_valid(&Some(h.clone()), &b"other".to_vec()));
    assert!(source_bytes_valid(&None, &b"anything".to_vec()));
    assert!(check_hash_pin(&Some(h), &bytes).is_ok());
    assert!(matches!(
        check_hash_pin(&Some("00".to_string()), &bytes).unwrap_err(),
        VaultError::HashMismatch(_)
    ));
}

#[test]
fn reconciler_reuses_matching_reference_without_fetch() {
    let bytes = b"pinned content".to_vec();
    let h = compute_hash(&bytes);
    let file = File {
        path: "a.txt".to_string(),
        tags: None,
        hash: Some(h),
        sources: vec![FileSource::Text {
            content: "never fetched".to_string(),
            ignore_variables: true,
        }],
        edits: Vec::new(),
    };
    let reference = MemFolder(vec![("a.txt".to_string(), bytes.clone())]);
    // No fetched bytes are supplied: the reference must carry the build.
    let out = MemFolder::load_first_valid_with_ref(
        &vec![file],
        &Vec::new(),
        &reference,
        &vec![None],
    )
    .unwrap();
    assert_eq!(out.get(&"a.txt".to_string()).unwrap(), bytes);
}

#[test]
fn reconciler_fetches_on_mismatch_and_checks_pin() {
    let good = b"fresh".to_vec();
    let h = compute_hash(&good);
    let file = File {
        path: "a.txt".to_string(),
        tags: None,
        hash: Some(h.clone()),
        sources: Vec::new(),
        edits: Vec::new(),
    };
    let reference = MemFolder(vec![("a.txt".to_string(), b"stale".to_vec())]);
    // The stale reference forces the fetched bytes to be used.
    let out = MemFolder::load_first_valid_with_ref(
        &vec![file.clone()],
        &Vec::new(),
        &reference,
        &vec![Some(good.clone())],
    )
    .unwrap();
    assert_eq!(out.get(&"a.txt".to_string()).unwrap(), good);
    // Fetched bytes that break the pin fail the build.
    let err = MemFolder::load_first_valid_with_ref(
        &vec![file.clone()],
        &Vec::new(),
        &reference,
        &vec![Some(b"wrong".to_vec())],
    )
    .unwrap_err();
    assert!(matches!(err, VaultError::HashMismatch(_)));
    // No fetched bytes at all exhausts the sources.
    let err = MemFolder::load_first_valid_with_ref(
        &vec![file],
        &Vec::new(),
        &reference,
        &vec![None],
    )
    .unwrap_err();
    assert!(matches!(err, VaultError::SourceExhausted(_)));
}

#[test]
fn reconciler_rejects_escaping_paths() {
    let file = File {
        path: "../escape.txt".to_string(),
        tags: None,
        hash: None,
        sources: Vec::new(),
        edits: Vec::new(),
    };
    let err = MemFolder::load_first_valid_with_ref(
        &vec![file],
        &Vec::new(),
        &MemFolder::empty(),
        &vec![Some(b"x".to_vec())],
    )
    .unwrap_err();
    assert!(matches!(err, VaultError::Filesystem(_)));
    assert!(contains_parent_dir(&"a/../b".to_string()));
    assert!(!contains_parent_dir(&"a/..b/c".to_string()));
}

#[test]
fn full_replace_drops_stale_entries() {
    let snapshot = MemFolder(vec![("kept.txt".to_string(), b"new".to_vec())]);
    let existing = MemFolder(vec![
        ("stale.txt".to_string(), b"old".to_vec()),
        ("kept.txt".to_string(), b"old".to_vec()),
    ]);
    let result = snapshot.write_to_folder(&existing);
    assert_eq!(result.0.len(), 1);
    assert_eq!(result.0[0].0, "kept.txt".to_string());
    assert_eq!(result.0[0].1, b"new".to_vec());
}

#[test]
fn skip_first_level_preserves_unrelated_entries() {
    let snapshot = MemFolder(vec![("app/conf.txt".to_string(), b"new".to_vec())]);
    let existing = MemFolder(vec![
        ("stale.txt".to_string(), b"old".to_vec()),
        ("app/old.txt".to_string(), b"old".to_vec()),
    ]);
    let result = snapshot.write_to_folder_skip_first(&existing).unwrap();
    // The sibling top-level entry survives; everything under the snapshot's
    // own top-level name is replaced.
    assert_eq!(result.0.len(), 2);
    assert_eq!(result.0[0].0, "stale.txt".to_string());
    assert_eq!(result.0[0].1, b"old".to_vec());
    assert_eq!(result.0[1].0, "app/conf.txt".to_string());
    assert_eq!(result.0[1].1, b"new".to_vec());
}

#[test]
fn tracked_subpaths_lists_top_levels() {
    let snapshot = MemFolder(vec![
        ("a/b.txt".to_string(), Vec::new()),
        ("a/c.txt".to_string(), Vec::new()),
        ("d".to_string(), Vec::new()),
    ]);
    assert_eq!(
        snapshot.tracked_subpaths().unwrap(),
        vec!["a".to_string(), "d".to_string()]
    );
    let bad = MemFolder(vec![("".to_string(), Vec::new())]);
    assert!(bad.tracked_subpaths().is_err());
}

#[test]
fn size_sums_content_bytes() {
    let snapshot = MemFolder(vec![
        ("a".to_string(), b"12345".to_vec()),
        ("b".to_string(), b"678".to_vec()),
    ]);
    assert_eq!(snapshot.size_in_bytes(), 8);
    assert_eq!(MemFolder::empty().size_in_bytes(), 0);
}

#[test]
fn build_applies_edits_after_pin_check() {
    let data = b"hello world".to_vec();
    let h = compute_hash(&data);
    let f = File {
        path: "t.txt".to_string(),
        tags: None,
        hash: Some(h),
        sources: Vec::new(),
        edits: vec![edit_replace("world", "there", true)],
    };
    assert_eq!(
        f.build(&Vec::new(), &data).unwrap(),
        b"hello there".to_vec()
    );
    assert!(f.build(&Vec::new(), &b"tampered".to_vec()).is_err());
}

#[test]
fn non_utf8_content_with_edits_fails() {
    let f = File {
        path: "t.bin".to_string(),
        tags: None,
        hash: None,
        sources: Vec::new(),
        edits: vec![edit_replace("a", "b", false)],
    };
    let err = f
        .from_reference_unchecked(&vec![0xffu8, 0xfe], &Vec::new())
        .unwrap_err();
    assert!(matches!(err, VaultError::Edit(_)));
}

#[test]
fn reconciler_reuses_reference_and_reapplies_edits() {
    let bytes = b"hello A".to_vec();
    let h = compute_hash(&bytes);
    let file = File {
        path: "a.txt".to_string(),
        tags: None,
        hash: Some(h),
        sources: vec![FileSource::Text {
            content: "never fetched".to_string(),
            ignore_variables: true,
        }],
        edits: vec![edit_replace("A", "B", true)],
    };
    let reference = MemFolder(vec![("a.txt".to_string(), bytes)]);
    // The pin matches the reference bytes and the edit applies to them, so
    // the build succeeds without any fetched bytes and re-runs the edit.
    let out = MemFolder::load_first_valid_with_ref(
        &vec![file],
        &Vec::new(),
        &reference,
        &vec![None],
    )
    .unwrap();
    assert_eq!(out.get(&"a.txt".to_string()).unwrap(), b"hello B".to_vec());
}
