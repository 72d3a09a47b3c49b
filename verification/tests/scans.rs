use lorevault::directories::{parse_auto_dir_source, DirSource, Directory};
use lorevault::errors::VaultError;
use lorevault::sources::FileSource;

fn dir(path: &str, count: Option<usize>, ignore_hidden: bool) -> Directory {
    Directory {
        count,
        path: path.to_string(),
        tags: None,
        sources: vec![DirSource::Local {
            path: "/src/tree".to_string(),
        }],
        ignore_hidden,
    }
}

#[test]
fn directory_expands_listing() {
    let d = dir("target", None, false);
    let src = DirSource::Local {
        path: "/src/tree".to_string(),
    };
    let listing = vec!["file1.txt".to_string(), "sub/file2.txt".to_string()];
    let files = d.get_all_files(&src, &listing).unwrap();
    assert_eq!(files.len(), 2);
    assert_eq!(files[0].path, "target/file1.txt".to_string());
    assert_eq!(files[1].path, "target/sub/file2.txt".to_string());
    assert!(matches!(
        &files[0].sources[0],
        FileSource::Local { path } if path == "/src/tree/file1.txt"
    ));
    assert!(files[0].hash.is_none());
    assert!(files[0].edits.is_empty());
}

#[test]
fn directory_count_check() {
    let d = dir("target", Some(1), false);
    let src = DirSource::Local {
        path: "/src/tree".to_string(),
    };
    let listing = vec!["a".to_string(), "b".to_string()];
    assert!(matches!(
        d.get_all_files(&src, &listing).unwrap_err(),
        VaultError::Parse(_)
    ));
}

#[test]
fn directory_skips_dotfiles() {
    let d = dir("target", None, true);
    let src = DirSource::Local {
        path: "/src/tree".to_string(),
    };
    let listing = vec![".hidden".to_string(), "shown".to_string()];
    let files = d.get_all_files(&src, &listing).unwrap();
    assert_eq!(files.len(), 1);
    assert_eq!(files[0].path, "target/shown".to_string());
    // A listing that is all dotfiles leaves nothing, which is an error.
    let only_hidden = vec![".a".to_string()];
    assert!(matches!(
        d.get_all_files(&src, &only_hidden).unwrap_err(),
        VaultError::SourceExhausted(_)
    ));
}

#[test]
fn inactive_directory_contributes_nothing() {
    let d = Directory {
        count: None,
        path: "t".to_string(),
        tags: Some(vec!["off".to_string()]),
        sources: Vec::new(),
        ignore_hidden: false,
    };
    let src = DirSource::Local {
        path: "/x".to_string(),
    };
    let files = d
        .get_active(&Vec::new(), &src, &vec!["a".to_string()])
        .unwrap();
    assert!(files.is_empty());
}

#[test]
fn auto_dir_source_parses() {
    assert_eq!(
        parse_auto_dir_source("repo#id:folder").unwrap(),
        DirSource::Git {
            repo: "repo".to_string(),
            id: "id".to_string(),
            path: "folder".to_string()
        }
    );
    assert_eq!(
        parse_auto_dir_source("/plain/folder").unwrap(),
        DirSource::Local {
            path: "/plain/folder".to_string()
        }
    );
}

#[test]
fn single_file_source_joins_subpath() {
    let src = DirSource::Git {
        repo: "r".to_string(),
        id: "i".to_string(),
        path: "base".to_string(),
    };
    let s = src.get_single_file_source(&"/sub/file".to_string()).unwrap();
    assert!(matches!(
        s,
        FileSource::Git { repo, id, path }
            if repo == "r" && id == "i" && path == "base/sub/file"
    ));
}
