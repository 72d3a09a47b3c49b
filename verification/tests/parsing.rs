use lorevault::cli::{extract_components, is_repo};
use lorevault::sources::{format_subpath, is_url, is_url_or_ssh, parse_auto_source, parse_sftp, FileSource};

#[test]
fn test_repo_string() {
    assert!(is_repo(
        "https://github.com/some/repo.git#fb17a46eb92e8d779e57a10589e9012e9aa5f948:local/path.txt"
    ));
    assert_eq!(
        extract_components(
            "https://github.com/some/repo.git#fb17a46eb92e8d779e57a10589e9012e9aa5f948:local/path.txt"
        ),
        Some((
            "https://github.com/some/repo.git".to_string(),
            "fb17a46eb92e8d779e57a10589e9012e9aa5f948".to_string(),
            "local/path.txt".to_string()
        ))
    );
    assert!(!is_repo("https://github.com/some/repo.git:local/path.txt"));
    assert!(!is_repo("/home/somefile.toml"));
    assert_eq!(
        extract_components("internet://adress#hash#release:tag:/path.txt"),
        Some((
            "internet://adress#hash".to_string(),
            "release:tag".to_string(),
            "/path.txt".to_string()
        ))
    );
    assert_eq!(
        extract_components("r#t:p"),
        Some(("r".to_string(), "t".to_string(), "p".to_string()))
    );
}

#[test]
fn test_parse_auto_sources() {
    assert_eq!(
        parse_auto_source("repo#eaf33129cdee0501af69c04c8d4068c5bf6cbfe1:path").unwrap(),
        FileSource::Git {
            repo: "repo".to_string(),
            id: "eaf33129cdee0501af69c04c8d4068c5bf6cbfe1".to_string(),
            path: "path".to_string()
        }
    );
    assert_eq!(
        parse_auto_source("username@service.com:some/path").unwrap(),
        FileSource::Sftp {
            user: "username".to_string(),
            service: "service.com".to_string(),
            path: "some/path".to_string(),
            port: None
        }
    );
}

#[test]
fn url_detection() {
    assert!(is_url("http://example.com/a"));
    assert!(is_url("https://example.com/a"));
    assert!(!is_url("ftp://example.com/a"));
    assert!(is_url_or_ssh("git@host.com:repo.git"));
    assert!(!is_url_or_ssh("/local/path"));
}

#[test]
fn sftp_parse_errors() {
    assert!(parse_sftp("nouserhost").is_err());
    assert!(parse_sftp("a@b@c:d").is_err());
    assert!(parse_sftp("user@hostnopath").is_err());
    assert_eq!(
        parse_sftp("user@host:dir/file").unwrap(),
        (
            "user".to_string(),
            "host".to_string(),
            "dir/file".to_string()
        )
    );
}

#[test]
fn subpath_formatting() {
    assert_eq!(format_subpath(&"/a/b".to_string()), "a/b".to_string());
    assert_eq!(format_subpath(&"a/b".to_string()), "a/b".to_string());
    assert_eq!(format_subpath(&"//x".to_string()), "x".to_string());
}

#[test]
fn auto_source_rejects_bad_locator() {
    // Both marks are present, but the last `#` does not end before the last
    // `:`, so the locator cannot be split.
    assert!(parse_auto_source("http://a#b").is_err());
    assert!(lorevault::cli::source_from_string_simple("a:b#c").is_err());
    // A plain path parses as a local source.
    assert_eq!(
        parse_auto_source("/some/file").unwrap(),
        FileSource::Local { path: "/some/file".to_string() }
    );
}
