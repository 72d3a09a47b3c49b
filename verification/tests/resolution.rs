use lorevault::config::{Config, File, Inclusion};
use lorevault::errors::VaultError;
use lorevault::guard::recursion_guard;
use lorevault::sources::FileSource;
use lorevault::tags::validate_tags;

fn text_file(path: &str, tags: Option<Vec<&str>>, content: &str) -> File {
    File {
        path: path.to_string(),
        tags: tags.map(|v| v.into_iter().map(|s| s.to_string()).collect()),
        hash: None,
        sources: vec![FileSource::Text {
            content: content.to_string(),
            ignore_variables: false,
        }],
        edits: Vec::new(),
    }
}

fn plain_config(content: Vec<File>, default_tags: Vec<&str>) -> Config {
    Config {
        variables_set: true,
        variables: Vec::new(),
        content,
        inclusions: Vec::new(),
        directories: Vec::new(),
        default_tags: default_tags.into_iter().map(|s| s.to_string()).collect(),
    }
}

#[test]
fn conflicting_tag_request_fails() {
    let conf = plain_config(vec![text_file("a.txt", Some(vec!["t"]), "x")], vec![]);
    let err = conf
        .get_active(
            &vec!["t".to_string(), "!t".to_string()],
            &Vec::new(),
            &Vec::new(),
        )
        .unwrap_err();
    assert!(matches!(err, VaultError::Tag(_)));
}

#[test]
fn undeclared_tag_fails() {
    let conf = plain_config(vec![text_file("a.txt", None, "x")], vec![]);
    let err = conf
        .get_active(&vec!["ghost".to_string()], &Vec::new(), &Vec::new())
        .unwrap_err();
    assert!(matches!(err, VaultError::Tag(_)));
}

#[test]
fn unresolved_config_refuses_queries() {
    let mut conf = plain_config(vec![text_file("a.txt", None, "x")], vec![]);
    conf.variables_set = false;
    let err = conf
        .get_active(&Vec::new(), &Vec::new(), &Vec::new())
        .unwrap_err();
    assert!(matches!(err, VaultError::Variable(_)));
}

#[test]
fn tagged_file_shadows_untagged_on_same_path() {
    let conf = plain_config(
        vec![
            text_file("conf.txt", None, "plain"),
            text_file("conf.txt", Some(vec!["work"]), "work flavour"),
        ],
        vec![],
    );
    // Without the tag only the untagged candidate is active.
    let plain = conf
        .get_active(&Vec::new(), &Vec::new(), &Vec::new())
        .unwrap();
    assert_eq!(plain.len(), 1);
    assert!(matches!(&plain[0].sources[0], FileSource::Text { content, .. } if content == "plain"));
    // With the tag, the tagged candidate suppresses the untagged one.
    let tagged = conf
        .get_active(&vec!["work".to_string()], &Vec::new(), &Vec::new())
        .unwrap();
    assert_eq!(tagged.len(), 1);
    assert!(
        matches!(&tagged[0].sources[0], FileSource::Text { content, .. } if content == "work flavour")
    );
}

#[test]
fn colliding_paths_fail() {
    let conf = plain_config(
        vec![
            text_file("same.txt", None, "one"),
            text_file("same.txt", None, "two"),
        ],
        vec![],
    );
    let err = conf
        .get_active(&Vec::new(), &Vec::new(), &Vec::new())
        .unwrap_err();
    assert!(matches!(err, VaultError::PathCollision(_)));
}

#[test]
fn active_paths_are_distinct() {
    let conf = plain_config(
        vec![
            text_file("a.txt", None, "a"),
            text_file("b.txt", None, "b"),
            text_file("c.txt", Some(vec!["t"]), "c"),
        ],
        vec!["t"],
    );
    let files = conf
        .get_active(&Vec::new(), &Vec::new(), &Vec::new())
        .unwrap();
    assert_eq!(files.len(), 3);
    for i in 0..files.len() {
        for j in 0..files.len() {
            if i != j {
                assert_ne!(files[i].get_path(), files[j].get_path());
            }
        }
    }
}

#[test]
fn default_tags_activate() {
    let conf = plain_config(
        vec![text_file("only.txt", Some(vec!["on"]), "x")],
        vec!["on"],
    );
    let files = conf
        .get_active(&Vec::new(), &Vec::new(), &Vec::new())
        .unwrap();
    assert_eq!(files.len(), 1);
    // Negating the default removes the file.
    let none = conf
        .get_active(&vec!["!on".to_string()], &Vec::new(), &Vec::new())
        .unwrap();
    assert_eq!(none.len(), 0);
}

#[test]
fn empty_inclusion_is_rejected() {
    let inc = Inclusion {
        config: "child.toml".to_string(),
        tags: None,
        with_tags: Vec::new(),
        subfolder: "sub".to_string(),
        hash: None,
    };
    let err = inc.get_files(&Vec::new()).unwrap_err();
    assert!(matches!(err, VaultError::Parse(_)));
}

#[test]
fn inclusion_rewrites_children() {
    let inc = Inclusion {
        config: "child.toml".to_string(),
        tags: Some(vec!["inc".to_string()]),
        with_tags: Vec::new(),
        subfolder: "sub".to_string(),
        hash: None,
    };
    let child = vec![text_file("/inner.txt", Some(vec!["old"]), "x")];
    let files = inc.get_files(&child).unwrap();
    assert_eq!(files.len(), 1);
    assert_eq!(files[0].path, "sub/inner.txt".to_string());
    assert_eq!(files[0].tags, Some(vec!["inc".to_string()]));
}

#[test]
fn tag_universe_lists_every_declared_tag() {
    let mut f = text_file("a.txt", Some(vec!["ft"]), "x");
    f.edits = vec![lorevault::edits::FileEdit::Delete {
        start: 1,
        end: 1,
        tags: vec!["et".to_string()],
    }];
    let conf = Config {
        variables_set: true,
        variables: Vec::new(),
        content: vec![f],
        inclusions: vec![Inclusion {
            config: "c.toml".to_string(),
            tags: Some(vec!["it".to_string()]),
            with_tags: Vec::new(),
            subfolder: String::new(),
            hash: None,
        }],
        directories: vec![lorevault::directories::Directory {
            count: None,
            path: "d".to_string(),
            tags: Some(vec!["dt".to_string()]),
            sources: Vec::new(),
            ignore_hidden: false,
        }],
        default_tags: Vec::new(),
    };
    let tags = conf.tags();
    assert_eq!(
        tags,
        vec![
            "ft".to_string(),
            "et".to_string(),
            "it".to_string(),
            "dt".to_string()
        ]
    );
}

#[test]
fn tag_names_are_validated() {
    assert!(validate_tags(&vec!["fine".to_string()]).is_ok());
    assert!(validate_tags(&vec!["!bad".to_string()]).is_err());
    assert!(validate_tags(&vec!["Default".to_string()]).is_err());
    assert!(validate_tags(&vec!["  DEFAULT ".to_string()]).is_err());
    assert!(validate_tags(&vec!["defaults".to_string()]).is_ok());
}

#[test]
fn guard_rejects_cycle() {
    let graph = vec![("root.toml".to_string(), vec!["root.toml".to_string()])];
    let err = recursion_guard(&"root.toml".to_string(), &graph, 10).unwrap_err();
    assert!(matches!(err, VaultError::RecursionLimit(_)));
}

#[test]
fn guard_rejects_two_step_cycle() {
    let graph = vec![
        ("a.toml".to_string(), vec!["b.toml".to_string()]),
        ("b.toml".to_string(), vec!["a.toml".to_string()]),
    ];
    assert!(recursion_guard(&"a.toml".to_string(), &graph, 10).is_err());
}

#[test]
fn guard_accepts_shallow_nesting() {
    let graph = vec![
        ("a.toml".to_string(), vec!["b.toml".to_string()]),
        ("b.toml".to_string(), vec!["c.toml".to_string()]),
        ("c.toml".to_string(), Vec::new()),
    ];
    assert!(recursion_guard(&"a.toml".to_string(), &graph, 10).is_ok());
}

#[test]
fn guard_depth_bound_is_tight() {
    let graph = vec![
        ("a".to_string(), vec!["b".to_string()]),
        ("b".to_string(), vec!["c".to_string()]),
        ("c".to_string(), Vec::new()),
    ];
    // The frontier empties at depth 3.
    assert!(recursion_guard(&"a".to_string(), &graph, 3).is_ok());
    assert!(recursion_guard(&"a".to_string(), &graph, 2).is_err());
}

#[test]
fn set_variables_resolves_placeholders() {
    let conf = Config {
        variables_set: false,
        variables: vec![("name".to_string(), "world".to_string())],
        content: vec![
            text_file("{{name}}.txt", None, "hello {{name}}"),
            text_file("{{SELF_NAME}}", None, "self"),
        ],
        inclusions: Vec::new(),
        directories: Vec::new(),
        default_tags: Vec::new(),
    };
    let source = FileSource::Git {
        repo: "https://host/repo.git".to_string(),
        id: "abc123".to_string(),
        path: "dir/conf.toml".to_string(),
    };
    let resolved = conf.set_variables(&source, &None).unwrap();
    assert!(resolved.variables_set);
    assert_eq!(resolved.content[0].path, "world.txt".to_string());
    assert!(matches!(
        &resolved.content[0].sources[0],
        FileSource::Text { content, .. } if content == "hello world"
    ));
    assert_eq!(resolved.content[1].path, "conf.toml".to_string());
}

#[test]
fn set_variables_rejects_protected_names() {
    let conf = Config {
        variables_set: false,
        variables: vec![("SELF_X".to_string(), "v".to_string())],
        content: Vec::new(),
        inclusions: Vec::new(),
        directories: Vec::new(),
        default_tags: Vec::new(),
    };
    let source = FileSource::Local {
        path: "/tmp/conf.toml".to_string(),
    };
    let err = conf
        .set_variables(&source, &Some("/tmp".to_string()))
        .unwrap_err();
    assert!(matches!(err, VaultError::Variable(_)));
}

#[test]
fn set_variables_twice_fails() {
    let conf = plain_config(Vec::new(), Vec::new());
    let source = FileSource::Local {
        path: "/tmp/conf.toml".to_string(),
    };
    assert!(conf.set_variables(&source, &Some("/tmp".to_string())).is_err());
}

#[test]
fn origin_order_is_content_then_directories_then_inclusions() {
    let conf = plain_config(vec![text_file("c.txt", None, "1")], vec![]);
    let dir_files = vec![text_file("d.txt", None, "2")];
    let included = vec![text_file("i.txt", None, "3")];
    let files = conf
        .get_active(&Vec::new(), &included, &dir_files)
        .unwrap();
    let paths: Vec<String> = files.iter().map(|f| f.path.clone()).collect();
    assert_eq!(
        paths,
        vec!["c.txt".to_string(), "d.txt".to_string(), "i.txt".to_string()]
    );
}

#[test]
fn collision_error_names_the_path() {
    let conf = plain_config(
        vec![
            text_file("same.txt", None, "1"),
            text_file("same.txt", None, "2"),
        ],
        vec![],
    );
    let err = conf
        .get_active(&Vec::new(), &Vec::new(), &Vec::new())
        .unwrap_err();
    assert_eq!(err, VaultError::PathCollision("same.txt".to_string()));
}

#[test]
fn tag_errors_name_the_tag() {
    let conf = plain_config(vec![text_file("a.txt", Some(vec!["t"]), "x")], vec![]);
    let conflict = conf
        .get_active(
            &vec!["t".to_string(), "!t".to_string()],
            &Vec::new(),
            &Vec::new(),
        )
        .unwrap_err();
    assert_eq!(conflict, VaultError::Tag("t".to_string()));
    let undeclared = conf
        .get_active(&vec!["ghost".to_string()], &Vec::new(), &Vec::new())
        .unwrap_err();
    assert_eq!(undeclared, VaultError::Tag("ghost".to_string()));
}

#[test]
fn missing_variable_error_names_the_key() {
    let conf = Config {
        variables_set: false,
        variables: Vec::new(),
        content: vec![text_file("{{x}}.txt", None, "y")],
        inclusions: Vec::new(),
        directories: Vec::new(),
        default_tags: Vec::new(),
    };
    let source = FileSource::Local {
        path: "/tmp/conf.toml".to_string(),
    };
    let err = conf
        .set_variables(&source, &Some("/tmp".to_string()))
        .unwrap_err();
    assert_eq!(err, VaultError::Variable("x".to_string()));
}
