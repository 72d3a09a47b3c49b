use lorevault::variables::{get_var, resolve_variable_inter_refs, VariableCompletion};

#[test]
fn test_var() {
    let s = "the var is {{varname}}".to_string();
    assert_eq!(
        "the var is varvalue".to_string(),
        s.set_single_variable("varname", "varvalue")
    );
}

#[test]
fn test_var_inter_ref() {
    let vars_in = vec![
        ("simple".to_string(), "value".to_string()),
        ("complex".to_string(), "plainand{{simple}}".to_string()),
        (
            "more_complex".to_string(),
            "{{simple}} and {{complex}}".to_string(),
        ),
        (
            "even_more_complex".to_string(),
            "{{{{more_complex}}}}".to_string(),
        ),
    ];
    let vars_out = resolve_variable_inter_refs(&vars_in).unwrap();
    assert_eq!(
        get_var(&vars_out, &"simple".to_string()).unwrap(),
        "value".to_string()
    );
    assert_eq!(
        get_var(&vars_out, &"complex".to_string()).unwrap(),
        "plainandvalue".to_string()
    );
    assert_eq!(
        get_var(&vars_out, &"more_complex".to_string()).unwrap(),
        "value and plainandvalue".to_string()
    );
    assert_eq!(
        get_var(&vars_out, &"even_more_complex".to_string()).unwrap(),
        "{{value and plainandvalue}}".to_string()
    );
}

#[test]
fn cyclic_variables_fail() {
    let direct = vec![("a".to_string(), "x{{a}}y".to_string())];
    assert!(resolve_variable_inter_refs(&direct).is_err());

    let indirect = vec![
        ("a".to_string(), "{{b}}".to_string()),
        ("b".to_string(), "{{a}}".to_string()),
    ];
    assert!(resolve_variable_inter_refs(&indirect).is_err());
}

#[test]
fn undeclared_reference_fails() {
    let vars = vec![("a".to_string(), "{{missing}}".to_string())];
    assert!(resolve_variable_inter_refs(&vars).is_err());
}

#[test]
fn empty_map_resolves() {
    let vars: Vec<(String, String)> = Vec::new();
    assert!(resolve_variable_inter_refs(&vars).is_ok());
}

#[test]
fn scan_finds_nested_placeholder() {
    let s = "{{{{more_complex}}}}".to_string();
    let names = s.required_variables();
    assert_eq!(names, vec!["more_complex".to_string()]);
}

#[test]
fn missing_variable_is_reported() {
    let s = "needs {{gone}} here".to_string();
    let map: Vec<(String, String)> = Vec::new();
    let err = s.set_variables(&map).unwrap_err();
    assert_eq!(err.detail(), "gone".to_string());
}

#[test]
fn substitution_is_literal() {
    let s = "a {{k}} b {{k}} c".to_string();
    assert_eq!(
        s.set_single_variable("k", "V"),
        "a V b V c".to_string()
    );
    // A placeholder for a different name stays put.
    assert_eq!(
        "keep {{other}}".to_string().set_single_variable("k", "V"),
        "keep {{other}}".to_string()
    );
}
