use tpu::cmd::render::{parse_var, render_str, run, MissingPolicy, Vars};

fn vars(pairs: &[(&str, &str)]) -> Vars {
    let mut v = Vars::new();
    for (key, value) in pairs {
        v.insert((*key).to_string(), (*value).to_string());
    }
    v
}

#[test]
fn simple_substitution() {
    let v = vars(&[("NAME", "world")]);
    let (out, r) = render_str("hello {{NAME}}!", &v, MissingPolicy::Error).unwrap();
    assert_eq!(out, "hello world!");
    assert_eq!(r.substitutions, 1);
}

#[test]
fn whitespace_in_braces_is_tolerated() {
    let v = vars(&[("X", "1")]);
    let (out, _) = render_str("{{ X }}-{{X}}", &v, MissingPolicy::Error).unwrap();
    assert_eq!(out, "1-1");
}

#[test]
fn missing_token_errors_by_default() {
    let v = vars(&[]);
    let err = render_str("{{X}}", &v, MissingPolicy::Error).unwrap_err();
    assert!(err.to_string().contains("undefined"));
}

#[test]
fn missing_token_empty_substitutes_empty() {
    let v = vars(&[]);
    let (out, _) = render_str("[{{X}}]", &v, MissingPolicy::Empty).unwrap();
    assert_eq!(out, "[]");
}

#[test]
fn missing_token_leave_keeps_placeholder() {
    let v = vars(&[]);
    let (out, _) = render_str("[{{X}}]", &v, MissingPolicy::Leave).unwrap();
    assert_eq!(out, "[{{X}}]");
}

#[test]
fn escape_keeps_literal_braces() {
    let v = vars(&[("X", "1")]);
    let (out, _) = render_str("\\{{X}}", &v, MissingPolicy::Error).unwrap();
    assert_eq!(out, "{{X}}");
}

#[test]
fn unterminated_brace_is_error() {
    let v = vars(&[]);
    assert!(render_str("oops {{X", &v, MissingPolicy::Empty).is_err());
}

#[test]
fn parse_var_basic() {
    assert_eq!(parse_var("FOO=bar").unwrap(), ("FOO".into(), "bar".into()));
    assert_eq!(parse_var("X=1=2").unwrap(), ("X".into(), "1=2".into()));
    assert!(parse_var("FOO").is_err());
    assert!(parse_var("=bar").is_err());
    assert!(parse_var("BAD KEY=v").is_err());
}

#[test]
fn the_report_counts_and_lists_tokens() {
    let v = vars(&[("A", "1")]);
    let (out, r) = render_str("{{A}}{{ B }}{{A}}{{C}}{{B}}", &v, MissingPolicy::Leave).unwrap();
    assert_eq!(out, "1{{ B }}1{{C}}{{B}}");
    assert_eq!(r.substitutions, 2);
    assert_eq!(r.missing, ["B", "C"]);
    assert_eq!(r.referenced, 3);
}

#[test]
fn missing_tokens_are_listed_in_the_error() {
    let v = vars(&[]);
    let err = render_str("{{B}}{{A}}{{B}}", &v, MissingPolicy::Error).unwrap_err();
    assert_eq!(err, "render: template references undefined tokens: B, A");
    let err = render_str("{{B}}", &v, MissingPolicy::Error).unwrap_err();
    assert_eq!(err, "render: template references undefined token: B");
}

#[test]
fn a_token_without_a_name_has_no_value() {
    let none = vars(&[]);
    let err = render_str("a {{  }}", &none, MissingPolicy::Error).unwrap_err();
    assert_eq!(err, "render: empty `{{}}` placeholder is not allowed");
    let (out, r) = render_str("a{{ }}b", &none, MissingPolicy::Empty).unwrap();
    assert_eq!(out, "ab");
    assert_eq!(r.missing, [""]);
    assert_eq!(render_str("a{{ }}b", &none, MissingPolicy::Leave).unwrap().0, "a{{ }}b");
    let named = vars(&[("", "x")]);
    assert_eq!(render_str("a{{}}b", &named, MissingPolicy::Error).unwrap().0, "axb");
}

#[test]
fn a_value_takes_the_place_of_an_earlier_one() {
    let v = vars(&[("A", "1"), ("B", "2"), ("A", "3")]);
    assert_eq!(v.get("A").unwrap(), "3");
    assert_eq!(v.get("B").unwrap(), "2");
    assert!(v.get("C").is_none());
}

#[test]
fn text_without_tokens_is_kept() {
    let (out, r) = render_str("{ é } \\{ x }}", &vars(&[]), MissingPolicy::Error).unwrap();
    assert_eq!(out, "{ é } \\{ x }}");
    assert_eq!(r.referenced, 0);
}

#[test]
fn values_that_cannot_be_read_are_told_apart() {
    assert_eq!(parse_var("FOO").unwrap_err(), "--var \"FOO\": expected KEY=VALUE form");
    assert_eq!(parse_var(" =x").unwrap_err(), "--var \" =x\": KEY is empty");
    assert_eq!(
        parse_var("a b=x").unwrap_err(),
        "--var \"a b=x\": KEY may only contain ASCII letters, digits, '_' or '-'"
    );
    assert_eq!(parse_var(" a_-9 = x").unwrap(), ("a_-9".to_string(), " x".to_string()));
}

#[test]
fn a_template_comes_from_one_place() {
    let v = vars(&[("A", "1")]);
    let render = |t: Option<&str>, f: Option<&[u8]>, i: Option<&str>| {
        run("out", Some(b"old\r\n"), t, f, i, &v, MissingPolicy::Error, false)
            .map(|(_, plan)| plan.bytes)
    };
    assert_eq!(render(Some("{{A}}\n"), None, None).unwrap(), b"1\r\n");
    assert_eq!(render(None, Some(b"x{{A}}\r\n"), None).unwrap(), b"x1\r\n");
    assert_eq!(render(None, Some(b"\xFF\xFEx\x00\r\x00\n\x00"), None).unwrap(), b"x\r\n");
    assert_eq!(render(None, None, Some("{{A}}")).unwrap(), b"1");
    assert_eq!(
        render(None, None, None).unwrap_err(),
        "render: must supply --template, --template-file, or pipe a template on stdin"
    );
    assert_eq!(
        render(Some("a"), None, Some("b")).unwrap_err(),
        "render: --template, --template-file, and stdin are mutually exclusive"
    );
}
