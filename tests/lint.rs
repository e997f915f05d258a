use waveforge::dsl::{all, check_r7, DslLintError, LintConfig};
use waveforge::json::Json;
use waveforge::lint::{lint_r7, lint_r8, lint_r9, LintReport};

fn s(t: &str) -> Json {
    Json::Str(t.to_string())
}

fn obj(es: Vec<(&str, Json)>) -> Json {
    Json::Obj(es.into_iter().map(|(k, v)| (k.to_string(), v)).collect())
}

fn doc(nodes: Vec<Json>, edges: Option<Vec<Json>>, passports: Option<Json>) -> Json {
    let mut g = vec![("nodes", Json::Arr(nodes))];
    if let Some(e) = edges {
        g.push(("edges", Json::Arr(e)));
    }
    if let Some(p) = passports {
        g.push(("passports", p));
    }
    obj(vec![("graph", obj(g))])
}

fn node(id: &str, op: &str, params: Vec<(&str, Json)>) -> Json {
    obj(vec![("id", s(id)), ("op", s(op)), ("params", obj(params))])
}

fn codes(r: &LintReport) -> Vec<String> {
    r.issues.iter().map(|i| i.code.clone()).collect()
}

#[test]
fn r7_ok_reflect() {
    let src = r#"
            x = W(bank="stft", edge="reflect")(x)
        "#;
    assert!(all(src).is_ok());
}

#[test]
fn r7_ok_multiline_reflect() {
    let src = r#"
            x = W(
                bank="stft",
                edge="reflect"
            )(x)
        "#;
    assert!(all(src).is_ok());
}

#[test]
fn r7_fail_zero() {
    let src = r#"
            x = W(bank="stft", edge="zero")(x)
        "#;
    assert!(all(src).is_err());
}

#[test]
fn r8_ok_with_aa() {
    let src = r#"
            x = D(λ=2, aa="sinc")(x)
        "#;
    assert!(all(src).is_ok());
}

#[test]
fn r8_fail_no_aa() {
    let src = r#"
            x = D(λ=2)(x)
        "#;
    assert!(all(src).is_err());
}

#[test]
fn r8_comment_should_not_mask() {
    let src = r#"
            x = D(λ=2)(x) // aa="sinc"
        "#;
    assert!(all(src).is_err());
}

#[test]
fn text_rules_report_which_rule() {
    assert!(matches!(all("x = W(edge='zero')(x)"), Err(DslLintError::ZeroEdge)));
    match all("x = W(edge=\"mirror\")(x)") {
        Err(DslLintError::InvalidEdge(v)) => assert_eq!(v, "mirror"),
        _ => panic!("expected an invalid edge"),
    }
    match all("y = D(lambda=4 )(x)") {
        Err(DslLintError::MissingAntiAlias(a)) => assert_eq!(a, "lambda=4"),
        _ => panic!("expected a missing anti-alias filter"),
    }
    assert!(all("y = D(lambda=4, aa: lpf)(x)").is_ok());
    assert!(all("x = W(bank=\"edge=zero\")(x)").is_ok());
    assert!(all("x = W(edge=\"Toeplitz\")(x)").is_ok());
    let code: Vec<char> = "x = W(edge=\"zero\")(x)".chars().collect();
    assert!(check_r7(&code, LintConfig { allow_zero_pad: true }).is_ok());
    assert!(check_r7(&code, LintConfig::default()).is_err());
}

#[test]
fn r7_zero_edge_and_reflect() {
    let zero = doc(vec![node("w1", "W", vec![("edge", s("zero"))])], None, None);
    let rep = lint_r7(&zero);
    assert!(codes(&rep).contains(&"R7/edge".to_string()));
    assert_eq!(rep.issues[0].message, "W node 'w1' uses forbidden edge padding 'zero'");
    let reflect = doc(vec![node("w1", "W", vec![("edge", s("reflect"))])], None, None);
    assert!(lint_r7(&reflect).ok());
    let other = doc(vec![node("w1", "W", vec![("edge", s("periodic"))])], None, None);
    assert_eq!(codes(&lint_r7(&other)), vec!["R7/guard".to_string()]);
    let sta = doc(vec![node("w1", "W", vec![("edge", s("periodic"))])], None, Some(obj(vec![("Sta", Json::Bool(true))])));
    assert!(lint_r7(&sta).ok());
    let sta_zero = doc(vec![node("w1", "W", vec![("edge", s("Zero"))])], None, Some(obj(vec![("Sta", Json::Bool(true))])));
    assert_eq!(codes(&lint_r7(&sta_zero)), vec!["R7/edge".to_string()]);
    let zero_pad = doc(vec![node("w1", "W", vec![("edge", s("zero_pad"))])], None, Some(obj(vec![("Sta", Json::Bool(true))])));
    assert_eq!(codes(&lint_r7(&zero_pad)), vec!["R7/edge".to_string()]);
    let toe = doc(vec![node("w1", "W", vec![("edge", s("TOEPLITZ"))])], None, None);
    assert!(lint_r7(&toe).ok());
}

#[test]
fn r8_anti_alias_and_passports() {
    let bare = doc(vec![node("d1", "D", vec![])], None, None);
    assert!(codes(&lint_r8(&bare)).contains(&"R8/aa".to_string()));
    let with_aa = doc(vec![node("d1", "D", vec![("aa", Json::Bool(true))])], None, None);
    let c = codes(&lint_r8(&with_aa));
    assert!(!c.contains(&"R8/aa".to_string()));
    assert!(c.contains(&"R8/passport".to_string()));
    let full = doc(
        vec![node("d1", "D", vec![("aa", Json::Bool(true))])],
        None,
        Some(obj(vec![("PR_ε", Json::Num("0.01".to_string())), ("MM", Json::Bool(true))])),
    );
    assert!(lint_r8(&full).ok());
    let passports = || Some(obj(vec![("PR_epsilon", Json::Bool(true)), ("MM_d", Json::Bool(true))]));
    let filter = doc(vec![node("d1", "D", vec![("aa", s("sinc"))])], None, passports());
    assert!(lint_r8(&filter).ok());
    let empty_name = doc(vec![node("d1", "D", vec![("aa", s(""))])], None, passports());
    assert_eq!(codes(&lint_r8(&empty_name)), vec!["R8/aa".to_string()]);
    let off = doc(vec![node("d1", "D", vec![("aa", Json::Bool(false))])], None, passports());
    assert_eq!(codes(&lint_r8(&off)), vec!["R8/aa".to_string()]);
    let two = doc(vec![node("d1", "D", vec![]), node("d2", "D", vec![])], None, None);
    assert_eq!(codes(&lint_r8(&two)), vec!["R8/aa", "R8/passport", "R8/aa", "R8/passport"]);
}

#[test]
fn r9_align_then_amplitude() {
    let nodes = || vec![node("n1", "Align", vec![]), node("n2", "A", vec![])];
    let forward = doc(nodes(), Some(vec![obj(vec![("from", s("n1")), ("to", s("n2"))])]), None);
    let rep = lint_r9(&forward);
    assert_eq!(codes(&rep), vec!["R9/A∘Align".to_string()]);
    assert_eq!(rep.issues[0].message, "Forbidden pattern A∘Align via edge n1 -> n2");
    let backward = doc(nodes(), Some(vec![obj(vec![("from", s("n2")), ("to", s("n1"))])]), None);
    assert!(lint_r9(&backward).ok());
}

#[test]
fn rules_without_a_graph() {
    let none = obj(vec![("other", Json::Null)]);
    assert_eq!(codes(&lint_r7(&none)), vec!["R7/no-graph".to_string()]);
    assert_eq!(codes(&lint_r8(&none)), vec!["R8/no-graph".to_string()]);
    assert_eq!(codes(&lint_r9(&none)), vec!["R9/no-graph".to_string()]);
    let no_id = doc(vec![obj(vec![("op", s("W"))])], None, None);
    assert_eq!(codes(&lint_r7(&no_id)), vec!["R7/no-graph".to_string()]);
}

#[test]
fn report_push_and_ok() {
    let mut r = LintReport::default();
    assert!(r.ok());
    r.push("X/1", "first".to_string());
    assert!(!r.ok());
    assert_eq!(r.issues[0].code, "X/1");
    assert_eq!(r.issues[0].message, "first");
}
