use waveforge::canon::{canonicalize_graph, CanonError};
use waveforge::diff::diff;
use waveforge::encode::encode;
use waveforge::hash::{nf_id_hex, strict_nf, strict_nf_hex};
use waveforge::json::Json;
use waveforge::normalize::{normalize, CanonNode, NormalizeError};
use waveforge::sortkeys::{sort_keys, to_canonical_json};
use waveforge::alias::{PadMode, WindowKind};

fn s(t: &str) -> Json {
    Json::Str(t.to_string())
}

fn n(t: &str) -> Json {
    Json::Num(t.to_string())
}

fn obj(es: Vec<(&str, Json)>) -> Json {
    Json::Obj(es.into_iter().map(|(k, v)| (k.to_string(), v)).collect())
}

fn graph(nodes: Vec<Json>) -> Json {
    obj(vec![("graph", obj(vec![("nodes", Json::Arr(nodes))]))])
}

fn get<'a>(v: &'a Json, k: &str) -> Option<&'a Json> {
    match v {
        Json::Obj(es) => es.iter().find(|(key, _)| key == k).map(|(_, x)| x),
        _ => None,
    }
}

fn nodes(v: &Json) -> &Vec<Json> {
    match get(get(v, "graph").expect("graph"), "nodes").expect("nodes") {
        Json::Arr(a) => a,
        _ => panic!("graph.nodes[]"),
    }
}

fn text(v: Option<&Json>) -> Option<String> {
    match v {
        Some(Json::Str(t)) => Some(t.clone()),
        Some(Json::Num(t)) => Some(t.clone()),
        _ => None,
    }
}

fn flag(v: Option<&Json>) -> Option<bool> {
    match v {
        Some(Json::Bool(b)) => Some(*b),
        _ => None,
    }
}

fn w_params(node: &Json) -> waveforge::normalize::WParams {
    match normalize(node) {
        Ok(CanonNode::W(p)) => p,
        _ => panic!("expected a window node"),
    }
}

#[test]
fn nf_id_is_deterministic_and_order_invariant() {
    let a = graph(vec![obj(vec![("op", s("W")), ("n_fft", n("1024")), ("hop", n("512")), ("window", s("Hann"))])]);
    let b = graph(vec![obj(vec![("window", s("Hann")), ("hop", n("512")), ("n_fft", n("1024")), ("op", s("W"))])]);
    let id1 = strict_nf_hex(&a).ok().expect("id a");
    let id2 = strict_nf_hex(&b).ok().expect("id b");
    assert_eq!(id1, id2);
}

#[test]
fn strict_nf_produces_canonical_form() {
    let src = graph(vec![
        obj(vec![("op", s("W")), ("n_fft", n("1024")), ("hop", n("512")), ("window", s("Hann")), ("center", Json::Bool(true)), ("pad_mode", s("reflect"))]),
        obj(vec![("op", s("W")), ("n_fft", n("2048")), ("hop", n("1024")), ("window", s("Hann")), ("center", Json::Bool(true)), ("pad_mode", s("reflect"))]),
    ]);
    let nf = strict_nf(&src).ok().expect("strict_nf");
    let ns = nodes(&nf);
    for node in ns {
        assert_eq!(text(get(node, "op")), Some("W".to_string()));
        assert_eq!(flag(get(node, "center")), Some(false));
        assert_eq!(text(get(node, "pad_mode")), Some("toeplitz".to_string()));
        assert!(get(node, "n_fft").is_some());
        assert!(get(node, "hop").is_some());
        assert_eq!(text(get(node, "window")), Some("Hann".to_string()));
    }
}

#[test]
fn strict_nf_hex_matches_self() {
    let src = graph(vec![obj(vec![("op", s("W")), ("n_fft", n("1024")), ("hop", n("512")), ("window", s("Hann"))])]);
    let id1 = strict_nf_hex(&src).ok().expect("id1");
    let id2 = strict_nf_hex(&src).ok().expect("id2");
    assert_eq!(id1, id2);
}

#[test]
fn nf_id_exact_value_and_shape() {
    let src = graph(vec![obj(vec![("op", s("W")), ("n_fft", n("1024")), ("hop", n("512")), ("window", s("Hann"))])]);
    let nf = canonicalize_graph(&src).ok().expect("nf");
    assert_eq!(
        encode(&nf),
        "{\"graph\":{\"nodes\":[{\"center\":false,\"hop\":512,\"n_fft\":1024,\"op\":\"W\",\"pad_mode\":\"reflect\",\"window\":\"Hann\"}]}}"
    );
    let id = nf_id_hex(&src).ok().expect("id");
    assert_eq!(id, "4fe8feb871acf4ee11bbd7c25e3e2c3370c1bad25647c9a360e5a230611a2395");
    let empty = nf_id_hex(&graph(vec![])).ok().expect("empty");
    assert_eq!(empty, "5dc3b9966c8932f91ece0430f66b8715b76ffefd642f431266c804e0e56a7487");
    assert_eq!(empty.len(), 64);
}

#[test]
fn key_order_does_not_change_the_normal_form() {
    let a = graph(vec![obj(vec![("op", s("W")), ("n_fft", n("1024")), ("hop", n("512")), ("window", s("Hann"))])]);
    let b = graph(vec![obj(vec![("window", s("Hann")), ("hop", n("512")), ("n_fft", n("1024")), ("op", s("W"))])]);
    let na = canonicalize_graph(&a).ok().expect("a");
    let nb = canonicalize_graph(&b).ok().expect("b");
    assert_eq!(encode(&na), encode(&nb));
}

#[test]
fn synonyms_normalize_alike() {
    let a = w_params(&obj(vec![("nfft", n("1024")), ("window", s("Hann"))]));
    let b = w_params(&obj(vec![("n_fft", n("1024")), ("window", s("Hann"))]));
    assert_eq!(a, b);
    let h = w_params(&obj(vec![("n_fft", n("1024")), ("window", s("hanning"))]));
    assert_eq!(h.window, WindowKind::Hann);
    assert_eq!(a.window, WindowKind::Hann);
    let upper = w_params(&obj(vec![("op", s("stft")), ("N", s("1024")), ("window", s("HANN"))]));
    assert_eq!(upper, a);
}

#[test]
fn centred_reflect_collapses_to_toeplitz() {
    let p = w_params(&obj(vec![
        ("op", s("W")), ("n_fft", n("1024")), ("hop", n("512")), ("window", s("Hann")),
        ("center", Json::Bool(true)), ("pad_mode", s("reflect")),
    ]));
    assert!(!p.center);
    assert_eq!(p.pad_mode, PadMode::Toeplitz);
    let q = w_params(&obj(vec![
        ("n_fft", n("1024")), ("window", s("Hann")), ("center", s("yes")), ("pad_mode", s("toeplitz")),
    ]));
    assert!(q.center);
    assert_eq!(q.pad_mode, PadMode::Toeplitz);
    let r = w_params(&obj(vec![("n_fft", n("1024")), ("window", s("Hann")), ("center", n("0")), ("pad_mode", s("mirror"))]));
    assert!(!r.center);
    assert_eq!(r.pad_mode, PadMode::Reflect);
}

#[test]
fn hop_is_derived_in_order() {
    let base = |extra: Vec<(&str, Json)>| {
        let mut es = vec![("n_fft", n("1024")), ("window", s("Hann"))];
        es.extend(extra);
        w_params(&obj(es)).hop
    };
    assert_eq!(base(vec![]), 512);
    assert_eq!(base(vec![("hop_ratio", s("25%"))]), 256);
    assert_eq!(base(vec![("hop_ratio", n("0.3"))]), 307);
    assert_eq!(base(vec![("hop_ratio", n("2"))]), 1024);
    assert_eq!(base(vec![("overlap", n("0.75"))]), 256);
    assert_eq!(base(vec![("overlap", s("100%"))]), 1);
    assert_eq!(base(vec![("hop", n("100")), ("hop_ratio", n("0.5"))]), 100);
    assert_eq!(base(vec![("hop_ratio", n("0.5")), ("overlap", n("0.9"))]), 512);
    let one = w_params(&obj(vec![("n_fft", n("1")), ("window", s("Hann"))]));
    assert_eq!(one.hop, 1);
}

#[test]
fn normalization_errors() {
    assert!(matches!(normalize(&s("W")), Err(NormalizeError::NodeNotAnObject)));
    assert!(matches!(normalize(&obj(vec![("op", s("FFT")), ("n_fft", n("8")), ("window", s("Hann"))])), Err(NormalizeError::UnsupportedOperator(_))));
    match normalize(&obj(vec![("window", s("Hann"))])) {
        Err(NormalizeError::MissingRequiredField(f)) => assert_eq!(f, "n_fft"),
        _ => panic!("expected a missing n_fft"),
    }
    match normalize(&obj(vec![("n_fft", n("8"))])) {
        Err(NormalizeError::MissingRequiredField(f)) => assert_eq!(f, "window"),
        _ => panic!("expected a missing window"),
    }
    match normalize(&obj(vec![("n_fft", n("8")), ("window", s("kaiser"))])) {
        Err(NormalizeError::UnsupportedValue(f, _)) => assert_eq!(f, "window"),
        _ => panic!("expected an unsupported window"),
    }
    match normalize(&obj(vec![("n_fft", n("8")), ("window", s("Hann")), ("pad_mode", s("zero"))])) {
        Err(NormalizeError::UnsupportedValue(f, _)) => assert_eq!(f, "pad_mode"),
        _ => panic!("expected an unsupported padding"),
    }
    assert!(matches!(normalize(&obj(vec![("n_fft", n("8")), ("window", s("Hann")), ("center", s("maybe"))])), Err(NormalizeError::InvalidBoolean(_))));
    assert!(matches!(normalize(&obj(vec![("n_fft", s("eight")), ("window", s("Hann"))])), Err(NormalizeError::InvalidNumber(_))));
    assert!(matches!(normalize(&obj(vec![("n_fft", n("0")), ("window", s("Hann"))])), Err(NormalizeError::InvalidNumber(_))));
    assert!(matches!(normalize(&obj(vec![("n_fft", n("8")), ("hop", n("9")), ("window", s("Hann"))])), Err(NormalizeError::InvalidNumber(_))));
}

#[test]
fn other_kinds_normalize() {
    assert!(matches!(normalize(&obj(vec![("op", s("Align"))])), Ok(CanonNode::Align)));
    assert!(matches!(normalize(&obj(vec![("kind", s("phase"))])), Ok(CanonNode::Phi)));
    match normalize(&obj(vec![("op", s("D")), ("lambda", n("2")), ("aa", s("sinc"))])) {
        Ok(CanonNode::D(d)) => {
            assert_eq!(d.factor, Some(2));
            assert_eq!(d.aa, Some("sinc".to_string()));
        }
        _ => panic!("expected a downsample node"),
    }
}

#[test]
fn canonicalization_errors_and_order() {
    assert!(matches!(canonicalize_graph(&obj(vec![])), Err(CanonError::MissingGraph)));
    assert!(matches!(canonicalize_graph(&obj(vec![("graph", obj(vec![]))])), Err(CanonError::MissingNodesArray)));
    let bad = graph(vec![obj(vec![("op", s("A"))]), n("3")]);
    assert!(matches!(canonicalize_graph(&bad), Err(CanonError::Node(1, NormalizeError::NodeNotAnObject))));
    let g = graph(vec![
        obj(vec![("op", s("W")), ("n_fft", n("2048")), ("window", s("Hann"))]),
        obj(vec![("op", s("A"))]),
        obj(vec![("op", s("W")), ("n_fft", n("1024")), ("window", s("Hann"))]),
    ]);
    let nf = canonicalize_graph(&g).ok().expect("nf");
    let ops: Vec<Option<String>> = nodes(&nf).iter().map(|x| text(get(x, "op"))).collect();
    assert_eq!(ops, vec![Some("A".to_string()), Some("W".to_string()), Some("W".to_string())]);
    assert_eq!(text(get(&nodes(&nf)[1], "n_fft")), Some("1024".to_string()));
}

#[test]
fn equal_ids_iff_no_diff() {
    let a = graph(vec![obj(vec![("op", s("W")), ("n_fft", n("1024")), ("hop", n("512")), ("window", s("Hann")), ("center", Json::Bool(true)), ("pad_mode", s("reflect"))])]);
    let b = graph(vec![obj(vec![("nfft", n("1024")), ("window", s("hanning")), ("pad", s("toeplitz"))])]);
    let c = graph(vec![obj(vec![("nfft", n("1024")), ("window", s("hanning")), ("pad", s("reflect"))])]);
    let (na, nb, nc) = (strict_nf(&a).ok().unwrap(), strict_nf(&b).ok().unwrap(), strict_nf(&c).ok().unwrap());
    assert_eq!(nf_id_hex(&a).ok(), nf_id_hex(&b).ok());
    assert!(diff(&na, &nb, "").is_empty());
    assert_ne!(nf_id_hex(&a).ok(), nf_id_hex(&c).ok());
    let d = diff(&na, &nc, "");
    assert_eq!(d.len(), 1);
    assert_eq!(d[0].path, "/graph/nodes/0/pad_mode");
    assert_eq!(d[0].left, "\"toeplitz\"");
    assert_eq!(d[0].right, "\"reflect\"");
}

#[test]
fn diff_of_a_tree_with_itself_is_empty() {
    let x = obj(vec![("b", Json::Arr(vec![n("1"), Json::Null])), ("a", obj(vec![("z", s("q\"x"))]))]);
    assert!(diff(&x, &x, "").is_empty());
    assert!(diff(&x, &x, "/root").is_empty());
}

#[test]
fn diff_paths_and_absent_sides() {
    let l = obj(vec![("b", n("1")), ("a", Json::Arr(vec![n("1"), n("2")]))]);
    let r = obj(vec![("c", Json::Bool(true)), ("a", Json::Arr(vec![n("1")])), ("b", n("2"))]);
    let d = diff(&l, &r, "/base");
    let got: Vec<(String, String, String)> = d.into_iter().map(|e| (e.path, e.left, e.right)).collect();
    assert_eq!(got, vec![
        ("/base/a/1".to_string(), "2".to_string(), "<absent>".to_string()),
        ("/base/b".to_string(), "1".to_string(), "2".to_string()),
        ("/base/c".to_string(), "<absent>".to_string(), "true".to_string()),
    ]);
    let swapped = diff(&r, &l, "/base");
    assert_eq!(swapped.len(), 3);
    assert_eq!(swapped[0].left, "<absent>");
    let scalar = diff(&s("x"), &n("1"), "");
    assert_eq!(scalar.len(), 1);
    assert_eq!(scalar[0].path, "");
}

#[test]
fn encoding_escapes_strings() {
    let v = obj(vec![("k", s("a\"b\\c\nd\u{1}")), ("e", Json::Arr(vec![])), ("f", Json::Null)]);
    assert_eq!(encode(&v), "{\"k\":\"a\\\"b\\\\c\\nd\\u0001\",\"e\":[],\"f\":null}");
}

#[test]
fn generic_key_sort() {
    let v = obj(vec![
        ("b", Json::Arr(vec![obj(vec![("z", n("1")), ("a", n("2"))])])),
        ("a", Json::Null),
        ("b", s("dropped")),
    ]);
    let sorted = sort_keys(&v);
    assert_eq!(encode(&sorted), "{\"a\":null,\"b\":[{\"a\":2,\"z\":1}]}");
    assert!(diff(&v, &sorted, "").is_empty());
    assert_eq!(to_canonical_json(&v), "{\"a\":null,\"b\":[{\"a\":2,\"z\":1}]}");
}

#[test]
fn normal_form_is_a_fixed_point() {
    let g = graph(vec![
        obj(vec![("op", s("down")), ("q", n("4")), ("anti_alias", Json::Bool(true))]),
        obj(vec![("nfft", s("2048")), ("win", s("blackman")), ("overlap", s("50%")), ("centered", s("on"))]),
        obj(vec![("type", s("PHASE"))]),
    ]);
    let nf = canonicalize_graph(&g).ok().expect("nf");
    let again = canonicalize_graph(&nf).ok().expect("again");
    assert_eq!(encode(&again), encode(&nf));
    assert_eq!(
        encode(&nf),
        "{\"graph\":{\"nodes\":[{\"aa\":\"true\",\"factor\":4,\"op\":\"D\"},{\"op\":\"Phi\"},{\"center\":false,\"hop\":1024,\"n_fft\":2048,\"op\":\"W\",\"pad_mode\":\"toeplitz\",\"window\":\"Blackman\"}]}}"
    );
}

#[test]
fn any_json_number_text_is_read_exactly() {
    let hop = |extra: Vec<(&str, Json)>, nfft: &str| {
        let mut es = vec![("n_fft", n(nfft)), ("window", s("Hann"))];
        es.extend(extra);
        w_params(&obj(es)).hop
    };
    assert_eq!(hop(vec![("overlap", n("1e-7"))], "1024"), 1024);
    assert_eq!(hop(vec![("overlap", n("0.3333333333333333"))], "1024"), 683);
    assert_eq!(hop(vec![("hop_ratio", n("2.5e-1"))], "1024"), 256);
    assert_eq!(hop(vec![("hop_ratio", n("25E-2"))], "1024"), 256);
    assert_eq!(hop(vec![("hop_ratio", n("0.5"))], "3"), 2);
    assert_eq!(hop(vec![("overlap", n("0.5"))], "3"), 2);
    assert_eq!(hop(vec![("hop_ratio", n("-0.5"))], "1024"), 1);
    assert_eq!(hop(vec![("overlap", n("-0.5"))], "1024"), 1024);
    assert_eq!(hop(vec![("hop_ratio", n("1e999999999999999999999999999999999999"))], "1024"), 1024);
    assert_eq!(hop(vec![("overlap", n("1e-999999999999999999999999999999999999"))], "1024"), 1024);
    assert_eq!(hop(vec![("hop_ratio", n("0.00000000000000000000000000001"))], "1024"), 1);
    assert_eq!(hop(vec![("hop", n("5.12e2"))], "1024"), 512);
    assert_eq!(w_params(&obj(vec![("n_fft", n("1024.0")), ("window", s("Hann"))])).n_fft, 1024);
    assert_eq!(w_params(&obj(vec![("n_fft", n("1e3")), ("window", s("Hann"))])).n_fft, 1000);
    assert!(matches!(normalize(&obj(vec![("n_fft", n("1024.5")), ("window", s("Hann"))])), Err(NormalizeError::InvalidNumber(_))));
    assert!(matches!(normalize(&obj(vec![("n_fft", n("1e20")), ("window", s("Hann"))])), Err(NormalizeError::InvalidNumber(_))));
    assert!(matches!(normalize(&obj(vec![("n_fft", n("8")), ("window", s("Hann")), ("overlap", s("half"))])), Err(NormalizeError::InvalidNumber(_))));
}
