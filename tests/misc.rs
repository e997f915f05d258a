use waveforge::eval::ColaMode;
use waveforge::json::Json;
use waveforge::records::{
    align16, default_endianness, is_pass, parse_nf_id_from_stdout, validate_basic, AlignMode, AlignParams,
    HeaderError,
};

fn obj(es: Vec<(&str, Json)>) -> Json {
    Json::Obj(es.into_iter().map(|(k, v)| (k.to_string(), v)).collect())
}

#[test]
fn cola_mode_names() {
    assert_eq!(ColaMode::from("  POWER "), ColaMode::Power);
    assert_eq!(ColaMode::from("pow"), ColaMode::Power);
    assert_eq!(ColaMode::from("amp"), ColaMode::Amp);
    assert_eq!(ColaMode::from_str("other"), ColaMode::Amp);
    assert_eq!(ColaMode::Power.as_str(), "power");
    assert_eq!(ColaMode::Amp.as_str(), "amp");
}

#[test]
fn alignment_and_defaults() {
    assert_eq!(align16(0), 0);
    assert_eq!(align16(1), 16);
    assert_eq!(align16(16), 16);
    assert_eq!(align16(33), 48);
    assert_eq!(default_endianness(), "little");
    let p = AlignParams::default();
    assert_eq!(p.radius, 8);
    assert_eq!(p.mode, AlignMode::XCorrSoft);
}

#[test]
fn pass_policy() {
    assert!(is_pass(&obj(vec![])));
    assert!(!is_pass(&obj(vec![("cert", obj(vec![("pass", Json::Bool(false))]))])));
    assert!(!is_pass(&obj(vec![("metrics", obj(vec![("cola_pass", Json::Null)]))])));
    assert!(is_pass(&obj(vec![("w_perf", obj(vec![("cola_pass", Json::Null)]))])));
    assert!(is_pass(&obj(vec![
        ("cert", obj(vec![("pass", Json::Bool(true))])),
        ("metrics", obj(vec![("cola_pass", Json::Bool(false))])),
    ])));
}

#[test]
fn nf_id_in_tool_output() {
    let id = "4fe8feb871acf4ee11bbd7c25e3e2c3370c1bad25647c9a360e5a230611a2395";
    let other = "5dc3b9966c8932f91ece0430f66b8715b76ffefd642f431266c804e0e56a7487";
    assert_eq!(parse_nf_id_from_stdout(&format!("[forge] NF-ID={}\n", id)), Some(id.to_string()));
    assert_eq!(parse_nf_id_from_stdout(&format!("{}  a.json\n{}\tb.json", id, other)), Some(other.to_string()));
    assert_eq!(parse_nf_id_from_stdout("no id here 1234"), None);
    assert_eq!(parse_nf_id_from_stdout(""), None);
}

#[test]
fn header_checks() {
    assert_eq!(validate_basic("0.3.0", "0.3.1", "audio", true), Ok(()));
    assert_eq!(validate_basic("0.2.9", "0.3.0", "audio", true), Err(HeaderError::Version));
    assert_eq!(validate_basic("0.3.0", "1.0", "audio", true), Err(HeaderError::SchemaSemver));
    assert_eq!(validate_basic("0.3.0", "0.3.0", "music", true), Err(HeaderError::Domain));
    assert_eq!(validate_basic("0.3.0", "0.3.0", "dna", false), Err(HeaderError::Tick));
}
