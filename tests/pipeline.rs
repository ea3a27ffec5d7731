use unifac_cli::document::{
    decode_document, decode_substance, encode_result, ComputedSubstance, DecodeError,
    EncodeError, MixtureDocument, MixtureRequest, SubstanceEntry,
};
use unifac_cli::token::{decode_group, encode_group, is_real_count, parse_id, GroupToken, TokenError};

fn entry(name: &str, fraction: f64, groups: &[&str]) -> SubstanceEntry {
    SubstanceEntry {
        name: name.to_string(),
        fraction: fraction.to_bits(),
        groups: groups.iter().map(|g| g.to_string()).collect(),
    }
}

fn document(substances: Vec<SubstanceEntry>) -> MixtureDocument {
    MixtureDocument { temperature: 298.0f64.to_bits(), substances }
}

fn group(id: u8, count: &str) -> GroupToken {
    GroupToken { id, count: count.to_string() }
}

fn compute(req: &MixtureRequest) -> Vec<ComputedSubstance> {
    let substances: Vec<unifac::Substance> = req
        .substances
        .iter()
        .map(|s| {
            let groups = s
                .groups
                .iter()
                .map(|g| unifac::FunctionalGroup::from(g.id, g.count.parse().unwrap()).unwrap())
                .collect();
            unifac::Substance::from_name(&s.name, f64::from_bits(s.fraction), groups)
        })
        .collect();
    let mix = unifac::calc(substances, f64::from_bits(req.temperature)).unwrap();
    mix.iter()
        .map(|s| ComputedSubstance {
            name: s.name.clone(),
            fraction: s.fraction.to_bits(),
            groups: s.functional_groups.iter().map(|g| group(g.id, &g.nu.to_string())).collect(),
            gamma: s.gamma.map(f64::to_bits),
        })
        .collect()
}

#[test]
fn parse_and_calc() {
    let doc = document(vec![
        entry("ethanole", 0.5, &["1:2", "2:1", "14:1"]),
        entry("benzene", 0.5, &["9:6"]),
    ]);
    let req = decode_document(&doc).unwrap();
    let computed = compute(&req);
    let out = encode_result(req.temperature, &computed);
    assert!(out.is_ok());
    let out = out.unwrap();
    let mut names: Vec<String> = out.substances.iter().map(|s| s.name.clone()).collect();
    names.sort();
    assert_eq!(names, vec!["benzene".to_string(), "ethanole".to_string()]);
    for s in &out.substances {
        assert!(f64::from_bits(s.gamma).is_finite());
    }
    let ethanole = out.substances.iter().find(|s| s.name == "ethanole").unwrap();
    assert_eq!(ethanole.groups, vec!["1:2".to_string(), "2:1".to_string(), "14:1".to_string()]);
    assert_eq!(out.temperature, 298.0f64.to_bits());
}

#[test]
fn decode_plain_token() {
    assert_eq!(decode_group("14:1"), Ok(group(14, "1")));
    assert_eq!(decode_group("9:6.5"), Ok(group(9, "6.5")));
    assert_eq!(decode_group("+7:1.5e3"), Ok(group(7, "1.5e3")));
    assert_eq!(decode_group("255:-2"), Ok(group(255, "-2")));
    assert_eq!(decode_group("0:.5"), Ok(group(0, ".5")));
    assert_eq!(decode_group("3:4."), Ok(group(3, "4.")));
    assert_eq!(decode_group("1:inf"), Ok(group(1, "inf")));
    assert_eq!(decode_group("1:-NaN"), Ok(group(1, "-NaN")));
    assert_eq!(decode_group("1:Infinity"), Ok(group(1, "Infinity")));
    assert_eq!(decode_group("1:2E-4"), Ok(group(1, "2E-4")));
}

#[test]
fn decode_bad_id() {
    assert_eq!(decode_group("x:2"), Err(TokenError::Id));
    assert_eq!(decode_group("256:2"), Err(TokenError::Id));
    assert_eq!(decode_group(":2"), Err(TokenError::Id));
    assert_eq!(decode_group("-1:2"), Err(TokenError::Id));
    assert_eq!(decode_group("+:2"), Err(TokenError::Id));
}

#[test]
fn decode_bad_separator() {
    assert_eq!(decode_group("1"), Err(TokenError::Separator));
    assert_eq!(decode_group(""), Err(TokenError::Separator));
    assert_eq!(decode_group("1:2:3"), Err(TokenError::Separator));
}

#[test]
fn decode_bad_count() {
    assert_eq!(decode_group("1:"), Err(TokenError::Count));
    assert_eq!(decode_group("1:abc"), Err(TokenError::Count));
    assert_eq!(decode_group("1:."), Err(TokenError::Count));
    assert_eq!(decode_group("1:1e"), Err(TokenError::Count));
    assert_eq!(decode_group("1:1.2.3"), Err(TokenError::Count));
    assert_eq!(decode_group("1: 2"), Err(TokenError::Count));
    assert_eq!(decode_group("1:infin"), Err(TokenError::Count));
}

#[test]
fn id_field_values() {
    assert_eq!(parse_id("0"), Some(0));
    assert_eq!(parse_id("007"), Some(7));
    assert_eq!(parse_id("+255"), Some(255));
    assert_eq!(parse_id("1000"), None);
    assert_eq!(parse_id(""), None);
}

#[test]
fn count_field_forms() {
    assert!(is_real_count("2"));
    assert!(is_real_count("-0.25e+10"));
    assert!(!is_real_count("e5"));
    assert!(!is_real_count("--1"));
}

#[test]
fn encode_tokens() {
    assert_eq!(encode_group(&group(14, "1")), "14:1");
    assert_eq!(encode_group(&group(0, "0.5")), "0:0.5");
    assert_eq!(encode_group(&group(255, "2e3")), "255:2e3");
    assert_eq!(encode_group(&group(109, "6")), "109:6");
}

#[test]
fn round_trip_tokens() {
    for t in ["1:2", "14:1", "9:6", "255:-0.5e3", "0:nan", "100:.5"] {
        assert_eq!(encode_group(&decode_group(t).unwrap()), t);
    }
}

#[test]
fn non_numeric_id_names_substance() {
    let doc = document(vec![entry("ethanole", 0.5, &["1:2", "x:2"])]);
    assert_eq!(
        decode_document(&doc),
        Err(DecodeError::GroupToken { substance: "ethanole".to_string(), cause: TokenError::Id })
    );
}

#[test]
fn missing_separator_is_token_error() {
    let doc = document(vec![entry("benzene", 0.5, &["1"])]);
    assert_eq!(
        decode_document(&doc),
        Err(DecodeError::GroupToken {
            substance: "benzene".to_string(),
            cause: TokenError::Separator
        })
    );
}

#[test]
fn unknown_group_is_semantic_error() {
    let doc = document(vec![entry("ethanole", 0.5, &["1:2"]), entry("mystery", 0.5, &["200:1"])]);
    assert_eq!(
        decode_document(&doc),
        Err(DecodeError::GroupSemantic { substance: "mystery".to_string(), id: 200 })
    );
    let s = entry("zero", 1.0, &["0:1"]);
    assert_eq!(
        decode_substance(&s),
        Err(DecodeError::GroupSemantic { substance: "zero".to_string(), id: 0 })
    );
}

#[test]
fn known_group_ids() {
    for id in ["1", "109", "118", "119", "178", "179"] {
        let t = format!("{}:1", id);
        let s = entry("s", 1.0, &[t.as_str()]);
        assert!(decode_substance(&s).is_ok());
    }
    for id in ["110", "117", "120", "177", "180", "255"] {
        let t = format!("{}:1", id);
        let s = entry("s", 1.0, &[t.as_str()]);
        assert!(decode_substance(&s).is_err());
    }
}

#[test]
fn first_bad_substance_is_reported() {
    let doc = document(vec![
        entry("good", 0.2, &["1:1"]),
        entry("first", 0.4, &["1:1", "2:x", "y"]),
        entry("second", 0.4, &["1"]),
    ]);
    assert_eq!(
        decode_document(&doc),
        Err(DecodeError::GroupToken { substance: "first".to_string(), cause: TokenError::Count })
    );
}

#[test]
fn decoded_request_mirrors_document() {
    let doc = document(vec![entry("b", 0.25, &["9:6"]), entry("a", 0.75, &["1:2", "2:1.5"])]);
    let req = decode_document(&doc).unwrap();
    assert_eq!(req.temperature, doc.temperature);
    assert_eq!(req.substances.len(), 2);
    assert_eq!(req.substances[0].name, "b");
    assert_eq!(req.substances[0].fraction, 0.25f64.to_bits());
    assert_eq!(req.substances[1].groups, vec![group(1, "2"), group(2, "1.5")]);
}

#[test]
fn empty_document_decodes() {
    let doc = document(vec![]);
    let req = decode_document(&doc).unwrap();
    assert!(req.substances.is_empty());
    let out = encode_result(req.temperature, &vec![]).unwrap();
    assert!(out.substances.is_empty());
}

#[test]
fn missing_coefficient_is_reported() {
    let computed = vec![
        ComputedSubstance {
            name: "a".to_string(),
            fraction: 0.5f64.to_bits(),
            groups: vec![group(1, "2")],
            gamma: Some(1.5f64.to_bits()),
        },
        ComputedSubstance {
            name: "b".to_string(),
            fraction: 0.5f64.to_bits(),
            groups: vec![group(9, "6")],
            gamma: None,
        },
    ];
    assert_eq!(
        encode_result(1, &computed),
        Err(EncodeError::MissingCoefficient { substance: "b".to_string() })
    );
}

#[test]
fn output_entries_follow_model() {
    let computed = vec![ComputedSubstance {
        name: "a".to_string(),
        fraction: 7,
        groups: vec![group(1, "2"), group(14, "1")],
        gamma: Some(42),
    }];
    let out = encode_result(5, &computed).unwrap();
    assert_eq!(out.temperature, 5);
    assert_eq!(out.substances[0].name, "a");
    assert_eq!(out.substances[0].fraction, 7);
    assert_eq!(out.substances[0].gamma, 42);
    assert_eq!(out.substances[0].groups, vec!["1:2".to_string(), "14:1".to_string()]);
}
