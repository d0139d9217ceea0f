use filter_cache_format::errors::{DeserializationError, SerializationError};
use filter_cache_format::format::{DeserializeFormat, SerializeFormat};
use filter_cache_format::state::{
    Blocker, CosmeticFilterCache, HostnameRuleDb, NetworkFilterList, RedirectResourceStorage,
    ScriptletResourceStorage, StringMultiMap, StringSet,
};

fn bucket(rules: &[&str]) -> NetworkFilterList {
    NetworkFilterList { filters: rules.iter().map(|r| r.to_string()).collect() }
}

fn empty_state() -> (Blocker, CosmeticFilterCache) {
    (
        Blocker {
            csp: bucket(&[]),
            exceptions: bucket(&[]),
            importants: bucket(&[]),
            redirects: bucket(&[]),
            filters_tagged: bucket(&[]),
            filters: bucket(&[]),
            generic_hide: bucket(&[]),
            tags_enabled: StringSet::new(),
            tagged_filters_all: vec![],
            enable_optimizations: false,
            resources: RedirectResourceStorage { entries: vec![] },
        },
        CosmeticFilterCache {
            simple_class_rules: StringSet::new(),
            simple_id_rules: StringSet::new(),
            complex_class_rules: StringMultiMap::new(),
            complex_id_rules: StringMultiMap::new(),
            specific_rules: HostnameRuleDb { entries: vec![] },
            misc_generic_selectors: StringSet::new(),
            scriptlets: ScriptletResourceStorage { entries: vec![] },
        },
    )
}

const HEADER: [u8; 5] = [0x46, 0x43, 0x46, 0x30, 0x00];

#[test]
fn empty_state_exact_bytes() {
    let (b, c) = empty_state();
    let blob = SerializeFormat::from((&b, &c)).serialize().unwrap();
    let mut expected = HEADER.to_vec();
    expected.extend_from_slice(&[0xdc, 0x00, 0x11]);
    expected.extend_from_slice(&[0x90; 8]);
    expected.push(0xc2);
    expected.extend_from_slice(&[0x90; 8]);
    assert_eq!(blob, expected);
}

#[test]
fn single_rule_exact_bytes() {
    let (mut b, c) = empty_state();
    b.csp = bucket(&["R1"]);
    let blob = SerializeFormat::from((&b, &c)).serialize().unwrap();
    let mut expected = HEADER.to_vec();
    expected.extend_from_slice(&[0xdc, 0x00, 0x11]);
    expected.extend_from_slice(&[0x91, 0xa2, 0x52, 0x31]);
    expected.extend_from_slice(&[0x90; 7]);
    expected.push(0xc2);
    expected.extend_from_slice(&[0x90; 8]);
    assert_eq!(blob, expected);
}

#[test]
fn concrete_scenario_round_trips() {
    let (mut b, mut c) = empty_state();
    b.csp = bucket(&["R1"]);
    b.enable_optimizations = true;
    c.simple_class_rules.insert("ad-banner".to_string());
    c.complex_id_rules
        .insert("id1".to_string(), vec!["sel-a".to_string(), "sel-b".to_string()]);
    let blob = SerializeFormat::from((&b, &c)).serialize().unwrap();
    assert_eq!(&blob[..5], &HEADER);
    let parsed = DeserializeFormat::deserialize(&blob).unwrap();
    let (b2, c2) = parsed.into_engine_state();
    assert_eq!(b2.csp.filters, vec!["R1".to_string()]);
    assert!(b2.exceptions.filters.is_empty());
    assert!(b2.enable_optimizations);
    assert_eq!(c2.simple_class_rules.elems, vec!["ad-banner".to_string()]);
    assert_eq!(
        c2.complex_id_rules.entries,
        vec![("id1".to_string(), vec!["sel-a".to_string(), "sel-b".to_string()])]
    );
    assert!(b2.tags_enabled.elems.is_empty());
}

#[test]
fn round_trip_full_state() {
    let (mut b, mut c) = empty_state();
    b.csp = bucket(&["c1", "c2"]);
    b.exceptions = bucket(&["e1"]);
    b.importants = bucket(&["i1", "i2", "i3"]);
    b.redirects = bucket(&["r1"]);
    b.filters_tagged = bucket(&["t1"]);
    b.filters = bucket(&["f2", "f1"]);
    b.generic_hide = bucket(&["g1"]);
    b.tagged_filters_all = vec!["t1".to_string(), "t0".to_string()];
    b.enable_optimizations = true;
    b.resources.entries = vec![
        ("zz".to_string(), "payload-z".to_string()),
        ("aa".to_string(), "payload-a".to_string()),
    ];
    c.simple_class_rules.insert("beta".to_string());
    c.simple_class_rules.insert("alpha".to_string());
    c.simple_id_rules.insert("only".to_string());
    c.complex_class_rules.insert("k2".to_string(), vec!["v2".to_string()]);
    c.complex_class_rules
        .insert("k1".to_string(), vec!["vb".to_string(), "va".to_string()]);
    c.specific_rules.entries =
        vec![("host.example".to_string(), vec!["rule-x".to_string()])];
    c.misc_generic_selectors.insert("misc1".to_string());
    c.scriptlets.entries = vec![("s1".to_string(), "script-body".to_string())];

    let blob = SerializeFormat::from((&b, &c)).serialize().unwrap();
    let (b2, c2) = DeserializeFormat::deserialize(&blob).unwrap().into_engine_state();

    // order-significant fields round-trip exactly, in order
    assert_eq!(b2.csp.filters, b.csp.filters);
    assert_eq!(b2.exceptions.filters, b.exceptions.filters);
    assert_eq!(b2.importants.filters, b.importants.filters);
    assert_eq!(b2.redirects.filters, b.redirects.filters);
    assert_eq!(b2.filters_tagged.filters, b.filters_tagged.filters);
    assert_eq!(b2.filters.filters, vec!["f2".to_string(), "f1".to_string()]);
    assert_eq!(b2.generic_hide.filters, b.generic_hide.filters);
    assert_eq!(b2.tagged_filters_all, b.tagged_filters_all);
    assert_eq!(b2.enable_optimizations, true);
    assert_eq!(b2.resources.entries, b.resources.entries);
    assert_eq!(c2.specific_rules.entries, c.specific_rules.entries);
    assert_eq!(c2.scriptlets.entries, c.scriptlets.entries);
    // hash-backed collections keep membership; the rebuilt order is canonical
    assert_eq!(
        c2.simple_class_rules.elems,
        vec!["alpha".to_string(), "beta".to_string()]
    );
    assert!(c2.simple_class_rules.contains("beta"));
    assert!(!c2.simple_class_rules.contains("gamma"));
    assert_eq!(c2.simple_id_rules.elems, vec!["only".to_string()]);
    assert_eq!(
        c2.complex_class_rules.entries,
        vec![
            ("k1".to_string(), vec!["vb".to_string(), "va".to_string()]),
            ("k2".to_string(), vec!["v2".to_string()]),
        ]
    );
    assert_eq!(c2.misc_generic_selectors.elems, vec!["misc1".to_string()]);
    // derived state is reset, not persisted
    assert!(b2.tags_enabled.elems.is_empty());
}

#[test]
fn serialization_is_insertion_order_independent() {
    let (b, mut c1) = empty_state();
    let (b2, mut c2) = empty_state();
    for s in ["zeta", "alpha", "mid"] {
        c1.simple_class_rules.insert(s.to_string());
    }
    for s in ["mid", "zeta", "alpha"] {
        c2.simple_class_rules.insert(s.to_string());
    }
    c1.complex_id_rules.insert("b".to_string(), vec!["1".to_string()]);
    c1.complex_id_rules.insert("a".to_string(), vec!["2".to_string()]);
    c2.complex_id_rules.insert("a".to_string(), vec!["2".to_string()]);
    c2.complex_id_rules.insert("b".to_string(), vec!["1".to_string()]);
    let blob1 = SerializeFormat::from((&b, &c1)).serialize().unwrap();
    let blob2 = SerializeFormat::from((&b2, &c2)).serialize().unwrap();
    assert_eq!(blob1, blob2);
}

#[test]
fn header_rejection() {
    // empty input
    assert!(matches!(
        DeserializeFormat::deserialize(&[]),
        Err(DeserializationError::UnrecognizedFormat)
    ));
    // shorter than the header
    assert!(matches!(
        DeserializeFormat::deserialize(&[0x46, 0x43, 0x46]),
        Err(DeserializationError::UnrecognizedFormat)
    ));
    // wrong magic
    assert!(matches!(
        DeserializeFormat::deserialize(&[0xff, 0x43, 0x46, 0x30, 0x00, 0x90]),
        Err(DeserializationError::UnrecognizedFormat)
    ));
    // right magic, unsupported version byte
    assert!(matches!(
        DeserializeFormat::deserialize(&[0x46, 0x43, 0x46, 0x30, 0x07, 0x90]),
        Err(DeserializationError::UnrecognizedFormat)
    ));
}

#[test]
fn payload_type_mismatch_is_decode_error() {
    // valid framing, then a record whose first field is nil instead of a list
    let mut blob = HEADER.to_vec();
    blob.extend_from_slice(&[0x91, 0xc0]);
    assert!(matches!(
        DeserializeFormat::deserialize(&blob),
        Err(DeserializationError::DecodeFailed)
    ));
}

#[test]
fn truncation_rejection() {
    let (mut b, mut c) = empty_state();
    b.csp = bucket(&["R1", "longer-rule-name"]);
    b.enable_optimizations = true;
    c.simple_class_rules.insert("ad-banner".to_string());
    c.scriptlets.entries = vec![("s".to_string(), "body".to_string())];
    let blob = SerializeFormat::from((&b, &c)).serialize().unwrap();
    for m in 0..blob.len() {
        let r = DeserializeFormat::deserialize(&blob[..m]);
        assert!(r.is_err(), "truncation at {} accepted", m);
        if m >= 5 {
            assert!(matches!(r, Err(DeserializationError::DecodeFailed)));
        }
    }
    assert!(DeserializeFormat::deserialize(&blob).is_ok());
}

#[test]
fn old_record_with_fewer_fields_decodes_with_defaults() {
    // a nine-field record from an older schema: eight empty lists, flag true
    let mut blob = HEADER.to_vec();
    blob.push(0x99);
    blob.extend_from_slice(&[0x90; 8]);
    blob.push(0xc3);
    let (b, c) = DeserializeFormat::deserialize(&blob).unwrap().into_engine_state();
    assert!(b.csp.filters.is_empty());
    assert!(b.enable_optimizations);
    assert!(b.resources.entries.is_empty());
    assert!(c.simple_class_rules.elems.is_empty());
    assert!(c.scriptlets.entries.is_empty());
}

#[test]
fn new_record_with_extra_fields_decodes_ignoring_them() {
    // a nineteen-field record from a newer schema: the seventeen known fields,
    // then two unknown trailing values
    let mut blob = HEADER.to_vec();
    blob.extend_from_slice(&[0xdc, 0x00, 0x13]);
    blob.extend_from_slice(&[0x90; 8]);
    blob.push(0xc2);
    blob.extend_from_slice(&[0x90; 8]);
    blob.extend_from_slice(&[0xc0, 0xc0]);
    let parsed = DeserializeFormat::deserialize(&blob).unwrap();
    let (b, c) = parsed.into_engine_state();
    assert!(b.csp.filters.is_empty());
    assert!(!b.enable_optimizations);
    assert!(c.misc_generic_selectors.elems.is_empty());
}

#[test]
fn set_insert_deduplicates() {
    let mut s = StringSet::new();
    s.insert("x".to_string());
    s.insert("x".to_string());
    s.insert("y".to_string());
    assert_eq!(s.elems.len(), 2);
    assert!(s.contains("x"));
    assert!(s.contains("y"));
    assert!(!s.contains("z"));
}

#[test]
fn map_contains_key_reports_membership() {
    let mut m = StringMultiMap::new();
    assert!(!m.contains_key("k"));
    m.insert("k".to_string(), vec!["v".to_string()]);
    assert!(m.contains_key("k"));
    assert!(!m.contains_key("other"));
}

#[test]
fn error_descriptions() {
    assert_eq!(DeserializationError::UnrecognizedFormat.describe(), "unrecognized format");
    assert_eq!(DeserializationError::DecodeFailed.describe(), "decode error");
    assert_eq!(SerializationError::EncodeFailed.describe(), "encode error");
}

#[test]
fn bucket_builder_keeps_order() {
    let mut list = NetworkFilterList::new();
    list.push("first".to_string());
    list.push("second".to_string());
    assert_eq!(list.filters, vec!["first".to_string(), "second".to_string()]);
}
