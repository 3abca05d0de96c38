use crabquery::{AttributeSpec, Matcher};

#[test]
fn test_matcher_tag() {
    let m = Matcher::from("a");
    assert_eq!(m.tag, vec!["a".to_string()],);
}

#[test]
fn test_matcher_complex() {
    let m = Matcher::from("a.link.another_class#idofel.klass");
    assert_eq!(m.tag, vec!["a".to_string()]);
    assert_eq!(
        m.class,
        vec![
            "link".to_string(),
            "another_class".to_string(),
            "klass".to_string()
        ]
    );
    assert_eq!(m.id, vec!["idofel".to_string()]);
}

#[test]
fn test_matcher_direct_match() {
    let m = Matcher::from(">");
    assert_eq!(m.direct_match, true);
}

#[test]
fn test_matcher_data_attribute_present() {
    let m = Matcher::from("a[target]");
    let mut attr = Vec::new();
    attr.push(("target".to_string(), AttributeSpec::Present));
    assert_eq!(m.attribute, attr);
}

#[test]
fn test_matcher_data_attribute_exact() {
    let m = Matcher::from("a[target=\"_blank\"]");
    let mut attr = Vec::new();
    attr.push((
        "target".to_string(),
        AttributeSpec::Exact("_blank".to_string()),
    ));
    assert_eq!(m.attribute, attr);
}

#[test]
fn test_matcher_data_attribute_starts() {
    let m = Matcher::from("a[target^=\"_blank\"]");
    let mut attr = Vec::new();
    attr.push((
        "target".to_string(),
        AttributeSpec::Starts("_blank".to_string()),
    ));
    assert_eq!(m.attribute, attr);
}

#[test]
fn test_matcher_data_attribute_ends() {
    let m = Matcher::from("a[target$=\"_blank\"]");
    let mut attr = Vec::new();
    attr.push((
        "target".to_string(),
        AttributeSpec::Ends("_blank".to_string()),
    ));
    assert_eq!(m.attribute, attr);
}

#[test]
fn test_matcher_data_attribute_contains() {
    let m = Matcher::from("a[target*=\"_blank\"]");
    let mut attr = Vec::new();
    attr.push((
        "target".to_string(),
        AttributeSpec::Contains("_blank".to_string()),
    ));
    assert_eq!(m.attribute, attr);
}
