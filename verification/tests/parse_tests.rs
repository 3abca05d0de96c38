use crabquery::text::{chars_of, char_is_whitespace, contains, ends_with, split_whitespace, starts_with};
use crabquery::{AttributeSpec, Matcher, ParseError, Selector};

fn entry(name: &str, spec: AttributeSpec) -> (String, AttributeSpec) {
    (name.to_string(), spec)
}

fn words_of(text: &str) -> Vec<String> {
    let chars = chars_of(text);
    split_whitespace(&chars)
        .iter()
        .map(|r| chars[r.0..r.1].iter().collect::<String>())
        .collect()
}

#[test]
fn whitespace_is_the_unicode_property() {
    let mut c = 0u32;
    while c <= 0x10ffff {
        if let Some(ch) = char::from_u32(c) {
            assert_eq!(char_is_whitespace(ch), ch.is_whitespace(), "U+{:04X}", c);
        }
        c += 1;
    }
}

#[test]
fn words_are_the_runs_between_whitespace() {
    assert_eq!(words_of("div.c > a"), vec!["div.c", ">", "a"]);
    assert_eq!(words_of("  a \t\n b\u{3000}c  "), vec!["a", "b", "c"]);
    assert_eq!(words_of(""), Vec::<String>::new());
    assert_eq!(words_of(" \n "), Vec::<String>::new());
    assert_eq!(words_of("único"), vec!["único"]);
    let sample = " one  two\tthree\u{a0}four \u{2003} five";
    let expected: Vec<String> = sample.split_whitespace().map(|w| w.to_string()).collect();
    assert_eq!(words_of(sample), expected);
}

#[test]
fn prefix_suffix_and_substring_tests() {
    let hay = chars_of("blobovo");
    assert!(starts_with(&hay, &chars_of("blob")));
    assert!(!starts_with(&hay, &chars_of("lob")));
    assert!(starts_with(&hay, &chars_of("")));
    assert!(starts_with(&hay, &chars_of("blobovo")));
    assert!(!starts_with(&hay, &chars_of("blobovoo")));
    assert!(ends_with(&hay, &chars_of("ovo")));
    assert!(!ends_with(&hay, &chars_of("ov")));
    assert!(ends_with(&hay, &chars_of("")));
    assert!(contains(&hay, &chars_of("obo")));
    assert!(contains(&hay, &chars_of("blobovo")));
    assert!(contains(&hay, &chars_of("")));
    assert!(contains(&hay, &chars_of("o")));
    assert!(!contains(&hay, &chars_of("oo")));
    assert!(!contains(&hay, &chars_of("blobovob")));
    assert!(contains(&chars_of(""), &chars_of("")));
    assert!(!contains(&chars_of(""), &chars_of("a")));
}

#[test]
fn attribute_operators_on_one_value() {
    let value = "blobovo".to_string();
    assert!(AttributeSpec::Starts("blob".to_string()).matches(value.clone()));
    assert!(AttributeSpec::Ends("ovo".to_string()).matches(value.clone()));
    assert!(AttributeSpec::Contains("obo".to_string()).matches(value.clone()));
    assert!(AttributeSpec::Exact("blobovo".to_string()).matches(value.clone()));
    assert!(!AttributeSpec::Exact("blob".to_string()).matches(value.clone()));
    assert!(AttributeSpec::Present.matches(value.clone()));
    assert!(AttributeSpec::Present.matches(String::new()));
    assert!(!AttributeSpec::Starts("ovo".to_string()).matches(value.clone()));
    assert!(!AttributeSpec::Ends("blob".to_string()).matches(value.clone()));
    assert!(!AttributeSpec::Contains("bob".to_string()).matches(value));
}

#[test]
fn clause_without_equals_asks_for_presence() {
    assert_eq!(
        AttributeSpec::parse("data-counter"),
        Ok(("data-counter".to_string(), AttributeSpec::Present))
    );
    assert_eq!(AttributeSpec::parse(""), Ok((String::new(), AttributeSpec::Present)));
}

#[test]
fn clause_operators() {
    assert_eq!(
        AttributeSpec::parse("href=\"x\""),
        Ok(("href".to_string(), AttributeSpec::Exact("x".to_string())))
    );
    assert_eq!(
        AttributeSpec::parse("href^=\"x\""),
        Ok(("href".to_string(), AttributeSpec::Starts("x".to_string())))
    );
    assert_eq!(
        AttributeSpec::parse("href$=\"x\""),
        Ok(("href".to_string(), AttributeSpec::Ends("x".to_string())))
    );
    assert_eq!(
        AttributeSpec::parse("href*=\"x\""),
        Ok(("href".to_string(), AttributeSpec::Contains("x".to_string())))
    );
}

#[test]
fn clause_value_is_unquoted_and_ends_at_the_next_equals() {
    assert_eq!(
        AttributeSpec::parse("a=x"),
        Ok(("a".to_string(), AttributeSpec::Exact("x".to_string())))
    );
    assert_eq!(
        AttributeSpec::parse("a=\"\"x\"\"\""),
        Ok(("a".to_string(), AttributeSpec::Exact("x".to_string())))
    );
    assert_eq!(
        AttributeSpec::parse("a=\"x\"y\""),
        Ok(("a".to_string(), AttributeSpec::Exact("x\"y".to_string())))
    );
    assert_eq!(
        AttributeSpec::parse("a=\""),
        Ok(("a".to_string(), AttributeSpec::Exact(String::new())))
    );
    assert_eq!(
        AttributeSpec::parse("a="),
        Ok(("a".to_string(), AttributeSpec::Exact(String::new())))
    );
    assert_eq!(
        AttributeSpec::parse("a=\"b=c\""),
        Ok(("a".to_string(), AttributeSpec::Exact("b".to_string())))
    );
}

#[test]
fn clause_with_an_operator_and_no_name_is_the_error() {
    assert_eq!(
        AttributeSpec::parse("^=\"x\""),
        Err(ParseError { clause: "^=\"x\"".to_string() })
    );
    assert_eq!(AttributeSpec::parse("$=x"), Err(ParseError { clause: "$=x".to_string() }));
    assert_eq!(AttributeSpec::parse("*="), Err(ParseError { clause: "*=".to_string() }));
    assert_eq!(
        AttributeSpec::parse("^^=x"),
        Ok(("^".to_string(), AttributeSpec::Starts("x".to_string())))
    );
    assert_eq!(
        AttributeSpec::parse("a^$=x"),
        Ok(("a^".to_string(), AttributeSpec::Ends("x".to_string())))
    );
    assert_eq!(AttributeSpec::parse("^"), Ok(("^".to_string(), AttributeSpec::Present)));
}

#[test]
fn clause_name_may_end_in_any_character() {
    assert_eq!(
        AttributeSpec::parse("é=\"x\""),
        Ok(("é".to_string(), AttributeSpec::Exact("x".to_string())))
    );
    assert_eq!(
        AttributeSpec::parse("né*=\"ü\""),
        Ok(("né".to_string(), AttributeSpec::Contains("ü".to_string())))
    );
}

#[test]
fn clause_that_begins_with_equals_is_the_error() {
    assert_eq!(
        AttributeSpec::parse("=\"x\""),
        Err(ParseError { clause: "=\"x\"".to_string() })
    );
    assert_eq!(AttributeSpec::parse("="), Err(ParseError { clause: "=".to_string() }));
}

#[test]
fn error_message_names_the_clause() {
    let e = ParseError { clause: "=\"x\"".to_string() };
    assert_eq!(e.message(), "could not parse attribute clause \"=\"x\"\"");
}

#[test]
fn matcher_parse_reports_the_first_bad_clause() {
    assert_eq!(
        Matcher::parse("a[=\"x\"][=\"y\"]"),
        Err(ParseError { clause: "=\"x\"".to_string() })
    );
    assert_eq!(
        Matcher::parse("a.b[c][=d"),
        Err(ParseError { clause: "=d".to_string() })
    );
    assert!(Matcher::parse("a[b]").is_ok());
}

#[test]
fn selector_parse_reports_the_first_bad_token() {
    assert_eq!(
        Selector::parse("div > a[=1] b[=2]").unwrap_err(),
        ParseError { clause: "=1".to_string() }
    );
    assert_eq!(Selector::parse("div > a").unwrap().matchers.len(), 3);
}

#[test]
fn marker_is_the_token_that_is_exactly_the_sign() {
    assert!(Matcher::from(">").direct_match);
    assert_eq!(Matcher::from(">"), Matcher::marker());
    let m = Matcher::from("a>b");
    assert!(!m.direct_match);
    assert_eq!(m.tag, vec!["a>b".to_string()]);
    let m = Matcher::from(">>");
    assert!(!m.direct_match);
    assert_eq!(m.tag, vec![">>".to_string()]);
}

#[test]
fn empty_token_is_unconstrained() {
    assert_eq!(Matcher::from(""), Matcher::unconstrained());
    let m = Matcher::unconstrained();
    assert!(m.tag.is_empty() && m.class.is_empty() && m.id.is_empty());
    assert!(m.attribute.is_empty() && !m.direct_match);
}

#[test]
fn segments_go_to_their_lists_in_order() {
    let m = Matcher::from("#i.c1[k=\"v\"]t#j.c2");
    assert_eq!(m.id, vec!["i".to_string(), "j".to_string()]);
    assert_eq!(m.class, vec!["c1".to_string(), "c2".to_string()]);
    assert_eq!(m.tag, vec!["t".to_string()]);
    assert_eq!(m.attribute, vec![entry("k", AttributeSpec::Exact("v".to_string()))]);
    assert!(!m.direct_match);
}

#[test]
fn segment_without_a_name_gives_the_empty_token() {
    let m = Matcher::from("a#.");
    assert_eq!(m.id, vec![String::new()]);
    assert_eq!(m.class, vec![String::new()]);
    let m = Matcher::from("a]]b[");
    assert_eq!(m.tag, vec!["a".to_string(), "b".to_string()]);
    assert_eq!(m.attribute, vec![entry("", AttributeSpec::Present)]);
}

#[test]
fn clause_runs_to_the_closing_bracket() {
    let m = Matcher::from("a[href=\"x.html\"]");
    assert_eq!(m.tag, vec!["a".to_string()]);
    assert!(m.class.is_empty());
    assert!(m.id.is_empty());
    assert_eq!(m.attribute, vec![entry("href", AttributeSpec::Exact("x.html".to_string()))]);
    let m = Matcher::from("a[href=\"#top\"].c#i");
    assert_eq!(m.attribute, vec![entry("href", AttributeSpec::Exact("#top".to_string()))]);
    assert_eq!(m.class, vec!["c".to_string()]);
    assert_eq!(m.id, vec!["i".to_string()]);
    let m = Matcher::from("[src$=\".tar.gz\"][data-x*=\"a[b\"]");
    assert_eq!(
        m.attribute,
        vec![
            entry("src", AttributeSpec::Ends(".tar.gz".to_string())),
            entry("data-x", AttributeSpec::Contains("a[b".to_string())),
        ]
    );
    assert!(m.tag.is_empty() && m.class.is_empty() && m.id.is_empty());
}

#[test]
fn clause_without_a_closing_bracket_runs_to_the_end_of_the_token() {
    let m = Matcher::from("a[href=\"x.y#z");
    assert_eq!(m.tag, vec!["a".to_string()]);
    assert_eq!(m.attribute, vec![entry("href", AttributeSpec::Exact("x.y#z".to_string()))]);
    assert!(m.class.is_empty() && m.id.is_empty());
}

#[test]
fn matcher_parse_reports_a_clause_with_an_operator_and_no_name() {
    assert_eq!(
        Matcher::parse("a[^=\"x.y\"].c"),
        Err(ParseError { clause: "^=\"x.y\"".to_string() })
    );
}

#[test]
fn later_clause_replaces_the_earlier_one_of_the_same_name() {
    let m = Matcher::from("a[x=\"1\"][y][x^=\"2\"]");
    assert_eq!(
        m.attribute,
        vec![
            entry("x", AttributeSpec::Starts("2".to_string())),
            entry("y", AttributeSpec::Present),
        ]
    );
}

#[test]
fn set_attribute_keeps_one_entry_for_each_name() {
    let mut m = Matcher::unconstrained();
    m.set_attribute("a".to_string(), AttributeSpec::Present);
    m.set_attribute("b".to_string(), AttributeSpec::Present);
    m.set_attribute("a".to_string(), AttributeSpec::Exact("1".to_string()));
    assert_eq!(
        m.attribute,
        vec![
            entry("a", AttributeSpec::Exact("1".to_string())),
            entry("b", AttributeSpec::Present),
        ]
    );
}

#[test]
fn add_data_attribute_reads_the_clause() {
    let mut m = Matcher::unconstrained();
    m.add_data_attribute("target$=\"_blank\"".to_string());
    m.add_data_attribute("rel".to_string());
    assert_eq!(
        m.attribute,
        vec![
            entry("target", AttributeSpec::Ends("_blank".to_string())),
            entry("rel", AttributeSpec::Present),
        ]
    );
    assert!(m.tag.is_empty());
}

#[test]
fn selector_from_keeps_the_order_of_the_tokens() {
    let s = Selector::from("  div.container >\tform#feedback input.button ");
    assert_eq!(s.matchers.len(), 4);
    assert_eq!(s.matchers[0], Matcher::from("div.container"));
    assert!(s.matchers[1].direct_match);
    assert_eq!(s.matchers[2].id, vec!["feedback".to_string()]);
    assert_eq!(s.matchers[3].class, vec!["button".to_string()]);
    assert_eq!(Selector::from("").matchers.len(), 0);
    assert_eq!(Selector::from(" \n").matchers.len(), 0);
}
