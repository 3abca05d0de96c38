use crabquery::{
    default_parse_opts, get_attr, Attribute, Document, Element, Matcher, NodeData, ParseError,
    Selector,
};

fn element(name: &str, attrs: &[(&str, &str)]) -> NodeData {
    NodeData::Element {
        name: name.to_string(),
        attrs: attrs
            .iter()
            .map(|(n, v)| Attribute { name: n.to_string(), value: v.to_string() })
            .collect(),
    }
}

fn text(contents: &str) -> NodeData {
    NodeData::Text { contents: contents.to_string() }
}

fn ids(found: &[Element]) -> Vec<String> {
    found.iter().map(|e| e.attr("id").unwrap_or_default()).collect()
}

fn nodes(found: &[Element]) -> Vec<usize> {
    found.iter().map(|e| e.node_index()).collect()
}

#[test]
fn selecting_twice_gives_the_same_elements() {
    let doc = Document::from(
        "<div id='1'><p id='2'><a id='3'>x</a></p><a id='4'>y</a></div><a id='5'>z</a>",
    );
    for selector in ["a", "div a", "div > a", "p a", "#4", ""] {
        let first = nodes(&doc.select(selector));
        let second = nodes(&doc.select(selector));
        assert_eq!(first, second);
    }
    assert_eq!(ids(&doc.select("a")), vec!["3", "4", "5"]);
}

#[test]
fn tag_selector_finds_the_elements_with_the_tag_in_document_order() {
    let doc = Document::from(
        "<div id='1'><section id='2'><div id='3'></div></section><div id='4'><div id='5'></div></div></div><div id='6'></div>",
    );
    assert_eq!(ids(&doc.select("div")), vec!["1", "3", "4", "5", "6"]);
    assert_eq!(ids(&doc.select("section")), vec!["2"]);
    assert_eq!(doc.select("span").len(), 0);
}

#[test]
fn tag_selector_on_a_tree_built_by_hand() {
    let mut doc = Document::new();
    let a = doc.append(0, element("x", &[("id", "a")]));
    let b = doc.append(0, element("x", &[("id", "b")]));
    let c = doc.append(a, element("y", &[("id", "c")]));
    let d = doc.append(a, element("x", &[("id", "d")]));
    let e = doc.append(c, element("x", &[("id", "e")]));
    doc.append(b, text("x"));
    assert_eq!((a, b, c, d, e), (1, 2, 3, 4, 5));
    assert_eq!(doc.len(), 7);
    assert_eq!(nodes(&doc.select("x")), vec![a, e, d, b]);
    assert_eq!(ids(&doc.select("x")), vec!["a", "e", "d", "b"]);
    assert_eq!(nodes(&doc.select("y")), vec![c]);
}

#[test]
fn class_order_does_not_matter() {
    let doc = Document::from(
        "<a class='link button' id='1'>x</a><a class='button' id='2'>y</a><a class='button x link' id='3'>z</a>",
    );
    let first = doc.select("a.link.button");
    let second = doc.select("a.button.link");
    assert_eq!(nodes(&first), nodes(&second));
    assert_eq!(ids(&first), vec!["1", "3"]);
    assert_eq!(ids(&doc.select("a.button.button")), vec!["1", "2", "3"]);
}

#[test]
fn direct_child_and_descendant() {
    let doc = Document::from("<div><span><a id=\"x\">t</a></span></div>");
    assert_eq!(doc.select("div > a").len(), 0);
    let found = doc.select("div a");
    assert_eq!(found.len(), 1);
    assert_eq!(found[0].attr("id"), Some("x".to_string()));
    assert_eq!(found[0].tag(), Some("a".to_string()));
    assert_eq!(ids(&doc.select("div > span > a")), vec!["x"]);
    assert_eq!(ids(&doc.select("span > a")), vec!["x"]);
}

#[test]
fn children_leave_out_text_nodes() {
    let doc = Document::from("<div>one<span>two</span></div>");
    let found = doc.select("div");
    let div = found.first().unwrap();
    let children = div.children();
    assert_eq!(children.len(), 1);
    assert_eq!(children[0].tag(), Some("span".to_string()));
    assert_eq!(div.text(), Some("one".to_string()));
}

#[test]
fn end_to_end_class_and_direct_child() {
    let doc = Document::from("<div class='c'><a id='m' class='l b'>hi</a></div>");
    let found = doc.select("div.c > a.b.l");
    assert_eq!(found.len(), 1);
    assert_eq!(found[0].attr("id"), Some("m".to_string()));
}

#[test]
fn end_to_end_attribute_presence_and_value() {
    let doc = Document::from("<a target='_blank'>x</a>");
    assert_eq!(doc.select("a[target]").len(), 1);
    assert_eq!(doc.select("a[target=\"_blank\"]").len(), 1);
    assert_eq!(doc.select("a[target=\"_self\"]").len(), 0);
}

#[test]
fn attribute_predicate_is_satisfied_where_the_attribute_is_missing() {
    let doc = Document::from(
        "<head>
        <meta property='og:title' content='content'/>
        <meta content='content'/>
        <meta property='og:type' content='content'/>
        </head>",
    );
    let found = doc.select("meta[property=\"og:title\"]");
    assert_eq!(found.len(), 2);
    assert_eq!(found[0].attr("property"), Some("og:title".to_string()));
    assert_eq!(found[1].attr("property"), None);
    assert_eq!(doc.select("meta[property]").len(), 3);
    assert_eq!(doc.select("meta[name^=\"x\"]").len(), 3);
}

#[test]
fn id_is_read_as_a_list_of_tokens() {
    let doc = Document::from("<a id='one  two\tthree' class=''>x</a><a id='two'>y</a><a>z</a>");
    assert_eq!(doc.select("#one#three").len(), 1);
    assert_eq!(doc.select("#two").len(), 2);
    assert_eq!(doc.select("#four").len(), 0);
    assert_eq!(doc.select("a#").len(), 0);
    assert_eq!(doc.select("a").len(), 3);
    assert_eq!(doc.select("a.x").len(), 0);
}

#[test]
fn any_of_several_tags_is_accepted() {
    let doc = Document::from("<a id='1'>x</a><b id='2'>y</b><i id='3'>z</i>");
    assert_eq!(ids(&doc.select("a[id]b")), vec!["1", "2"]);
}

#[test]
fn a_node_of_the_working_set_is_tested_itself() {
    let doc = Document::from("<div id='1'></div>");
    assert_eq!(ids(&doc.select("div div")), vec!["1"]);
    assert_eq!(doc.select("div > div").len(), 0);
}

#[test]
fn a_node_below_two_nodes_of_the_working_set_is_found_twice() {
    let doc = Document::from("<div><div><a id='x'>t</a></div></div>");
    assert_eq!(ids(&doc.select("div a")), vec!["x", "x"]);
    assert_eq!(ids(&doc.select("div > a")), vec!["x"]);
}

#[test]
fn empty_selector_gives_the_children_of_the_scope() {
    let doc = Document::from("<p>x</p>");
    let found = doc.select("");
    assert_eq!(found.len(), 1);
    assert_eq!(found[0].tag(), Some("html".to_string()));
    let p = doc.select("p");
    let inside = p[0].select(" ");
    assert_eq!(inside.len(), 1);
    assert_eq!(inside[0].tag(), None);
}

#[test]
fn marker_at_the_end_gives_all_children() {
    let doc = Document::from("<div>one<span>two</span><!-- c --></div>");
    let found = doc.select("div >");
    assert_eq!(found.len(), 3);
    assert_eq!(found[0].tag(), None);
    assert_eq!(found[1].tag(), Some("span".to_string()));
    assert_eq!(found[2].tag(), None);
    assert_eq!(doc.select("div > >").len(), 1);
    assert_eq!(doc.select("> > > span").len(), 1);
}

#[test]
fn element_select_starts_from_the_children() {
    let doc = Document::from("<span id='o'><a class='link' id='i'>hi<span id='n'></span></a></span>");
    let outer = doc.select("span");
    assert_eq!(ids(&outer), vec!["o", "n"]);
    assert_eq!(ids(&outer[0].select("span")), vec!["n"]);
    assert_eq!(ids(&outer[0].select("a")), vec!["i"]);
    assert_eq!(ids(&outer[0].select("> span")), vec!["n"]);
    assert_eq!(outer[1].select("span").len(), 0);
}

#[test]
fn try_select_returns_the_error_of_the_selector() {
    let doc = Document::from("<a>x</a>");
    assert_eq!(
        doc.try_select("a[=\"x\"]").err(),
        Some(ParseError { clause: "=\"x\"".to_string() })
    );
    assert_eq!(doc.try_select("a").unwrap().len(), 1);
    let a = doc.select("a");
    assert_eq!(a[0].try_select("b [=]").err(), Some(ParseError { clause: "=".to_string() }));
    assert_eq!(a[0].try_select("b").unwrap().len(), 0);
}

#[test]
fn text_joins_the_text_children_only() {
    let doc = Document::from("<p>one<b>two</b>three<i>four</i></p><p></p>");
    let found = doc.select("p");
    assert_eq!(found[0].text(), Some("onethree".to_string()));
    assert_eq!(found[1].text(), Some(String::new()));
    assert_eq!(doc.select("b")[0].text(), Some("two".to_string()));
}

#[test]
fn tag_and_attr_of_a_node_that_is_no_element() {
    let doc = Document::from("<p id='p'>one</p>");
    let root = doc.root();
    assert_eq!(root.node_index(), 0);
    assert_eq!(root.tag(), None);
    assert_eq!(root.attr("id"), None);
    assert!(root.parent().is_none());
    assert_eq!(root.text(), Some(String::new()));
    let inside = doc.select("p >");
    assert_eq!(inside[0].tag(), None);
    assert_eq!(inside[0].attr("id"), None);
    assert_eq!(inside[0].parent().unwrap().attr("id"), Some("p".to_string()));
}

#[test]
fn parent_of_a_top_level_element_is_the_root() {
    let doc = Document::from("<p>one</p>");
    let html = doc.select("html");
    assert_eq!(html.len(), 1);
    let parent = html[0].parent().unwrap();
    assert_eq!(parent.tag(), None);
    assert_eq!(parent.node_index(), 0);
    assert!(parent.parent().is_none());
    let p = doc.select("p");
    assert_eq!(p[0].parent().unwrap().tag(), Some("body".to_string()));
}

#[test]
fn attr_is_the_first_attribute_of_that_exact_name() {
    let attrs = vec![
        Attribute { name: "a".to_string(), value: "1".to_string() },
        Attribute { name: "b".to_string(), value: "2".to_string() },
        Attribute { name: "a".to_string(), value: "3".to_string() },
    ];
    assert_eq!(get_attr(&attrs, "a"), Some("1".to_string()));
    assert_eq!(get_attr(&attrs, "b"), Some("2".to_string()));
    assert_eq!(get_attr(&attrs, "A"), None);
    assert_eq!(get_attr(&attrs, ""), None);
    assert_eq!(get_attr(&Vec::new(), "a"), None);
    let doc = Document::from("<a HREF='x' Data-X='y'>t</a>");
    let a = doc.select("a");
    assert_eq!(a[0].attr("href"), Some("x".to_string()));
    assert_eq!(a[0].attr("HREF"), None);
    assert_eq!(a[0].attr("data-x"), Some("y".to_string()));
}

#[test]
fn matcher_tests_one_element() {
    let attrs = vec![
        Attribute { name: "id".to_string(), value: "main top".to_string() },
        Attribute { name: "class".to_string(), value: " l  b ".to_string() },
        Attribute { name: "href".to_string(), value: "blobovo".to_string() },
    ];
    assert!(Matcher::from("a").matches("a", &attrs));
    assert!(!Matcher::from("a").matches("b", &attrs));
    assert!(Matcher::from("").matches("b", &attrs));
    assert!(Matcher::from(".b.l#top").matches("a", &attrs));
    assert!(!Matcher::from(".b.x").matches("a", &attrs));
    assert!(!Matcher::from("#main#x").matches("a", &attrs));
    assert!(Matcher::from("[href^=\"blob\"][href$=\"ovo\"]").matches("a", &attrs));
    assert!(Matcher::from("[href$=\"ovo\"]").matches("a", &attrs));
    assert!(Matcher::from("[href*=\"obo\"]").matches("a", &attrs));
    assert!(!Matcher::from("[href=\"blob\"]").matches("a", &attrs));
    assert!(!Matcher::from("[id][href=\"blob\"][class]").matches("a", &attrs));
    assert!(Matcher::from("[rel=\"x\"]").matches("a", &attrs));
    assert!(!Matcher::from("#main").matches("a", &Vec::new()));
    assert!(!Matcher::from(".l").matches("a", &Vec::new()));
    assert!(Matcher::from("a").matches("a", &Vec::new()));
}

#[test]
fn find_nodes_in_both_modes() {
    let mut doc = Document::new();
    let a = doc.append(0, element("a", &[]));
    let b = doc.append(a, element("b", &[]));
    let c = doc.append(b, element("a", &[]));
    let d = doc.append(0, text("a"));
    let selector = Selector::from("a");
    let matcher = Matcher::from("a");
    assert_eq!(selector.find_nodes(&doc, &matcher, vec![a, d], false), vec![a, c]);
    assert_eq!(selector.find_nodes(&doc, &matcher, vec![a, b, c, d], true), vec![a, c]);
    assert_eq!(selector.find_nodes(&doc, &matcher, vec![b, a], false), vec![c, a, c]);
    assert_eq!(selector.find_nodes(&doc, &matcher, vec![], false), Vec::<usize>::new());
    assert_eq!(nodes(&selector.find(&doc, &vec![b])), vec![c]);
    assert_eq!(nodes(&Selector::from("> a").find(&doc, &vec![b, a])), vec![c]);
}

#[test]
fn document_built_by_hand() {
    let mut doc = Document::new();
    assert_eq!(doc.len(), 1);
    assert!(matches!(doc.data(0), NodeData::Other));
    assert_eq!(doc.parent_of(0), None);
    assert!(doc.children_of(0).is_empty());
    let div = doc.append(0, element("div", &[("class", "c")]));
    let one = doc.append(div, text("one"));
    let span = doc.append(div, element("span", &[]));
    let two = doc.append(span, text("two"));
    let other = doc.append(div, NodeData::Other);
    let three = doc.append(div, text("three"));
    assert_eq!(doc.len(), 7);
    assert_eq!(doc.children_of(0), &vec![div]);
    assert_eq!(doc.children_of(div), &vec![one, span, other, three]);
    assert_eq!(doc.children_of(span), &vec![two]);
    assert_eq!(doc.parent_of(two), Some(span));
    assert_eq!(doc.parent_of(div), Some(0));
    let found = doc.select("div.c");
    assert_eq!(nodes(&found), vec![div]);
    assert_eq!(found[0].text(), Some("onethree".to_string()));
    assert_eq!(nodes(&found[0].children()), vec![span]);
    assert_eq!(nodes(&doc.select("div >")), vec![one, span, other, three]);
    assert_eq!(Element::from(&doc, two).parent().unwrap().node_index(), span);
    assert_eq!(Element::from(&doc, two).tag(), None);
    assert_eq!(Element::from(&doc, span).tag(), Some("span".to_string()));
}

#[test]
fn doctype_is_dropped_and_markup_is_repaired() {
    assert!(default_parse_opts().drop_doctype);
    let doc = Document::from("<!DOCTYPE html><title>t</title><p>one<p>two");
    assert_eq!(doc.children_of(0).len(), 1);
    assert_eq!(doc.root().children().len(), 1);
    assert_eq!(doc.select("html > head > title").len(), 1);
    let p = doc.select("html > body > p");
    assert_eq!(p.len(), 2);
    assert_eq!(p[1].text(), Some("two".to_string()));
    let empty = Document::from("");
    assert_eq!(empty.select("html").len(), 1);
    assert_eq!(empty.select("body").len(), 1);
}

#[test]
fn text_of_any_language_is_kept() {
    let doc = Document::from("<p class='né ü' title='日本語'>grüße — 日本語</p>");
    let p = doc.select("p.ü");
    assert_eq!(p.len(), 1);
    assert_eq!(p[0].text(), Some("grüße — 日本語".to_string()));
    assert_eq!(doc.select("p[title*=\"本\"]").len(), 1);
    assert_eq!(doc.select("p[title$=\"本\"]").len(), 0);
}

#[test]
fn document_order_lists_every_element_once() {
    let mut doc = Document::new();
    let a = doc.append(0, element("a", &[]));
    let b = doc.append(0, element("b", &[]));
    let c = doc.append(a, element("c", &[]));
    let d = doc.append(b, element("d", &[]));
    let e = doc.append(a, element("e", &[]));
    let f = doc.append(c, element("f", &[]));
    let all = nodes(&doc.select("[none]"));
    assert_eq!(all, vec![a, c, f, e, b, d]);
    let mut sorted = all.clone();
    sorted.sort();
    assert_eq!(sorted, (1..doc.len()).collect::<Vec<usize>>());
}

#[test]
fn chain_is_the_shape_of_a_selector() {
    assert!(Selector::from("a").is_chain());
    assert!(Selector::from("a b").is_chain());
    assert!(Selector::from("a > b c > d").is_chain());
    assert!(!Selector::from("").is_chain());
    assert!(!Selector::from(">").is_chain());
    assert!(!Selector::from("> a").is_chain());
    assert!(!Selector::from("a >").is_chain());
    assert!(!Selector::from("a > > b").is_chain());
}

#[test]
fn a_chain_selects_elements_only() {
    let doc = Document::from("<div>one<span>two</span><!-- c --><p>x</p></div>");
    for selector in ["div > span", "div p", "div > [x]", "[x] > [y]"] {
        assert!(Selector::from(selector).is_chain());
        for found in doc.select(selector) {
            assert!(found.tag().is_some());
        }
    }
    assert_eq!(doc.select("div > [x]").len(), 2);
}

#[test]
fn values_with_dots_and_hashes_select() {
    let doc = Document::from(
        "<a id='1' href='x.html'>x</a><a id='2' href='y.html#top'>y</a><a id='3' href='x' class='html'>z</a>",
    );
    assert_eq!(ids(&doc.select("a[href=\"x.html\"]")), vec!["1"]);
    assert_eq!(ids(&doc.select("a[href$=\".html\"]")), vec!["1"]);
    assert_eq!(ids(&doc.select("a[href*=\"#\"]")), vec!["2"]);
    assert_eq!(ids(&doc.select("a[href=\"x\"].html")), vec!["3"]);
}
