use html_expand::expr::{evaluate_expression, expand_string, matches_pattern, Context, ExpandError, Warning};
use html_expand::minify::{is_whitespace, minify_nodes, minify_string};
use html_expand::site::{is_hidden, template_stem};
use html_expand::tree::{Attribute, Element, Node};

fn attrs_of(pairs: &[(&str, &str)]) -> Vec<Attribute> {
    pairs
        .iter()
        .map(|(k, v)| Attribute { name: k.to_string(), value: v.to_string() })
        .collect()
}

fn page_ctx() -> Context {
    Context::new("/docs/a.html".to_string())
}

fn expand_with(s: &str, pairs: &[(&str, &str)]) -> (String, Vec<Warning>) {
    let mut w = Vec::new();
    let r = expand_string(s, &attrs_of(pairs), &page_ctx(), &mut w);
    (r, w)
}

#[test]
fn default_value_uses_first_when_set() {
    let (r, w) = expand_with("${self.title||self.fallback}", &[("title", "T"), ("fallback", "F")]);
    assert_eq!(r, "T");
    assert!(w.is_empty());
}

#[test]
fn default_value_falls_back_when_first_is_empty() {
    let (r, _) = expand_with("${self.title||self.fallback}", &[("title", ""), ("fallback", "F")]);
    assert_eq!(r, "F");
    let (r, _) = expand_with("${self.title||self.fallback}", &[("fallback", "F")]);
    assert_eq!(r, "F");
}

#[test]
fn default_value_with_both_absent_is_empty() {
    let (r, w) = expand_with("${self.title||self.fallback}", &[]);
    assert_eq!(r, "");
    assert_eq!(w.len(), 2);
    assert!(matches!(&w[0], Warning::MissingAttribute(a) if a == "title"));
    assert!(matches!(&w[1], Warning::MissingAttribute(a) if a == "fallback"));
}

#[test]
fn filepath_expression() {
    let (r, _) = expand_with("at ${self.filepath}!", &[]);
    assert_eq!(r, "at /docs/a.html!");
}

#[test]
fn unrecognized_expression_is_empty_with_warning() {
    let (r, w) = expand_with("[${title}]", &[("title", "x")]);
    assert_eq!(r, "[]");
    assert!(matches!(&w[..], [Warning::UnrecognizedExpression(e)] if e == "title"));
}

#[test]
fn malformed_placeholders_stay_literal() {
    let (r, w) = expand_with("${} ${a b} $x {y} ${self.v", &[("v", "1")]);
    assert_eq!(r, "${} ${a b} $x {y} ${self.v");
    assert!(w.is_empty());
}

#[test]
fn expansion_is_single_pass() {
    let (r, _) = expand_with("${self.a}${self.b}", &[("a", "${self.b}"), ("b", "B")]);
    assert_eq!(r, "${self.b}B");
}

#[test]
fn or_needs_names_on_both_sides() {
    let mut w = Vec::new();
    let e: Vec<char> = "self.a|||self.b".chars().collect();
    let r = evaluate_expression(&e, &attrs_of(&[("a", "1")]), &page_ctx(), &mut w);
    assert_eq!(r, "");
    assert!(matches!(&w[..], [Warning::MissingAttribute(a)] if a == "a|||self.b"));
}

#[test]
fn pattern_match_uses_regex() {
    let mut w = Vec::new();
    let attrs = attrs_of(&[("n", "aaa")]);
    let e: Vec<char> = "self.n".chars().collect();
    assert!(matches_pattern(&e, "a+", &attrs, &page_ctx(), &mut w).unwrap());
    assert!(!matches_pattern(&e, "b", &attrs, &page_ctx(), &mut w).unwrap());
    assert!(matches!(
        matches_pattern(&e, "[", &attrs, &page_ctx(), &mut w),
        Err(ExpandError::InvalidPattern(_))
    ));
}

#[test]
fn whitespace_is_collapsed() {
    assert_eq!(minify_string(&"  a \t\n b  ".to_string(), false, false).unwrap(), "a b");
    assert_eq!(minify_string(&"  a  b  ".to_string(), true, true).unwrap(), " a b ");
    assert_eq!(minify_string(&"a  ".to_string(), true, true).unwrap(), "a ");
    assert!(minify_string(&" \n\u{a0} ".to_string(), true, true).is_none());
    assert!(minify_string(&"".to_string(), false, false).is_none());
}

#[test]
fn whitespace_matches_std() {
    for c in ['\t', '\n', ' ', '\u{85}', '\u{a0}', '\u{2003}', '\u{3000}', 'a', '\u{200b}', '_'] {
        assert_eq!(is_whitespace(c), c.is_whitespace());
    }
}

#[test]
fn minify_removes_comments_and_blank_text() {
    let doc = vec![
        Node::Comment("c".to_string()),
        Node::Text("\n  ".to_string()),
        Node::Element(Element {
            name: "p".to_string(),
            attrs: vec![],
            children: vec![
                Node::Text(" one ".to_string()),
                Node::Element(Element { name: "i".to_string(), attrs: vec![], children: vec![] }),
                Node::Text(" two ".to_string()),
            ],
        }),
        Node::Text("  tail".to_string()),
    ];
    let r = minify_nodes(&doc);
    assert_eq!(r.len(), 2);
    match &r[0] {
        Node::Element(e) => {
            let texts: Vec<String> = e
                .children
                .iter()
                .map(|c| match c {
                    Node::Text(t) => t.clone(),
                    Node::Element(x) => format!("<{}>", x.name),
                    Node::Comment(_) => "comment".to_string(),
                })
                .collect();
            assert_eq!(texts, vec!["one ".to_string(), "<i>".to_string(), " two".to_string()]);
        }
        _ => panic!("expected element"),
    }
    assert!(matches!(&r[1], Node::Text(t) if t == " tail"));
}

#[test]
fn non_html_files_are_copied() {
    assert!(template_stem("style.css").is_none());
    assert!(template_stem("notes.htm").is_none());
    assert!(template_stem(".html").is_none());
    assert!(template_stem("html").is_none());
}

#[test]
fn html_files_are_templates() {
    assert_eq!(template_stem("index.html").unwrap(), "index");
    assert_eq!(template_stem("a.b.html").unwrap(), "a.b");
    assert_eq!(template_stem(".x.html").unwrap(), ".x");
}

#[test]
fn hidden_entries_are_recognised() {
    assert!(is_hidden(".git"));
    assert!(!is_hidden("index.html"));
    assert!(!is_hidden(""));
}

#[test]
fn context_path_gets_leading_slash() {
    assert_eq!(Context::for_relative_path("a/b.html").file_path, "/a/b.html");
}


#[test]
fn boundary_space_needs_a_remaining_neighbour() {
    let doc = vec![Node::Text("a ".to_string()), Node::Comment("c".to_string())];
    let r = minify_nodes(&doc);
    assert!(matches!(&r[..], [Node::Text(t)] if t == "a"));
    let doc = vec![Node::Comment("c".to_string()), Node::Text(" a".to_string())];
    let r = minify_nodes(&doc);
    assert!(matches!(&r[..], [Node::Text(t)] if t == "a"));
    let doc = vec![
        Node::Text("a ".to_string()),
        Node::Text(" \n ".to_string()),
        Node::Element(Element { name: "b".to_string(), attrs: vec![], children: vec![] }),
    ];
    let r = minify_nodes(&doc);
    assert_eq!(r.len(), 2);
    assert!(matches!(&r[0], Node::Text(t) if t == "a "));
    let doc = vec![Node::Text("a ".to_string()), Node::Text(" b ".to_string())];
    let r = minify_nodes(&doc);
    assert!(matches!(&r[..], [Node::Text(x), Node::Text(y)] if x == "a " && y == " b"));
}
