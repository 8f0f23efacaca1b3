use html_expand::engine::{substitute, substitute_all};
use html_expand::expr::{Context, ExpandError, Warning};
use html_expand::instance::{choose_branch, substitute_if, substitute_loop, substitute_self};
use html_expand::library::{ComponentDefinition, ComponentLibrary, LibraryError};
use html_expand::site::generate_document;
use html_expand::tree::{Attribute, Element, Node};

fn el(name: &str, attrs: &[(&str, &str)], children: Vec<Node>) -> Node {
    Node::Element(Element {
        name: name.to_string(),
        attrs: attrs
            .iter()
            .map(|(k, v)| Attribute { name: k.to_string(), value: v.to_string() })
            .collect(),
        children,
    })
}

fn elem(name: &str, attrs: &[(&str, &str)], children: Vec<Node>) -> Element {
    match el(name, attrs, children) {
        Node::Element(e) => e,
        _ => unreachable!(),
    }
}

fn txt(s: &str) -> Node {
    Node::Text(s.to_string())
}

fn render(n: &Node) -> String {
    match n {
        Node::Element(e) => {
            let mut s = format!("<{}", e.name);
            for a in &e.attrs {
                s += &format!(" {}=\"{}\"", a.name, a.value);
            }
            s += ">";
            for c in &e.children {
                s += &render(c);
            }
            s += &format!("</{}>", e.name);
            s
        }
        Node::Text(t) => t.clone(),
        Node::Comment(t) => format!("<!--{}-->", t),
    }
}

fn render_all(ns: &[Node]) -> String {
    ns.iter().map(render).collect::<Vec<_>>().join("")
}

fn library(defs: Vec<(&str, Vec<Node>)>) -> ComponentLibrary {
    let defs = defs
        .into_iter()
        .map(|(name, body)| ComponentDefinition::new(name.to_string(), body))
        .collect();
    match ComponentLibrary::from_definitions(defs) {
        Ok(lib) => lib,
        Err(_) => panic!("duplicate tag"),
    }
}

fn ctx() -> Context {
    Context::new("/index.html".to_string())
}

fn expand(lib: &ComponentLibrary, doc: Vec<Node>) -> (Result<Vec<Node>, ExpandError>, Vec<Warning>) {
    let mut w = Vec::new();
    let r = substitute_all(&doc, lib, &ctx(), 32, &mut w);
    (r, w)
}

#[test]
fn attribute_in_attribute_value_is_propagated() {
    let lib = library(vec![("foo", vec![el("div", &[("title", "${self.label}")], vec![])])]);
    let (r, w) = expand(&lib, vec![el("foo", &[("label", "X")], vec![])]);
    assert_eq!(render_all(&r.unwrap()), "<div title=\"X\"></div>");
    assert!(w.is_empty());
}

#[test]
fn self_attribute_element_is_replaced_by_value() {
    let lib = library(vec![("foo", vec![el("div", &[], vec![el("self.label", &[], vec![])])])]);
    let (r, w) = expand(&lib, vec![el("foo", &[("label", "X")], vec![])]);
    assert_eq!(render_all(&r.unwrap()), "<div>X</div>");
    assert!(w.is_empty());
}

#[test]
fn missing_label_gives_empty_div_and_warning() {
    let lib = library(vec![("foo", vec![el("div", &[], vec![el("self.label", &[], vec![])])])]);
    let (r, w) = expand(&lib, vec![el("foo", &[("other", "1")], vec![])]);
    assert_eq!(render_all(&r.unwrap()), "<div></div>");
    assert_eq!(w.len(), 1);
    match &w[0] {
        Warning::MissingSelfAttribute { name, available } => {
            assert_eq!(name, "label");
            assert_eq!(available, &vec!["other".to_string()]);
        }
        other => panic!("unexpected warning {:?}", other),
    }
}

#[test]
fn missing_label_in_attribute_gives_empty_value_and_warning() {
    let lib = library(vec![("foo", vec![el("div", &[("title", "${self.label}")], vec![])])]);
    let (r, w) = expand(&lib, vec![el("foo", &[], vec![])]);
    assert_eq!(render_all(&r.unwrap()), "<div title=\"\"></div>");
    assert!(matches!(&w[..], [Warning::MissingAttribute(a)] if a == "label"));
}

#[test]
fn placeholder_in_text_is_expanded() {
    let lib = library(vec![("foo", vec![el("div", &[], vec![txt("${self.label}")])])]);
    let (r, w) = expand(&lib, vec![el("foo", &[("label", "X")], vec![])]);
    assert_eq!(render_all(&r.unwrap()), "<div>X</div>");
    assert!(w.is_empty());
}

#[test]
fn placeholder_in_text_with_missing_attribute_is_empty_with_warning() {
    let lib = library(vec![("foo", vec![el("div", &[], vec![txt("${self.label}")])])]);
    let (r, w) = expand(&lib, vec![el("foo", &[], vec![])]);
    assert_eq!(render_all(&r.unwrap()), "<div></div>");
    assert!(matches!(&w[..], [Warning::MissingAttribute(a)] if a == "label"));
}

fn loop_component() -> ComponentLibrary {
    library(vec![(
        "foo",
        vec![el(
            "ul",
            &[],
            vec![el("foreachchild.item", &[], vec![el("li", &[], vec![el("item", &[], vec![])])])],
        )],
    )])
}

fn self_item_loop_component() -> ComponentLibrary {
    library(vec![(
        "foo",
        vec![el(
            "ul",
            &[],
            vec![el("foreachchild.item", &[], vec![el("li", &[], vec![el("self.item", &[], vec![])])])],
        )],
    )])
}

#[test]
fn loop_with_self_item_repeats_body_for_each_element_child() {
    let lib = self_item_loop_component();
    let doc = vec![el("foo", &[], vec![el("span", &[], vec![txt("A")]), el("span", &[], vec![txt("B")])])];
    let (r, w) = expand(&lib, doc);
    assert_eq!(render_all(&r.unwrap()), "<ul><li><span>A</span></li><li><span>B</span></li></ul>");
    assert!(w.is_empty());
}

#[test]
fn loop_with_self_item_over_no_element_children_is_empty() {
    let lib = self_item_loop_component();
    let (r, _) = expand(&lib, vec![el("foo", &[], vec![])]);
    assert_eq!(render_all(&r.unwrap()), "<ul></ul>");
}

#[test]
fn loop_body_still_reads_invocation_attributes() {
    let lib = library(vec![(
        "foo",
        vec![el(
            "foreachchild.item",
            &[],
            vec![el("p", &[], vec![el("self.title", &[], vec![]), el("self.item", &[("class", "${self.c}")], vec![])])],
        )],
    )]);
    let doc = vec![el("foo", &[("title", "T"), ("c", "k")], vec![el("b", &[], vec![]), txt(" ")])];
    let (r, _) = expand(&lib, doc);
    assert_eq!(render_all(&r.unwrap()), "<p>T<b class=\"k\"></b></p>");
}

#[test]
fn nested_loops_bind_their_own_items() {
    let inner = el("foreachchild.y", &[], vec![el("i", &[], vec![el("self.x", &[], vec![]), el("self.y", &[], vec![])])]);
    let lib = library(vec![("foo", vec![el("foreachchild.x", &[], vec![el("p", &[], vec![inner])])])]);
    let doc = vec![el("foo", &[], vec![el("a", &[], vec![]), el("b", &[], vec![])])];
    let (r, _) = expand(&lib, doc);
    assert_eq!(
        render_all(&r.unwrap()),
        "<p><i><a></a><a></a></i><i><a></a><b></b></i></p><p><i><b></b><a></a></i><i><b></b><b></b></i></p>"
    );
}

#[test]
fn loop_repeats_body_for_each_element_child() {
    let lib = loop_component();
    let doc = vec![el(
        "foo",
        &[],
        vec![txt("\n"), el("span", &[], vec![txt("A")]), txt(" "), el("span", &[], vec![txt("B")])],
    )];
    let (r, _) = expand(&lib, doc);
    assert_eq!(render_all(&r.unwrap()), "<ul><li><span>A</span></li><li><span>B</span></li></ul>");
}

#[test]
fn loop_over_no_element_children_is_empty() {
    let lib = loop_component();
    let (r, _) = expand(&lib, vec![el("foo", &[], vec![txt("only text")])]);
    assert_eq!(render_all(&r.unwrap()), "<ul></ul>");
}

#[test]
fn loop_variable_takes_occurrence_attributes() {
    let inv = elem("foo", &[], vec![el("b", &[("id", "1")], vec![txt("x")])]);
    let kids = vec![el("p", &[], vec![el("self.it", &[("class", "red"), ("id", "2")], vec![])])];
    let r = substitute_loop(&"it".to_string(), &kids, &inv).unwrap();
    assert_eq!(render_all(&r), "<p><b id=\"2\" class=\"red\">x</b></p>");
}

#[test]
fn loop_without_single_body_is_an_error() {
    let inv = elem("foo", &[], vec![]);
    let kids = vec![el("a", &[], vec![]), el("b", &[], vec![])];
    let r = substitute_loop(&"x".to_string(), &kids, &inv);
    assert!(matches!(r, Err(ExpandError::LoopBody(2))));
    let r = substitute_loop(&"x".to_string(), &vec![txt("t")], &inv);
    assert!(matches!(r, Err(ExpandError::LoopBody(0))));
}

fn if_kids() -> Vec<Node> {
    vec![el("then", &[], vec![txt("yes")]), el("else", &[], vec![txt("no")])]
}

fn run_if(kind: Option<&str>, pattern: &str) -> String {
    let attrs: Vec<(&str, &str)> = match kind {
        Some(k) => vec![("kind", k)],
        None => vec![],
    };
    let inv = elem("foo", &attrs, vec![]);
    let cond = vec![Attribute { name: "self.kind".to_string(), value: pattern.to_string() }];
    let mut w = Vec::new();
    render_all(&substitute_if(&cond, &if_kids(), &inv, &ctx(), &mut w).unwrap())
}

#[test]
fn if_takes_then_branch_on_match() {
    assert_eq!(run_if(Some("a"), "a"), "yes");
}

#[test]
fn if_takes_else_branch_otherwise() {
    assert_eq!(run_if(Some("b"), "a"), "no");
    assert_eq!(run_if(None, "a"), "no");
}

#[test]
fn if_pattern_is_anchored() {
    assert_eq!(run_if(Some("ab"), "a"), "no");
    assert_eq!(run_if(Some("ab"), "a.*"), "yes");
}

#[test]
fn if_alternation_must_match_whole_value() {
    assert_eq!(run_if(Some("ax"), "a|b"), "no");
    assert_eq!(run_if(Some("xb"), "a|b"), "no");
    assert_eq!(run_if(Some("b"), "a|b"), "yes");
}

#[test]
fn if_empty_pattern_matches_absent_attribute() {
    assert_eq!(run_if(None, ""), "yes");
}

#[test]
fn if_pattern_placeholders_are_expanded() {
    let inv = elem("foo", &[("kind", "x"), ("want", "x")], vec![]);
    let cond = vec![Attribute { name: "self.kind".to_string(), value: "${self.want}".to_string() }];
    let mut w = Vec::new();
    let r = substitute_if(&cond, &if_kids(), &inv, &ctx(), &mut w).unwrap();
    assert_eq!(render_all(&r), "yes");
}

#[test]
fn if_with_invalid_pattern_is_an_error() {
    let inv = elem("foo", &[("kind", "a")], vec![]);
    let cond = vec![Attribute { name: "self.kind".to_string(), value: "(".to_string() }];
    let mut w = Vec::new();
    let r = substitute_if(&cond, &if_kids(), &inv, &ctx(), &mut w);
    assert!(matches!(r, Err(ExpandError::InvalidPattern(p)) if p == "^(?:()$"));
}

#[test]
fn if_needs_exactly_one_attribute() {
    let inv = elem("foo", &[], vec![]);
    let mut w = Vec::new();
    let r = substitute_if(&vec![], &if_kids(), &inv, &ctx(), &mut w);
    assert!(matches!(r, Err(ExpandError::IfAttributes(0))));
    let two = vec![
        Attribute { name: "self.a".to_string(), value: "".to_string() },
        Attribute { name: "self.b".to_string(), value: "".to_string() },
    ];
    let r = substitute_if(&two, &if_kids(), &inv, &ctx(), &mut w);
    assert!(matches!(r, Err(ExpandError::IfAttributes(2))));
}

#[test]
fn if_without_branches_warns_and_vanishes() {
    let inv = elem("foo", &[("kind", "")], vec![]);
    let cond = vec![Attribute { name: "self.kind".to_string(), value: "".to_string() }];
    let mut w = Vec::new();
    let r = substitute_if(&cond, &vec![txt("ignored")], &inv, &ctx(), &mut w).unwrap();
    assert!(r.is_empty());
    assert!(matches!(&w[..], [Warning::IfWithoutBranches]));
}

#[test]
fn self_inner_copies_invocation_children() {
    let inv = elem("card", &[], vec![txt("hi "), el("b", &[], vec![txt("there")])]);
    let mut w = Vec::new();
    let r = substitute_self(&"inner".chars().collect(), &inv, &mut w);
    assert_eq!(render_all(&r), "hi <b>there</b>");
}

#[test]
fn self_attribute_with_empty_value_is_removed() {
    let inv = elem("card", &[("x", "")], vec![]);
    let mut w = Vec::new();
    let r = substitute_self(&"x".chars().collect(), &inv, &mut w);
    assert!(r.is_empty());
    assert!(w.is_empty());
}

#[test]
fn component_wraps_caller_content() {
    let lib = library(vec![(
        "card",
        vec![el("section", &[("class", "card ${self.variant}")], vec![el("self.inner", &[], vec![])])],
    )]);
    let doc = vec![el("main", &[], vec![el("card", &[("variant", "wide")], vec![el("p", &[], vec![txt("body")])])])];
    let (r, _) = expand(&lib, doc);
    assert_eq!(render_all(&r.unwrap()), "<main><section class=\"card wide\"><p>body</p></section></main>");
}

#[test]
fn nested_mutual_components_resolve() {
    // `outer` calls `inner`, which calls `outer` again with different attributes.
    let lib = library(vec![
        (
            "outer",
            vec![el(
                "if",
                &[("self.depth", "0")],
                vec![
                    el("then", &[], vec![el("inner", &[("depth", "1")], vec![])]),
                    el("else", &[], vec![el("span", &[], vec![el("self.depth", &[], vec![])])]),
                ],
            )],
        ),
        ("inner", vec![el("div", &[], vec![el("outer", &[("depth", "${self.depth}")], vec![])])]),
    ]);
    let (r, _) = expand(&lib, vec![el("outer", &[("depth", "0")], vec![])]);
    let out = r.unwrap();
    assert_eq!(render_all(&out), "<div><span>1</span></div>");
    // a fixed point: expanding again changes nothing
    let mut w = Vec::new();
    let again = substitute_all(&out, &lib, &ctx(), 32, &mut w).unwrap();
    assert_eq!(render_all(&again), render_all(&out));
}

#[test]
fn unbounded_self_reference_is_reported() {
    let lib = library(vec![("loop", vec![el("b", &[], vec![el("loop", &[], vec![])])])]);
    let (r, _) = expand(&lib, vec![el("loop", &[], vec![])]);
    assert!(matches!(r, Err(ExpandError::TooDeep(t)) if t == "loop"));
}

#[test]
fn depth_counts_nesting_not_size() {
    let lib = library(vec![("x", vec![el("i", &[], vec![])]), ("y", vec![el("x", &[], vec![])])]);
    let doc: Vec<Node> = (0..50).map(|_| el("y", &[], vec![])).collect();
    let mut w = Vec::new();
    let r = substitute_all(&doc, &lib, &ctx(), 2, &mut w).unwrap();
    assert_eq!(r.len(), 50);
    let r = substitute_all(&doc, &lib, &ctx(), 1, &mut w);
    assert!(matches!(r, Err(ExpandError::TooDeep(t)) if t == "x"));
}

#[test]
fn expansion_output_has_no_component_tags() {
    let lib = library(vec![("a", vec![el("b", &[], vec![])]), ("b", vec![el("c", &[], vec![txt("z")])])]);
    let (r, _) = expand(&lib, vec![el("a", &[], vec![]), el("p", &[], vec![el("b", &[], vec![])])]);
    assert_eq!(render_all(&r.unwrap()), "<c>z</c><p><c>z</c></p>");
}

#[test]
fn substitute_leaves_plain_nodes_alone() {
    let lib = library(vec![]);
    let mut w = Vec::new();
    let r = substitute(&Node::Comment("c".to_string()), &lib, &ctx(), 0, &mut w).unwrap();
    assert_eq!(render_all(&r), "<!--c-->");
}

#[test]
fn component_body_is_not_changed_by_instantiation() {
    let lib = library(vec![("foo", vec![el("div", &[("t", "${self.v}")], vec![])])]);
    let _ = expand(&lib, vec![el("foo", &[("v", "1")], vec![])]);
    let (r, _) = expand(&lib, vec![el("foo", &[("v", "2")], vec![])]);
    assert_eq!(render_all(&r.unwrap()), "<div t=\"2\"></div>");
    let def = lib.get(&"foo".to_string()).unwrap();
    assert_eq!(render_all(&def.body), "<div t=\"${self.v}\"></div>");
}

#[test]
fn filepath_expression_gives_document_path() {
    let lib = library(vec![("here", vec![el("a", &[("href", "${self.filepath}")], vec![])])]);
    let mut w = Vec::new();
    let c = Context::for_relative_path("blog/post.html");
    let r = substitute_all(&vec![el("here", &[], vec![])], &lib, &c, 4, &mut w).unwrap();
    assert_eq!(render_all(&r), "<a href=\"/blog/post.html\"></a>");
}

#[test]
fn duplicate_tag_names_are_refused() {
    let defs = vec![
        ComponentDefinition::new("a".to_string(), vec![]),
        ComponentDefinition::new("a".to_string(), vec![txt("x")]),
    ];
    let r = ComponentLibrary::from_definitions(defs);
    assert!(matches!(r, Err(LibraryError::DuplicateTag(t)) if t == "a"));
    let mut lib = ComponentLibrary::new();
    assert!(lib.insert(ComponentDefinition::new("a".to_string(), vec![])).is_ok());
    assert!(lib.insert(ComponentDefinition::new("a".to_string(), vec![])).is_err());
    assert_eq!(lib.elements().len(), 1);
    assert!(lib.get(&"b".to_string()).is_none());
}

#[test]
fn generated_document_is_expanded_and_minified() {
    let lib = library(vec![("hello", vec![txt("  Hello,   "), el("b", &[], vec![el("self.who", &[], vec![])]), Node::Comment("x".to_string())])]);
    let doc = vec![el("p", &[], vec![txt("\n  "), el("hello", &[("who", "you")], vec![]), txt("  \n")])];
    let mut w = Vec::new();
    let r = generate_document(&doc, &lib, &ctx(), 8, &mut w).unwrap();
    assert_eq!(render_all(&r), "<p>Hello, <b>you</b></p>");
}

#[test]
fn branch_choice_follows_test_outcome() {
    let mut w = Vec::new();
    assert_eq!(render_all(&choose_branch(&if_kids(), true, &mut w)), "yes");
    assert_eq!(render_all(&choose_branch(&if_kids(), false, &mut w)), "no");
    let only_then = vec![txt(" "), el("then", &[], vec![txt("a"), el("b", &[], vec![])])];
    assert_eq!(render_all(&choose_branch(&only_then, true, &mut w)), "a<b></b>");
    assert!(choose_branch(&only_then, false, &mut w).is_empty());
    assert!(w.is_empty());
    assert!(choose_branch(&vec![txt("x")], true, &mut w).is_empty());
    assert!(matches!(&w[..], [Warning::IfWithoutBranches]));
}

#[test]
fn invocation_values_are_expanded_only_once() {
    let lib = library(vec![(
        "foo",
        vec![el("foreachchild.it", &[], vec![el("self.it", &[("title", "${self.t}")], vec![])])],
    )]);
    let doc = vec![el("foo", &[("t", "${self.u}"), ("u", "U")], vec![el("b", &[], vec![])])];
    let (r, w) = expand(&lib, doc);
    assert_eq!(render_all(&r.unwrap()), "<b title=\"${self.u}\"></b>");
    assert!(w.is_empty());
}

#[test]
fn if_pattern_in_component_is_expanded_once() {
    let lib = library(vec![(
        "foo",
        vec![el(
            "if",
            &[("self.kind", "${self.want}")],
            vec![el("then", &[], vec![txt("same")]), el("else", &[], vec![txt("different")])],
        )],
    )]);
    let (r, _) = expand(&lib, vec![el("foo", &[("kind", "x"), ("want", "x")], vec![])]);
    assert_eq!(render_all(&r.unwrap()), "same");
    let (r, _) = expand(&lib, vec![el("foo", &[("kind", "x"), ("want", "y")], vec![])]);
    assert_eq!(render_all(&r.unwrap()), "different");
}
