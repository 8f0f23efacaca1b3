use vstd::prelude::*;
use crate::expr::{
    Context, Warning, Diag, ExpandError, Failure, expand, expand_diags, expand_string, grows, lemma_grows_trans,
    lemma_grows_refl, lemma_grows_append, lemma_grows_push, pattern_outcome, pattern_diags, matches_pattern, diags, all_name_chars, attr_or_empty,
    lemma_self_reference, law_placeholder_is_replaced_by_value,
};
use crate::text::{append_chars, chars_of, has_lit_at, is_lit, string_of, string_of_range};
use crate::tree::{
    Tree, Node, Element, Attribute, attrs_view, attr_view, nodes_view, empty_text, concat,
    lookup, merge_attrs, set_attribute, find_attr, lemma_concat_step, lemma_view_element, duplicate_attrs,
    duplicate_nodes,
};

verus! {

broadcast use lemma_grows_trans;

/// Model of a result of expansion.
pub open spec fn res_view(r: Result<Vec<Node>, ExpandError>) -> Result<Seq<Tree>, Failure> {
    match r {
        Ok(v) => Ok(nodes_view(v@)),
        Err(e) => Err(e@),
    }
}

/// Attributes with every value expanded against the invocation.
pub open spec fn expand_attr_list(
    attrs: Seq<(Seq<char>, Seq<char>)>,
    inv_attrs: Seq<(Seq<char>, Seq<char>)>,
    path: Seq<char>,
) -> Seq<(Seq<char>, Seq<char>)> {
    attrs.map_values(|a: (Seq<char>, Seq<char>)| (a.0, expand(a.1, inv_attrs, path)))
}

/// `t` with every placeholder expanded against the invocation: in each
/// attribute value of every element, and in every text node. The attribute of
/// an `<if>` is its test, whose pattern is expanded once, when it is tested.
pub open spec fn expand_attrs_tree(t: Tree, inv_attrs: Seq<(Seq<char>, Seq<char>)>, path: Seq<char>) -> Tree
    decreases t,
{
    match t {
        Tree::Element { name, attrs, children } => Tree::Element {
            name,
            attrs: if name == "if"@ {
                attrs
            } else {
                expand_attr_list(attrs, inv_attrs, path)
            },
            children: Seq::new(
                children.len(),
                |i: int|
                    if 0 <= i < children.len() {
                        expand_attrs_tree(children[i], inv_attrs, path)
                    } else {
                        empty_text()
                    },
            ),
        },
        Tree::Text { text } => Tree::Text { text: expand(text, inv_attrs, path) },
        _ => t,
    }
}

/// Warnings from expanding the values of `attrs`, in order.
pub open spec fn attrs_diags(
    attrs: Seq<(Seq<char>, Seq<char>)>,
    inv_attrs: Seq<(Seq<char>, Seq<char>)>,
    path: Seq<char>,
) -> Seq<Diag>
    decreases attrs.len(),
{
    if attrs.len() == 0 {
        Seq::empty()
    } else {
        attrs_diags(attrs.drop_last(), inv_attrs, path) + expand_diags(attrs.last().1, inv_attrs, path)
    }
}

/// Warnings from [`expand_attrs_tree`]: an element's own attributes, then its
/// children's; a text node's placeholders.
pub open spec fn expand_attrs_diags(t: Tree, inv_attrs: Seq<(Seq<char>, Seq<char>)>, path: Seq<char>) -> Seq<Diag>
    decreases t, 0int,
{
    match t {
        Tree::Element { name, attrs, children } => (if name == "if"@ {
            Seq::empty()
        } else {
            attrs_diags(attrs, inv_attrs, path)
        }) + expand_attrs_diags_prefix(
            children,
            children.len() as int,
            inv_attrs,
            path,
        ),
        Tree::Text { text } => expand_diags(text, inv_attrs, path),
        _ => Seq::empty(),
    }
}

/// Warnings from [`expand_attrs_tree`] over the first `n` nodes of `s`.
pub open spec fn expand_attrs_diags_prefix(
    s: Seq<Tree>,
    n: int,
    inv_attrs: Seq<(Seq<char>, Seq<char>)>,
    path: Seq<char>,
) -> Seq<Diag>
    decreases s, n,
{
    if n <= 0 || n > s.len() {
        Seq::empty()
    } else {
        expand_attrs_diags_prefix(s, n - 1, inv_attrs, path) + expand_attrs_diags(s[n - 1], inv_attrs, path)
    }
}

/// The placeholder `${self.a}`.
pub open spec fn self_placeholder(a: Seq<char>) -> Seq<char> {
    seq!['$', '{'] + ("self."@ + a) + seq!['}']
}

/// A text `${self.a}` in a component body (`a` a name other than
/// `filepath`) becomes the value of the invocation's attribute `a`, empty where
/// the invocation lacks it; in that case one missing-attribute warning is
/// recorded, and none otherwise.
pub proof fn law_text_reference_to_attribute(
    a: Seq<char>,
    inv_attrs: Seq<(Seq<char>, Seq<char>)>,
    path: Seq<char>,
)
    requires
        all_name_chars(a),
        a != "filepath"@,
    ensures
        expand_attrs_tree((Tree::Text { text: self_placeholder(a) }), inv_attrs, path) == (Tree::Text {
            text: attr_or_empty(inv_attrs, a),
        }),
        expand_attrs_diags((Tree::Text { text: self_placeholder(a) }), inv_attrs, path) == (if lookup(
            inv_attrs,
            a,
        ) is None {
            seq![Diag::MissingAttribute(a)]
        } else {
            Seq::<Diag>::empty()
        }),
{
    lemma_self_reference(a, inv_attrs, path);
    reveal_strlit("self.");
    law_placeholder_is_replaced_by_value("self."@ + a, inv_attrs, path);
}

fn expand_attribute_values(
    attrs: &Vec<Attribute>,
    inv: &Element,
    ctx: &Context,
    warnings: &mut Vec<Warning>,
) -> (r: Vec<Attribute>)
    ensures
        attrs_view(r@) == expand_attr_list(attrs_view(attrs@), attrs_view(inv.attrs@), ctx.file_path@),
        diags(final(warnings)@) == diags(old(warnings)@) + attrs_diags(attrs_view(attrs@), attrs_view(inv.attrs@), ctx.file_path@),
        grows(old(warnings)@, final(warnings)@),
{
    proof {
        lemma_grows_refl(warnings@);
    }
    let ghost av = attrs_view(attrs@);
    let ghost w0 = diags(warnings@);
    assert(av.subrange(0, 0) =~= Seq::<(Seq<char>, Seq<char>)>::empty());
    assert(w0 =~= w0 + Seq::<Diag>::empty());
    let mut r: Vec<Attribute> = Vec::new();
    let mut i: usize = 0;
    while i < attrs.len()
        invariant
            i <= attrs@.len(),
            r@.len() == i,
            forall|k: int|
                0 <= k < i ==> attr_view(#[trigger] r@[k]) == (
                    attrs@[k].name@,
                    expand(attrs@[k].value@, attrs_view(inv.attrs@), ctx.file_path@),
                ),
            grows(old(warnings)@, warnings@),
            av == attrs_view(attrs@),
            w0 == diags(old(warnings)@),
            diags(warnings@) == w0 + attrs_diags(av.subrange(0, i as int), attrs_view(inv.attrs@), ctx.file_path@),
        decreases attrs.len() - i,
    {
        let ghost w1 = warnings@;
        assert(av.subrange(0, i + 1).drop_last() =~= av.subrange(0, i as int));
        assert(av[i as int] == attr_view(attrs@[i as int]));
        let v = expand_string(attrs[i].value.as_str(), &inv.attrs, ctx, warnings);
        proof {
            lemma_grows_append(w1, warnings@, expand_diags(attrs@[i as int].value@, attrs_view(inv.attrs@), ctx.file_path@));
        }
        r.push(Attribute { name: attrs[i].name.clone(), value: v });
        i = i + 1;
        assert(diags(warnings@) =~= w0 + attrs_diags(av.subrange(0, i as int), attrs_view(inv.attrs@), ctx.file_path@));
    }
    assert(av.subrange(0, i as int) =~= av);
    assert(attrs_view(r@) =~= expand_attr_list(attrs_view(attrs@), attrs_view(inv.attrs@), ctx.file_path@));
    r
}

/// Expands the placeholders of `n` and of all its descendants: in attribute
/// values and in text.
pub fn expand_attrs_node(n: &Node, inv: &Element, ctx: &Context, warnings: &mut Vec<Warning>) -> (r: Node)
    ensures
        r@ == expand_attrs_tree(n@, attrs_view(inv.attrs@), ctx.file_path@),
        diags(final(warnings)@) == diags(old(warnings)@) + expand_attrs_diags(n@, attrs_view(inv.attrs@), ctx.file_path@),
        grows(old(warnings)@, final(warnings)@),
    decreases n, 1int,
{
    let ghost w0 = diags(warnings@);
    match n {
        Node::Element(e) => {
            proof {
                lemma_view_element(e);
            }
            assert(n@ == e@);
            let attrs = if is_lit(&chars_of(e.name.as_str()), "if") {
                assert(diags(warnings@) =~= w0 + Seq::<Diag>::empty());
                duplicate_attrs(&e.attrs)
            } else {
                expand_attribute_values(&e.attrs, inv, ctx, warnings)
            };
            let kids = expand_attrs_nodes(&e.children, inv, ctx, warnings);
            assert(diags(warnings@) =~= w0 + expand_attrs_diags(n@, attrs_view(inv.attrs@), ctx.file_path@));
            let r = Element { name: e.name.clone(), attrs, children: kids };
            proof {
                lemma_view_element(&r);
                assert(r@->Element_children =~= expand_attrs_tree(n@, attrs_view(inv.attrs@), ctx.file_path@)->Element_children);
            }
            Node::Element(r)
        },
        Node::Text(t) => {
            let ghost w1 = warnings@;
            let x = expand_string(t.as_str(), &inv.attrs, ctx, warnings);
            proof {
                lemma_grows_append(w1, warnings@, expand_diags(t@, attrs_view(inv.attrs@), ctx.file_path@));
            }
            Node::Text(x)
        },
        Node::Comment(t) => {
            proof {
                lemma_grows_refl(warnings@);
                assert(diags(warnings@) =~= w0 + Seq::<Diag>::empty());
            }
            Node::Comment(t.clone())
        },
    }
}

fn expand_attrs_nodes(ns: &Vec<Node>, inv: &Element, ctx: &Context, warnings: &mut Vec<Warning>) -> (r: Vec<Node>)
    ensures
        r@.len() == ns@.len(),
        forall|k: int|
            0 <= k < ns@.len() ==> (#[trigger] r@[k])@ == expand_attrs_tree(ns@[k]@, attrs_view(inv.attrs@), ctx.file_path@),
        diags(final(warnings)@) == diags(old(warnings)@) + expand_attrs_diags_prefix(
            nodes_view(ns@),
            ns@.len() as int,
            attrs_view(inv.attrs@),
            ctx.file_path@,
        ),
        grows(old(warnings)@, final(warnings)@),
    decreases ns, 0int,
{
    proof {
        lemma_grows_refl(warnings@);
    }
    let ghost s = nodes_view(ns@);
    let ghost w0 = diags(warnings@);
    assert(w0 =~= w0 + Seq::<Diag>::empty());
    let mut r: Vec<Node> = Vec::new();
    let mut i: usize = 0;
    while i < ns.len()
        invariant
            i <= ns@.len(),
            r@.len() == i,
            forall|k: int|
                0 <= k < i ==> (#[trigger] r@[k])@ == expand_attrs_tree(ns@[k]@, attrs_view(inv.attrs@), ctx.file_path@),
            grows(old(warnings)@, warnings@),
            s == nodes_view(ns@),
            w0 == diags(old(warnings)@),
            diags(warnings@) == w0 + expand_attrs_diags_prefix(s, i as int, attrs_view(inv.attrs@), ctx.file_path@),
        decreases ns.len() - i,
    {
        assert(s[i as int] == ns@[i as int]@);
        let x = expand_attrs_node(&ns[i], inv, ctx, warnings);
        r.push(x);
        i = i + 1;
        assert(diags(warnings@) =~= w0 + expand_attrs_diags_prefix(s, i as int, attrs_view(inv.attrs@), ctx.file_path@));
    }
    r
}

/// The element nodes of `s`, in order.
pub open spec fn elements_of(s: Seq<Tree>) -> Seq<Tree>
    decreases s.len(),
{
    if s.len() == 0 {
        Seq::empty()
    } else if s.last() is Element {
        elements_of(s.drop_last()).push(s.last())
    } else {
        elements_of(s.drop_last())
    }
}

/// Index of the first element named `name` among `kids[i..]`.
pub open spec fn find_child_from(kids: Seq<Tree>, name: Seq<char>, i: int) -> Option<int>
    decreases kids.len() - i,
{
    if i < 0 || i >= kids.len() {
        None
    } else if kids[i] is Element && kids[i]->Element_name == name {
        Some(i)
    } else {
        find_child_from(kids, name, i + 1)
    }
}

/// The children of the first child element named `name`; none where there is no such child.
pub open spec fn branch_children(kids: Seq<Tree>, name: Seq<char>) -> Seq<Tree> {
    match find_child_from(kids, name, 0) {
        Some(j) => kids[j]->Element_children,
        None => Seq::empty(),
    }
}

/// What follows `prefix` in `name`, where `name` starts with it.
pub open spec fn name_suffix(name: Seq<char>, prefix: Seq<char>) -> Option<Seq<char>> {
    if prefix.len() <= name.len() && name.subrange(0, prefix.len() as int) == prefix {
        Some(name.subrange(prefix.len() as int, name.len() as int))
    } else {
        None
    }
}

/// `child` with the attributes `extra` set on it.
pub open spec fn with_extra_attrs(child: Tree, extra: Seq<(Seq<char>, Seq<char>)>) -> Tree {
    match child {
        Tree::Element { name, attrs, children } => Tree::Element { name, attrs: merge_attrs(attrs, extra), children },
        _ => child,
    }
}

/// Whether an element named `name` stands for the item of a loop over `var`:
/// it is written `<self.var>` (or `<var>`).
pub open spec fn is_item_ref(name: Seq<char>, var: Seq<char>) -> bool {
    name == "self."@ + var || name == var
}

/// `t` with every element that stands for the loop item (see [`is_item_ref`])
/// replaced by `child`, which takes that element's attributes, as the
/// attribute pass left them; the replacement is not searched further.
pub open spec fn replace_tag(t: Tree, var: Seq<char>, child: Tree) -> Tree
    decreases t,
{
    match t {
        Tree::Element { name, attrs, children } => if is_item_ref(name, var) {
            with_extra_attrs(child, attrs)
        } else {
            Tree::Element {
                name,
                attrs,
                children: Seq::new(
                    children.len(),
                    |i: int|
                        if 0 <= i < children.len() {
                            replace_tag(children[i], var, child)
                        } else {
                            empty_text()
                        },
                ),
            }
        },
        _ => t,
    }
}

/// One copy of the loop body per element child of the invocation.
pub open spec fn loop_items(body: Tree, var: Seq<char>, inv_children: Seq<Tree>) -> Seq<Seq<Tree>> {
    Seq::new(
        inv_children.len(),
        |i: int|
            if inv_children[i] is Element {
                seq![replace_tag(body, var, inv_children[i])]
            } else {
                Seq::empty()
            },
    )
}

/// Result of a loop element `<foreachchild.var>` whose children are `kids`.
pub open spec fn loop_rewrite(var: Seq<char>, kids: Seq<Tree>, inv_children: Seq<Tree>) -> Result<
    Seq<Tree>,
    Failure,
> {
    let body = elements_of(kids);
    if body.len() != 1 {
        Err(Failure::LoopBody(body.len()))
    } else {
        Ok(concat(loop_items(body[0], var, inv_children)))
    }
}

/// The children that an `<if>` with children `kids` is replaced by: those of
/// its first `<then>` child where the test succeeded, else those of its first
/// `<else>` child; none where that child is missing.
pub open spec fn branch_taken(kids: Seq<Tree>, taken: bool) -> Seq<Tree> {
    if taken {
        branch_children(kids, "then"@)
    } else {
        branch_children(kids, "else"@)
    }
}

/// The warning of an `<if>` with neither a `<then>` nor an `<else>` child.
pub open spec fn branch_diags(kids: Seq<Tree>) -> Seq<Diag> {
    if find_child_from(kids, "then"@, 0) is None && find_child_from(kids, "else"@, 0) is None {
        seq![Diag::IfWithoutBranches]
    } else {
        Seq::empty()
    }
}

/// Result of an `<if>` element with attributes `attrs` and children `kids`.
pub open spec fn if_rewrite(
    attrs: Seq<(Seq<char>, Seq<char>)>,
    kids: Seq<Tree>,
    inv_attrs: Seq<(Seq<char>, Seq<char>)>,
    path: Seq<char>,
) -> Result<Seq<Tree>, Failure> {
    if attrs.len() != 1 {
        Err(Failure::IfAttributes(attrs.len()))
    } else {
        match pattern_outcome(attrs[0].0, attrs[0].1, inv_attrs, path) {
            Err(f) => Err(f),
            Ok(taken) => Ok(branch_taken(kids, taken)),
        }
    }
}

/// Result of a `<self.attr>` element.
pub open spec fn self_rewrite(
    attr: Seq<char>,
    inv_attrs: Seq<(Seq<char>, Seq<char>)>,
    inv_children: Seq<Tree>,
) -> Seq<Tree> {
    if attr == "inner"@ {
        inv_children
    } else {
        match lookup(inv_attrs, attr) {
            Some(v) => if v.len() > 0 {
                seq![Tree::Text { text: v }]
            } else {
                Seq::empty()
            },
            None => Seq::empty(),
        }
    }
}

proof fn lemma_loop_prefix(body: Tree, var: Seq<char>, inv_children: Seq<Tree>, n: int)
    requires
        0 <= n <= inv_children.len(),
    ensures
        concat(loop_items(body, var, inv_children).subrange(0, n)) == elements_of(
            inv_children.subrange(0, n),
        ).map_values(|c: Tree| replace_tag(body, var, c)),
    decreases n,
{
    let items = loop_items(body, var, inv_children);
    let f = |c: Tree| replace_tag(body, var, c);
    if n == 0 {
        assert(items.subrange(0, 0) =~= Seq::<Seq<Tree>>::empty());
        assert(elements_of(inv_children.subrange(0, 0)).map_values(f) =~= Seq::<Tree>::empty());
    } else {
        lemma_loop_prefix(body, var, inv_children, n - 1);
        lemma_concat_step(items, n - 1);
        let k = inv_children.subrange(0, n);
        assert(k.drop_last() =~= inv_children.subrange(0, n - 1));
        assert(k.last() == inv_children[n - 1]);
        let prev = elements_of(inv_children.subrange(0, n - 1));
        if inv_children[n - 1] is Element {
            assert(prev.push(inv_children[n - 1]).map_values(f) =~= prev.map_values(f).push(f(inv_children[n - 1])));
            assert(prev.map_values(f).push(f(inv_children[n - 1])) =~= prev.map_values(f) + items[n - 1]);
        } else {
            assert(prev.map_values(f) =~= prev.map_values(f) + items[n - 1]);
        }
    }
}

/// A loop whose body is the single element child `body` of the loop element
/// stands for one copy of `body` per element child of the invocation, in order,
/// where each copy has the elements standing for the item replaced by that
/// child; text and comments among the invocation's children produce nothing.
pub proof fn law_loop_copies_body_per_element_child(var: Seq<char>, kids: Seq<Tree>, inv_children: Seq<Tree>)
    requires
        elements_of(kids).len() == 1,
    ensures
        loop_rewrite(var, kids, inv_children) == Ok::<Seq<Tree>, Failure>(
            elements_of(inv_children).map_values(|c: Tree| replace_tag(elements_of(kids)[0], var, c)),
        ),
{
    let body = elements_of(kids)[0];
    lemma_loop_prefix(body, var, inv_children, inv_children.len() as int);
    assert(inv_children.subrange(0, inv_children.len() as int) =~= inv_children);
    assert(loop_items(body, var, inv_children).subrange(0, inv_children.len() as int) =~= loop_items(
        body,
        var,
        inv_children,
    ));
}

/// Warnings from an `<if>` element: those of its test, then [`branch_diags`]
/// where the test could be made.
pub open spec fn if_diags(
    attrs: Seq<(Seq<char>, Seq<char>)>,
    kids: Seq<Tree>,
    inv_attrs: Seq<(Seq<char>, Seq<char>)>,
    path: Seq<char>,
) -> Seq<Diag> {
    if attrs.len() != 1 {
        Seq::empty()
    } else {
        let d = pattern_diags(attrs[0].0, attrs[0].1, inv_attrs, path);
        if pattern_outcome(attrs[0].0, attrs[0].1, inv_attrs, path) is Ok {
            d + branch_diags(kids)
        } else {
            d
        }
    }
}

/// Warnings from a `<self.attr>` element: one, listing the invocation's
/// attribute names, where `attr` is neither `inner` nor one of them.
pub open spec fn self_diags(attr: Seq<char>, inv_attrs: Seq<(Seq<char>, Seq<char>)>) -> Seq<Diag> {
    if attr != "inner"@ && lookup(inv_attrs, attr) is None {
        seq![
            Diag::MissingSelfAttribute {
                name: attr,
                available: inv_attrs.map_values(|a: (Seq<char>, Seq<char>)| a.0),
            },
        ]
    } else {
        Seq::empty()
    }
}

/// The loop variables bound inside an element named `name`, where `bound`
/// are those bound around it: a loop element `<foreachchild.var>` adds `var`.
pub open spec fn loop_bound(name: Seq<char>, bound: Seq<Seq<char>>) -> Seq<Seq<char>> {
    match name_suffix(name, "foreachchild."@) {
        Some(var) => bound.push(var),
        None => bound,
    }
}

/// Result of an element named `name` whose children were already rewritten to
/// `kids`, inside loops binding the variables `bound`. A `<self.var>` whose
/// `var` is bound stands for the loop's item: it is left for its loop.
pub open spec fn rewrite(
    name: Seq<char>,
    attrs: Seq<(Seq<char>, Seq<char>)>,
    kids: Seq<Tree>,
    inv_attrs: Seq<(Seq<char>, Seq<char>)>,
    inv_children: Seq<Tree>,
    path: Seq<char>,
    bound: Seq<Seq<char>>,
) -> Result<Seq<Tree>, Failure> {
    if let Some(var) = name_suffix(name, "foreachchild."@) {
        loop_rewrite(var, kids, inv_children)
    } else if name == "if"@ {
        if_rewrite(attrs, kids, inv_attrs, path)
    } else if name_suffix(name, "self."@) is Some && !bound.contains(name_suffix(name, "self."@)->0) {
        Ok(self_rewrite(name_suffix(name, "self."@)->0, inv_attrs, inv_children))
    } else {
        Ok(seq![Tree::Element { name, attrs, children: kids }])
    }
}

/// Rewrites loops, conditionals and `self.*` elements in `t`, innermost first,
/// inside loops binding the variables `bound`.
pub open spec fn structural(
    t: Tree,
    inv_attrs: Seq<(Seq<char>, Seq<char>)>,
    inv_children: Seq<Tree>,
    path: Seq<char>,
    bound: Seq<Seq<char>>,
) -> Result<Seq<Tree>, Failure>
    decreases t, 0int,
{
    match t {
        Tree::Element { name, attrs, children } => match structural_prefix(
            children,
            children.len() as int,
            inv_attrs,
            inv_children,
            path,
            loop_bound(name, bound),
        ) {
            Err(f) => Err(f),
            Ok(kids) => rewrite(name, attrs, kids, inv_attrs, inv_children, path, bound),
        },
        _ => Ok(seq![t]),
    }
}

/// [`structural`] over the first `n` nodes of `s`, joined in order; the first error stops it.
pub open spec fn structural_prefix(
    s: Seq<Tree>,
    n: int,
    inv_attrs: Seq<(Seq<char>, Seq<char>)>,
    inv_children: Seq<Tree>,
    path: Seq<char>,
    bound: Seq<Seq<char>>,
) -> Result<Seq<Tree>, Failure>
    decreases s, n,
{
    if n <= 0 || n > s.len() {
        Ok(Seq::empty())
    } else {
        match structural_prefix(s, n - 1, inv_attrs, inv_children, path, bound) {
            Err(f) => Err(f),
            Ok(done) => match structural(s[n - 1], inv_attrs, inv_children, path, bound) {
                Err(f) => Err(f),
                Ok(more) => Ok(done + more),
            },
        }
    }
}

/// Warnings from [`rewrite`].
pub open spec fn rewrite_diags(
    name: Seq<char>,
    attrs: Seq<(Seq<char>, Seq<char>)>,
    kids: Seq<Tree>,
    inv_attrs: Seq<(Seq<char>, Seq<char>)>,
    inv_children: Seq<Tree>,
    path: Seq<char>,
    bound: Seq<Seq<char>>,
) -> Seq<Diag> {
    if name_suffix(name, "foreachchild."@) is Some {
        Seq::empty()
    } else if name == "if"@ {
        if_diags(attrs, kids, inv_attrs, path)
    } else if name_suffix(name, "self."@) is Some && !bound.contains(name_suffix(name, "self."@)->0) {
        self_diags(name_suffix(name, "self."@)->0, inv_attrs)
    } else {
        Seq::empty()
    }
}

/// Warnings from a successful [`structural`]: the children's, then the element's own.
pub open spec fn structural_diags(
    t: Tree,
    inv_attrs: Seq<(Seq<char>, Seq<char>)>,
    inv_children: Seq<Tree>,
    path: Seq<char>,
    bound: Seq<Seq<char>>,
) -> Seq<Diag>
    decreases t, 0int,
{
    match t {
        Tree::Element { name, attrs, children } => {
            let inner = loop_bound(name, bound);
            let d = structural_diags_prefix(children, children.len() as int, inv_attrs, inv_children, path, inner);
            match structural_prefix(children, children.len() as int, inv_attrs, inv_children, path, inner) {
                Ok(kids) => d + rewrite_diags(name, attrs, kids, inv_attrs, inv_children, path, bound),
                Err(_) => d,
            }
        },
        _ => Seq::empty(),
    }
}

/// Warnings from [`structural`] over the first `n` nodes of `s`.
pub open spec fn structural_diags_prefix(
    s: Seq<Tree>,
    n: int,
    inv_attrs: Seq<(Seq<char>, Seq<char>)>,
    inv_children: Seq<Tree>,
    path: Seq<char>,
    bound: Seq<Seq<char>>,
) -> Seq<Diag>
    decreases s, n,
{
    if n <= 0 || n > s.len() {
        Seq::empty()
    } else {
        structural_diags_prefix(s, n - 1, inv_attrs, inv_children, path, bound) + structural_diags(
            s[n - 1],
            inv_attrs,
            inv_children,
            path,
            bound,
        )
    }
}

/// [`structural`] over a sequence of nodes, joined in order.
pub open spec fn structural_all(
    s: Seq<Tree>,
    inv_attrs: Seq<(Seq<char>, Seq<char>)>,
    inv_children: Seq<Tree>,
    path: Seq<char>,
    bound: Seq<Seq<char>>,
) -> Result<Seq<Tree>, Failure> {
    structural_prefix(s, s.len() as int, inv_attrs, inv_children, path, bound)
}

proof fn lemma_structural_prefix_err(
    s: Seq<Tree>,
    i: int,
    inv_attrs: Seq<(Seq<char>, Seq<char>)>,
    inv_children: Seq<Tree>,
    path: Seq<char>,
    bound: Seq<Seq<char>>,
)
    requires
        0 < i <= s.len(),
        structural_prefix(s, i, inv_attrs, inv_children, path, bound) is Err,
    ensures
        structural_all(s, inv_attrs, inv_children, path, bound) == structural_prefix(s, i, inv_attrs, inv_children, path, bound),
    decreases s.len() - i,
{
    if i < s.len() {
        lemma_structural_prefix_err(s, i + 1, inv_attrs, inv_children, path, bound);
    }
}

/// The instantiation of the first `n` top-level nodes of a component body,
/// joined in order; the first error stops it.
pub open spec fn instantiate_prefix(
    body: Seq<Tree>,
    n: int,
    inv_attrs: Seq<(Seq<char>, Seq<char>)>,
    inv_children: Seq<Tree>,
    path: Seq<char>,
) -> Result<Seq<Tree>, Failure>
    decreases n,
{
    if n <= 0 || n > body.len() {
        Ok(Seq::empty())
    } else {
        match instantiate_prefix(body, n - 1, inv_attrs, inv_children, path) {
            Err(f) => Err(f),
            Ok(done) => match structural(expand_attrs_tree(body[n - 1], inv_attrs, path), inv_attrs, inv_children, path, Seq::empty()) {
                Err(f) => Err(f),
                Ok(more) => Ok(done + more),
            },
        }
    }
}

/// Warnings from a successful instantiation of the first `n` top-level nodes.
pub open spec fn instantiate_diags_prefix(
    body: Seq<Tree>,
    n: int,
    inv_attrs: Seq<(Seq<char>, Seq<char>)>,
    inv_children: Seq<Tree>,
    path: Seq<char>,
) -> Seq<Diag>
    decreases n,
{
    if n <= 0 || n > body.len() {
        Seq::empty()
    } else {
        instantiate_diags_prefix(body, n - 1, inv_attrs, inv_children, path) + expand_attrs_diags(
            body[n - 1],
            inv_attrs,
            path,
        ) + structural_diags(
            expand_attrs_tree(body[n - 1], inv_attrs, path),
            inv_attrs,
            inv_children,
            path,
            Seq::empty(),
        )
    }
}

/// Warnings from a successful [`instantiate`].
pub open spec fn instantiate_diags(body: Seq<Tree>, inv: Tree, path: Seq<char>) -> Seq<Diag> {
    instantiate_diags_prefix(body, body.len() as int, inv->Element_attrs, inv->Element_children, path)
}

/// The nodes that a component with top-level nodes `body`, invoked by element
/// `inv`, stands for: attribute values expanded first, then the structural rewrite.
pub open spec fn instantiate(body: Seq<Tree>, inv: Tree, path: Seq<char>) -> Result<Seq<Tree>, Failure> {
    instantiate_prefix(body, body.len() as int, inv->Element_attrs, inv->Element_children, path)
}

proof fn lemma_instantiate_prefix_err(
    body: Seq<Tree>,
    i: int,
    inv_attrs: Seq<(Seq<char>, Seq<char>)>,
    inv_children: Seq<Tree>,
    path: Seq<char>,
)
    requires
        0 < i <= body.len(),
        instantiate_prefix(body, i, inv_attrs, inv_children, path) is Err,
    ensures
        instantiate_prefix(body, body.len() as int, inv_attrs, inv_children, path) == instantiate_prefix(
            body,
            i,
            inv_attrs,
            inv_children,
            path,
        ),
    decreases body.len() - i,
{
    if i < body.len() {
        lemma_instantiate_prefix_err(body, i + 1, inv_attrs, inv_children, path);
    }
}

/// The number of element children, and the index of the first one.
fn element_children(kids: &Vec<Node>) -> (r: (usize, usize))
    ensures
        r.0 == elements_of(nodes_view(kids@)).len(),
        r.0 >= 1 ==> r.1 < kids@.len() && kids@[r.1 as int]@ == elements_of(nodes_view(kids@))[0],
{
    let ghost s = nodes_view(kids@);
    let mut count: usize = 0;
    let mut first: usize = 0;
    let mut i: usize = 0;
    while i < kids.len()
        invariant
            i <= kids@.len(),
            s == nodes_view(kids@),
            count == elements_of(s.subrange(0, i as int)).len(),
            count <= i,
            count >= 1 ==> first < kids@.len() && kids@[first as int]@ == elements_of(s.subrange(0, i as int))[0],
        decreases kids.len() - i,
    {
        assert(s.subrange(0, i + 1).drop_last() =~= s.subrange(0, i as int));
        assert(s.subrange(0, i + 1).last() == kids@[i as int]@);
        if let Node::Element(_) = &kids[i] {
            if count == 0 {
                first = i;
            }
            count = count + 1;
        }
        i = i + 1;
    }
    assert(s.subrange(0, i as int) =~= s);
    (count, first)
}

/// Index of the first child element named `name`.
fn find_child(kids: &Vec<Node>, name: &str) -> (r: Option<usize>)
    ensures
        match r {
            Some(j) => j < kids@.len() && find_child_from(nodes_view(kids@), name@, 0) == Some(j as int),
            None => find_child_from(nodes_view(kids@), name@, 0) is None,
        },
{
    let ghost s = nodes_view(kids@);
    let mut i: usize = 0;
    while i < kids.len()
        invariant
            i <= kids@.len(),
            s == nodes_view(kids@),
            find_child_from(s, name@, 0) == find_child_from(s, name@, i as int),
        decreases kids.len() - i,
    {
        assert(s[i as int] == kids@[i as int]@);
        if let Node::Element(e) = &kids[i] {
            proof {
                lemma_view_element(e);
            }
            let cs = chars_of(e.name.as_str());
            if is_lit(&cs, name) {
                return Some(i);
            }
        }
        i = i + 1;
    }
    None
}

/// Sets each attribute of `extra` on `base`, in order.
fn merge_into(base: &mut Vec<Attribute>, extra: &Vec<Attribute>)
    ensures
        attrs_view(final(base)@) == merge_attrs(attrs_view(old(base)@), attrs_view(extra@)),
{
    let ghost b0 = attrs_view(base@);
    let ghost ev = attrs_view(extra@);
    let mut i: usize = 0;
    assert(ev.subrange(0, 0) =~= Seq::<(Seq<char>, Seq<char>)>::empty());
    while i < extra.len()
        invariant
            i <= extra@.len(),
            ev == attrs_view(extra@),
            attrs_view(base@) == merge_attrs(b0, ev.subrange(0, i as int)),
        decreases extra.len() - i,
    {
        assert(ev.subrange(0, i + 1).drop_last() =~= ev.subrange(0, i as int));
        assert(ev.subrange(0, i + 1).last() == attr_view(extra@[i as int]));
        set_attribute(base, extra[i].name.clone(), extra[i].value.clone());
        i = i + 1;
    }
    assert(ev.subrange(0, i as int) =~= ev);
}

/// Replaces, in `n`, every element that stands for the loop item (`<self.var>`
/// or `<var>`) by a copy of `child` carrying that element's attributes.
fn replace_tag_node(n: &Node, var: &String, self_var: &String, child: &Element) -> (r: Node)
    requires
        self_var@ == "self."@ + var@,
    ensures
        r@ == replace_tag(n@, var@, child@),
    decreases n, 1int,
{
    match n {
        Node::Element(e) => {
            proof {
                lemma_view_element(e);
                lemma_view_element(child);
                assert(n@ == e@);
            }
            if e.name == *self_var || e.name == *var {
                let mut attrs = duplicate_attrs(&child.attrs);
                merge_into(&mut attrs, &e.attrs);
                let r = Element { name: child.name.clone(), attrs, children: duplicate_nodes(&child.children) };
                proof {
                    lemma_view_element(&r);
                }
                Node::Element(r)
            } else {
                let kids = replace_tag_nodes(&e.children, var, self_var, child);
                let r = Element { name: e.name.clone(), attrs: duplicate_attrs(&e.attrs), children: kids };
                proof {
                    lemma_view_element(&r);
                    assert(r@->Element_children =~= replace_tag(n@, var@, child@)->Element_children);
                }
                Node::Element(r)
            }
        },
        Node::Text(t) => Node::Text(t.clone()),
        Node::Comment(t) => Node::Comment(t.clone()),
    }
}

fn replace_tag_nodes(ns: &Vec<Node>, var: &String, self_var: &String, child: &Element) -> (r: Vec<Node>)
    requires
        self_var@ == "self."@ + var@,
    ensures
        r@.len() == ns@.len(),
        forall|k: int| 0 <= k < ns@.len() ==> (#[trigger] r@[k])@ == replace_tag(ns@[k]@, var@, child@),
    decreases ns, 0int,
{
    let mut r: Vec<Node> = Vec::new();
    let mut i: usize = 0;
    while i < ns.len()
        invariant
            i <= ns@.len(),
            self_var@ == "self."@ + var@,
            r@.len() == i,
            forall|k: int| 0 <= k < i ==> (#[trigger] r@[k])@ == replace_tag(ns@[k]@, var@, child@),
        decreases ns.len() - i,
    {
        let x = replace_tag_node(&ns[i], var, self_var, child);
        r.push(x);
        i = i + 1;
    }
    r
}

proof fn lemma_find_child_from(kids: Seq<Tree>, name: Seq<char>, i: int)
    requires
        0 <= i,
    ensures
        find_child_from(kids, name, i) matches Some(j) ==> i <= j < kids.len() && kids[j] is Element
            && kids[j]->Element_name == name,
    decreases kids.len() - i,
{
    if 0 <= i < kids.len() && !(kids[i] is Element && kids[i]->Element_name == name) {
        lemma_find_child_from(kids, name, i + 1);
    }
}

/// Expands a loop element `<foreachchild.var>` whose children are `kids`.
pub fn substitute_loop(var: &String, kids: &Vec<Node>, inv: &Element) -> (r: Result<Vec<Node>, ExpandError>)
    ensures
        res_view(r) == loop_rewrite(var@, nodes_view(kids@), nodes_view(inv.children@)),
{
    let (count, first) = element_children(kids);
    if count != 1 {
        return Err(ExpandError::LoopBody(count));
    }
    let body = &kids[first];
    let mut self_var = String::new();
    append_chars(&mut self_var, &chars_of("self."));
    append_chars(&mut self_var, &chars_of(var.as_str()));
    let ghost k = nodes_view(inv.children@);
    let ghost items = loop_items(body@, var@, k);
    let mut out: Vec<Node> = Vec::new();
    let mut i: usize = 0;
    assert(items.subrange(0, 0) =~= Seq::<Seq<Tree>>::empty());
    while i < inv.children.len()
        invariant
            i <= inv.children@.len(),
            k == nodes_view(inv.children@),
            items == loop_items(body@, var@, k),
            self_var@ == "self."@ + var@,
            nodes_view(out@) == concat(items.subrange(0, i as int)),
        decreases inv.children.len() - i,
    {
        let ghost before = out@;
        proof {
            lemma_concat_step(items, i as int);
        }
        if let Node::Element(c) = &inv.children[i] {
            let x = replace_tag_node(body, var, &self_var, c);
            out.push(x);
            assert(nodes_view(out@) =~= nodes_view(before) + items[i as int]);
        } else {
            assert(items[i as int] =~= Seq::<Tree>::empty());
            assert(nodes_view(out@) =~= nodes_view(before) + items[i as int]);
        }
        i = i + 1;
    }
    assert(items.subrange(0, i as int) =~= items);
    Ok(out)
}

/// Expands an `<if>` element with attributes `attrs` and children `kids`.
pub fn substitute_if(
    attrs: &Vec<Attribute>,
    kids: &Vec<Node>,
    inv: &Element,
    ctx: &Context,
    warnings: &mut Vec<Warning>,
) -> (r: Result<Vec<Node>, ExpandError>)
    ensures
        res_view(r) == if_rewrite(attrs_view(attrs@), nodes_view(kids@), attrs_view(inv.attrs@), ctx.file_path@),
        diags(final(warnings)@) == diags(old(warnings)@) + if_diags(
            attrs_view(attrs@),
            nodes_view(kids@),
            attrs_view(inv.attrs@),
            ctx.file_path@,
        ),
        grows(old(warnings)@, final(warnings)@),
{
    proof {
        lemma_grows_refl(warnings@);
    }
    if attrs.len() != 1 {
        assert(diags(warnings@) =~= diags(warnings@) + Seq::<Diag>::empty());
        return Err(ExpandError::IfAttributes(attrs.len()));
    }
    let ghost w0 = warnings@;
    let e = chars_of(attrs[0].name.as_str());
    assert(attrs_view(attrs@)[0] == attr_view(attrs@[0]));
    let taken = match matches_pattern(&e, attrs[0].value.as_str(), &inv.attrs, ctx, warnings) {
        Ok(b) => b,
        Err(f) => {
            proof {
                lemma_grows_append(w0, warnings@, pattern_diags(e@, attrs@[0].value@, attrs_view(inv.attrs@), ctx.file_path@));
            }
            return Err(f);
        },
    };
    proof {
        lemma_grows_append(w0, warnings@, pattern_diags(e@, attrs@[0].value@, attrs_view(inv.attrs@), ctx.file_path@));
    }
    let ghost w1 = diags(warnings@);
    let r = choose_branch(kids, taken, warnings);
    assert(diags(warnings@) =~= diags(w0) + if_diags(
        attrs_view(attrs@),
        nodes_view(kids@),
        attrs_view(inv.attrs@),
        ctx.file_path@,
    ));
    Ok(r)
}

/// What an `<if>` with children `kids` becomes once its test has given `taken`.
pub fn choose_branch(kids: &Vec<Node>, taken: bool, warnings: &mut Vec<Warning>) -> (r: Vec<Node>)
    ensures
        nodes_view(r@) == branch_taken(nodes_view(kids@), taken),
        diags(final(warnings)@) == diags(old(warnings)@) + branch_diags(nodes_view(kids@)),
        grows(old(warnings)@, final(warnings)@),
{
    proof {
        lemma_grows_refl(warnings@);
        lemma_find_child_from(nodes_view(kids@), "then"@, 0);
        lemma_find_child_from(nodes_view(kids@), "else"@, 0);
    }
    let ghost w0 = diags(warnings@);
    let then_branch = find_child(kids, "then");
    let else_branch = find_child(kids, "else");
    if then_branch.is_none() && else_branch.is_none() {
        proof {
            lemma_grows_push(warnings@, Warning::IfWithoutBranches);
        }
        warnings.push(Warning::IfWithoutBranches);
    }
    assert(diags(warnings@) =~= w0 + branch_diags(nodes_view(kids@)));
    let chosen = if taken {
        then_branch
    } else {
        else_branch
    };
    match chosen {
        Some(j) => {
            assert(kids@[j as int]@ == nodes_view(kids@)[j as int]);
            match &kids[j] {
                Node::Element(b) => {
                    proof {
                        lemma_view_element(b);
                        assert(kids@[j as int]@ == b@);
                    }
                    duplicate_nodes(&b.children)
                },
                _ => {
                    assert(false);
                    Vec::new()
                },
            }
        },
        None => {
            let r: Vec<Node> = Vec::new();
            assert(nodes_view(r@) =~= Seq::<Tree>::empty());
            r
        },
    }
}

/// Expands a `<self.attr>` element.
pub fn substitute_self(attr: &Vec<char>, inv: &Element, warnings: &mut Vec<Warning>) -> (r: Vec<Node>)
    ensures
        nodes_view(r@) == self_rewrite(attr@, attrs_view(inv.attrs@), nodes_view(inv.children@)),
        diags(final(warnings)@) == diags(old(warnings)@) + self_diags(attr@, attrs_view(inv.attrs@)),
        grows(old(warnings)@, final(warnings)@),
{
    let ghost w0 = warnings@;
    proof {
        lemma_grows_refl(warnings@);
    }
    if is_lit(attr, "inner") {
        assert(diags(warnings@) =~= diags(w0) + self_diags(attr@, attrs_view(inv.attrs@)));
        return duplicate_nodes(&inv.children);
    }
    let name = string_of(attr);
    let mut r: Vec<Node> = Vec::new();
    match find_attr(&inv.attrs, &name) {
        Some(i) => {
            let v = inv.attrs[i].value.clone();
            assert(diags(warnings@) =~= diags(w0) + self_diags(attr@, attrs_view(inv.attrs@)));
            if v.as_str().unicode_len() > 0 {
                r.push(Node::Text(v));
                assert(nodes_view(r@) =~= self_rewrite(attr@, attrs_view(inv.attrs@), nodes_view(inv.children@)));
            } else {
                assert(nodes_view(r@) =~= self_rewrite(attr@, attrs_view(inv.attrs@), nodes_view(inv.children@)));
            }
        },
        None => {
            let mut available: Vec<String> = Vec::new();
            let mut j: usize = 0;
            while j < inv.attrs.len()
                invariant
                    j <= inv.attrs@.len(),
                    available@.len() == j,
                    forall|x: int| 0 <= x < j ==> (#[trigger] available@[x])@ == inv.attrs@[x].name@,
                decreases inv.attrs.len() - j,
            {
                available.push(inv.attrs[j].name.clone());
                j = j + 1;
            }
            let w = Warning::MissingSelfAttribute { name, available };
            proof {
                lemma_grows_push(warnings@, w);
                let av = attrs_view(inv.attrs@);
                assert(w@ == Diag::MissingSelfAttribute {
                    name: attr@,
                    available: av.map_values(|a: (Seq<char>, Seq<char>)| a.0),
                }) by {
                    assert(w->available@.map_values(|s: String| s@) =~= av.map_values(|a: (Seq<char>, Seq<char>)| a.0));
                }
            }
            warnings.push(w);
            assert(diags(warnings@) =~= diags(w0) + self_diags(attr@, attrs_view(inv.attrs@)));
            assert(nodes_view(r@) =~= self_rewrite(attr@, attrs_view(inv.attrs@), nodes_view(inv.children@)));
        },
    }
    r
}

/// The loop variables, as strings.
pub open spec fn names_view(b: Seq<String>) -> Seq<Seq<char>> {
    b.map_values(|x: String| x@)
}

/// Whether `name` is one of the loop variables `bound`.
fn is_bound(bound: &Vec<String>, name: &String) -> (r: bool)
    ensures
        r == names_view(bound@).contains(name@),
{
    let mut i: usize = 0;
    while i < bound.len()
        invariant
            i <= bound@.len(),
            forall|j: int| 0 <= j < i ==> bound@[j]@ != name@,
        decreases bound.len() - i,
    {
        if bound[i] == *name {
            assert(names_view(bound@)[i as int] == name@);
            return true;
        }
        i = i + 1;
    }
    proof {
        if names_view(bound@).contains(name@) {
            let j = choose|j: int| 0 <= j < names_view(bound@).len() && names_view(bound@)[j] == name@;
            assert(bound@[j]@ == name@);
        }
    }
    false
}

/// The loop variables bound inside an element named `name`, as [`loop_bound`] says.
fn bound_inside(name: &String, bound: &Vec<String>) -> (r: Vec<String>)
    ensures
        names_view(r@) == loop_bound(name@, names_view(bound@)),
{
    let mut r: Vec<String> = Vec::new();
    let mut i: usize = 0;
    while i < bound.len()
        invariant
            i <= bound@.len(),
            r@.len() == i,
            forall|j: int| 0 <= j < i ==> (#[trigger] r@[j])@ == bound@[j]@,
        decreases bound.len() - i,
    {
        r.push(bound[i].clone());
        i = i + 1;
    }
    assert(names_view(r@) =~= names_view(bound@));
    let cs = chars_of(name.as_str());
    if has_lit_at(&cs, 0, "foreachchild.") {
        let var = string_of_range(&cs, "foreachchild.".unicode_len(), cs.len());
        let ghost before = r@;
        let ghost vv = var@;
        r.push(var);
        assert(names_view(r@) =~= names_view(before).push(vv));
    }
    r
}

/// Rewrites an element whose children were already rewritten to `kids`.
fn rewrite_element(
    name: &String,
    attrs: &Vec<Attribute>,
    kids: Vec<Node>,
    inv: &Element,
    ctx: &Context,
    bound: &Vec<String>,
    warnings: &mut Vec<Warning>,
) -> (r: Result<Vec<Node>, ExpandError>)
    ensures
        res_view(r) == rewrite(
            name@,
            attrs_view(attrs@),
            nodes_view(kids@),
            attrs_view(inv.attrs@),
            nodes_view(inv.children@),
            ctx.file_path@,
            names_view(bound@),
        ),
        diags(final(warnings)@) == diags(old(warnings)@) + rewrite_diags(
            name@,
            attrs_view(attrs@),
            nodes_view(kids@),
            attrs_view(inv.attrs@),
            nodes_view(inv.children@),
            ctx.file_path@,
            names_view(bound@),
        ),
        grows(old(warnings)@, final(warnings)@),
{
    let cs = chars_of(name.as_str());
    if has_lit_at(&cs, 0, "foreachchild.") {
        let var = string_of_range(&cs, "foreachchild.".unicode_len(), cs.len());
        proof {
            lemma_grows_refl(warnings@);
            assert(diags(warnings@) =~= diags(warnings@) + Seq::<Diag>::empty());
        }
        return substitute_loop(&var, &kids, inv);
    }
    if is_lit(&cs, "if") {
        return substitute_if(attrs, &kids, inv, ctx, warnings);
    }
    if has_lit_at(&cs, 0, "self.") {
        let attr = string_of_range(&cs, "self.".unicode_len(), cs.len());
        if !is_bound(bound, &attr) {
            let a = chars_of(attr.as_str());
            return Ok(substitute_self(&a, inv, warnings));
        }
    }
    proof {
        lemma_grows_refl(warnings@);
        assert(diags(warnings@) =~= diags(warnings@) + Seq::<Diag>::empty());
    }
    let e = Element { name: name.clone(), attrs: duplicate_attrs(attrs), children: kids };
    proof {
        lemma_view_element(&e);
    }
    let mut r: Vec<Node> = Vec::new();
    r.push(Node::Element(e));
    assert(nodes_view(r@) =~= seq![e@]);
    Ok(r)
}

/// Rewrites loops, conditionals and `self.*` elements in `n`, innermost first,
/// inside loops binding the variables `bound`.
pub fn structural_node(
    n: &Node,
    inv: &Element,
    ctx: &Context,
    bound: &Vec<String>,
    warnings: &mut Vec<Warning>,
) -> (r: Result<Vec<Node>, ExpandError>)
    ensures
        res_view(r) == structural(
            n@,
            attrs_view(inv.attrs@),
            nodes_view(inv.children@),
            ctx.file_path@,
            names_view(bound@),
        ),
        r is Ok ==> diags(final(warnings)@) == diags(old(warnings)@) + structural_diags(
            n@,
            attrs_view(inv.attrs@),
            nodes_view(inv.children@),
            ctx.file_path@,
            names_view(bound@),
        ),
        grows(old(warnings)@, final(warnings)@),
    decreases n, 1int,
{
    let ghost w0 = diags(warnings@);
    match n {
        Node::Element(e) => {
            proof {
                lemma_view_element(e);
                assert(n@ == e@);
            }
            let inner = bound_inside(&e.name, bound);
            let kids = match structural_nodes(&e.children, inv, ctx, &inner, warnings) {
                Ok(k) => k,
                Err(f) => {
                    return Err(f);
                },
            };
            let r = rewrite_element(&e.name, &e.attrs, kids, inv, ctx, bound, warnings);
            assert(r is Ok ==> diags(warnings@) =~= w0 + structural_diags(
                n@,
                attrs_view(inv.attrs@),
                nodes_view(inv.children@),
                ctx.file_path@,
                names_view(bound@),
            ));
            r
        },
        _ => {
            proof {
                lemma_grows_refl(warnings@);
            }
            let mut r: Vec<Node> = Vec::new();
            r.push(n.duplicate());
            assert(nodes_view(r@) =~= seq![n@]);
            assert(diags(warnings@) =~= w0 + Seq::<Diag>::empty());
            Ok(r)
        },
    }
}

/// [`structural_node`] over each node of `ns`, results joined in order.
pub fn structural_nodes(
    ns: &Vec<Node>,
    inv: &Element,
    ctx: &Context,
    bound: &Vec<String>,
    warnings: &mut Vec<Warning>,
) -> (r: Result<Vec<Node>, ExpandError>)
    ensures
        res_view(r) == structural_all(
            nodes_view(ns@),
            attrs_view(inv.attrs@),
            nodes_view(inv.children@),
            ctx.file_path@,
            names_view(bound@),
        ),
        r is Ok ==> diags(final(warnings)@) == diags(old(warnings)@) + structural_diags_prefix(
            nodes_view(ns@),
            ns@.len() as int,
            attrs_view(inv.attrs@),
            nodes_view(inv.children@),
            ctx.file_path@,
            names_view(bound@),
        ),
        grows(old(warnings)@, final(warnings)@),
    decreases ns, 0int,
{
    proof {
        lemma_grows_refl(warnings@);
    }
    let ghost w0 = diags(warnings@);
    assert(w0 =~= w0 + Seq::<Diag>::empty());
    let ghost s = nodes_view(ns@);
    let ghost a = attrs_view(inv.attrs@);
    let ghost k = nodes_view(inv.children@);
    let ghost b = names_view(bound@);
    let mut out: Vec<Node> = Vec::new();
    let mut i: usize = 0;
    assert(nodes_view(out@) =~= Seq::<Tree>::empty());
    while i < ns.len()
        invariant
            i <= ns@.len(),
            s == nodes_view(ns@),
            a == attrs_view(inv.attrs@),
            k == nodes_view(inv.children@),
            b == names_view(bound@),
            structural_prefix(s, i as int, a, k, ctx.file_path@, b) == Ok::<Seq<Tree>, Failure>(nodes_view(out@)),
            grows(old(warnings)@, warnings@),
            w0 == diags(old(warnings)@),
            diags(warnings@) == w0 + structural_diags_prefix(s, i as int, a, k, ctx.file_path@, b),
        decreases ns.len() - i,
    {
        assert(s[i as int] == ns@[i as int]@);
        match structural_node(&ns[i], inv, ctx, bound, warnings) {
            Err(f) => {
                proof {
                    lemma_structural_prefix_err(s, i + 1, a, k, ctx.file_path@, b);
                }
                return Err(f);
            },
            Ok(mut v) => {
                let ghost before = out@;
                let ghost vv = v@;
                out.append(&mut v);
                assert(nodes_view(out@) =~= nodes_view(before) + nodes_view(vv));
                assert(diags(warnings@) =~= w0 + structural_diags_prefix(s, i + 1, a, k, ctx.file_path@, b));
            },
        }
        i = i + 1;
    }
    Ok(out)
}

/// Instantiates a component whose top-level nodes are `body` for the invoking element `inv`.
pub fn instantiate_body(body: &Vec<Node>, inv: &Element, ctx: &Context, warnings: &mut Vec<Warning>) -> (r: Result<
    Vec<Node>,
    ExpandError,
>)
    ensures
        res_view(r) == instantiate(nodes_view(body@), inv@, ctx.file_path@),
        r is Ok ==> diags(final(warnings)@) == diags(old(warnings)@) + instantiate_diags(
            nodes_view(body@),
            inv@,
            ctx.file_path@,
        ),
        grows(old(warnings)@, final(warnings)@),
{
    proof {
        lemma_grows_refl(warnings@);
        lemma_view_element(inv);
    }
    let ghost w0 = diags(warnings@);
    assert(w0 =~= w0 + Seq::<Diag>::empty());
    let ghost s = nodes_view(body@);
    let ghost a = attrs_view(inv.attrs@);
    let ghost k = nodes_view(inv.children@);
    let ghost p = ctx.file_path@;
    let mut out: Vec<Node> = Vec::new();
    let mut i: usize = 0;
    assert(nodes_view(out@) =~= Seq::<Tree>::empty());
    while i < body.len()
        invariant
            i <= body@.len(),
            s == nodes_view(body@),
            a == attrs_view(inv.attrs@),
            k == nodes_view(inv.children@),
            p == ctx.file_path@,
            instantiate_prefix(s, i as int, a, k, p) == Ok::<Seq<Tree>, Failure>(nodes_view(out@)),
            grows(old(warnings)@, warnings@),
            w0 == diags(old(warnings)@),
            diags(warnings@) == w0 + instantiate_diags_prefix(s, i as int, a, k, p),
        decreases body.len() - i,
    {
        assert(s[i as int] == body@[i as int]@);
        let x = expand_attrs_node(&body[i], inv, ctx, warnings);
        let no_loops: Vec<String> = Vec::new();
        assert(names_view(no_loops@) =~= Seq::<Seq<char>>::empty());
        match structural_node(&x, inv, ctx, &no_loops, warnings) {
            Err(f) => {
                proof {
                    lemma_instantiate_prefix_err(s, i + 1, a, k, p);
                    lemma_view_element(inv);
                }
                return Err(f);
            },
            Ok(mut v) => {
                let ghost before = out@;
                let ghost vv = v@;
                out.append(&mut v);
                assert(nodes_view(out@) =~= nodes_view(before) + nodes_view(vv));
                assert(diags(warnings@) =~= w0 + instantiate_diags_prefix(s, i + 1, a, k, p));
            },
        }
        i = i + 1;
    }
    proof {
        lemma_view_element(inv);
    }
    Ok(out)
}

} // verus!
