use vstd::prelude::*;
use crate::expr::{Context, Warning, Diag, ExpandError, Failure, grows, diags, lemma_grows_refl, lemma_grows_trans};
use crate::instance::{instantiate, instantiate_diags, res_view};
use crate::library::ComponentLibrary;
use crate::tree::{Tree, Node, Element, nodes_view, lemma_view_element, duplicate_attrs};

verus! {

broadcast use lemma_grows_trans, vstd::std_specs::vec::axiom_vec_index_decreases;

/// Expansion of one node against the library `lib`: children first; then, where
/// the element names a component, its instantiation, expanded in turn with one
/// level of nesting fewer. `depth` bounds how deeply components may nest.
pub open spec fn expand_tree(
    t: Tree,
    lib: Map<Seq<char>, Seq<Tree>>,
    path: Seq<char>,
    depth: nat,
) -> Result<Seq<Tree>, Failure>
    decreases depth, t, 0int,
{
    match t {
        Tree::Element { name, attrs, children } => match expand_prefix(
            children,
            children.len() as int,
            lib,
            path,
            depth,
        ) {
            Err(f) => Err(f),
            Ok(kids) => {
                let e = Tree::Element { name, attrs, children: kids };
                if lib.contains_key(name) {
                    if depth == 0 {
                        Err(Failure::TooDeep(name))
                    } else {
                        match instantiate(lib[name], e, path) {
                            Err(f) => Err(f),
                            Ok(nodes) => expand_prefix(nodes, nodes.len() as int, lib, path, (depth - 1) as nat),
                        }
                    }
                } else {
                    Ok(seq![e])
                }
            },
        },
        _ => Ok(seq![t]),
    }
}

/// [`expand_tree`] over the first `n` nodes of `s`, joined in order; the first error stops it.
pub open spec fn expand_prefix(
    s: Seq<Tree>,
    n: int,
    lib: Map<Seq<char>, Seq<Tree>>,
    path: Seq<char>,
    depth: nat,
) -> Result<Seq<Tree>, Failure>
    decreases depth, s, n,
{
    if n <= 0 || n > s.len() {
        Ok(Seq::empty())
    } else {
        match expand_prefix(s, n - 1, lib, path, depth) {
            Err(f) => Err(f),
            Ok(done) => match expand_tree(s[n - 1], lib, path, depth) {
                Err(f) => Err(f),
                Ok(more) => Ok(done + more),
            },
        }
    }
}

/// [`expand_tree`] over a whole sequence of nodes.
pub open spec fn expand_seq(
    s: Seq<Tree>,
    lib: Map<Seq<char>, Seq<Tree>>,
    path: Seq<char>,
    depth: nat,
) -> Result<Seq<Tree>, Failure> {
    expand_prefix(s, s.len() as int, lib, path, depth)
}

/// Warnings from a successful [`expand_tree`], in the order the work is done.
pub open spec fn expansion_diags(
    t: Tree,
    lib: Map<Seq<char>, Seq<Tree>>,
    path: Seq<char>,
    depth: nat,
) -> Seq<Diag>
    decreases depth, t, 0int,
{
    match t {
        Tree::Element { name, attrs, children } => {
            let d = expansion_diags_prefix(children, children.len() as int, lib, path, depth);
            match expand_prefix(children, children.len() as int, lib, path, depth) {
                Err(_) => d,
                Ok(kids) => {
                    let e = Tree::Element { name, attrs, children: kids };
                    if lib.contains_key(name) && depth > 0 {
                        let di = d + instantiate_diags(lib[name], e, path);
                        match instantiate(lib[name], e, path) {
                            Err(_) => di,
                            Ok(nodes) => di + expansion_diags_prefix(
                                nodes,
                                nodes.len() as int,
                                lib,
                                path,
                                (depth - 1) as nat,
                            ),
                        }
                    } else {
                        d
                    }
                },
            }
        },
        _ => Seq::empty(),
    }
}

/// Warnings from [`expand_tree`] over the first `n` nodes of `s`.
pub open spec fn expansion_diags_prefix(
    s: Seq<Tree>,
    n: int,
    lib: Map<Seq<char>, Seq<Tree>>,
    path: Seq<char>,
    depth: nat,
) -> Seq<Diag>
    decreases depth, s, n,
{
    if n <= 0 || n > s.len() {
        Seq::empty()
    } else {
        expansion_diags_prefix(s, n - 1, lib, path, depth) + expansion_diags(s[n - 1], lib, path, depth)
    }
}

proof fn lemma_expand_prefix_err(
    s: Seq<Tree>,
    i: int,
    lib: Map<Seq<char>, Seq<Tree>>,
    path: Seq<char>,
    depth: nat,
)
    requires
        0 < i <= s.len(),
        expand_prefix(s, i, lib, path, depth) is Err,
    ensures
        expand_seq(s, lib, path, depth) == expand_prefix(s, i, lib, path, depth),
    decreases s.len() - i,
{
    if i < s.len() {
        lemma_expand_prefix_err(s, i + 1, lib, path, depth);
    }
}

/// Expands every component in `n` against `lib` until none is left. Components
/// may nest `depth` levels deep; one nested deeper fails with `TooDeep`.
pub fn substitute(
    n: &Node,
    lib: &ComponentLibrary,
    ctx: &Context,
    depth: usize,
    warnings: &mut Vec<Warning>,
) -> (r: Result<Vec<Node>, ExpandError>)
    ensures
        res_view(r) == expand_tree(n@, lib@, ctx.file_path@, depth as nat),
        r is Ok ==> diags(final(warnings)@) == diags(old(warnings)@) + expansion_diags(
            n@,
            lib@,
            ctx.file_path@,
            depth as nat,
        ),
        grows(old(warnings)@, final(warnings)@),
    decreases depth, n, 1int,
{
    let ghost w0 = diags(warnings@);
    match n {
        Node::Element(e) => {
            proof {
                lemma_view_element(e);
                assert(n@ == e@);
            }
            let kids = match substitute_all(&e.children, lib, ctx, depth, warnings) {
                Ok(k) => k,
                Err(f) => {
                    return Err(f);
                },
            };
            let inv = Element { name: e.name.clone(), attrs: duplicate_attrs(&e.attrs), children: kids };
            proof {
                lemma_view_element(&inv);
            }
            match lib.get(&e.name) {
                Some(def) => {
                    if depth == 0 {
                        return Err(ExpandError::TooDeep(e.name.clone()));
                    }
                    let nodes = match def.instantiate(&inv, ctx, warnings) {
                        Ok(v) => v,
                        Err(f) => {
                            return Err(f);
                        },
                    };
                    let r = substitute_all(&nodes, lib, ctx, depth - 1, warnings);
                    assert(r is Ok ==> diags(warnings@) =~= w0 + expansion_diags(
                        n@,
                        lib@,
                        ctx.file_path@,
                        depth as nat,
                    ));
                    r
                },
                None => {
                    let mut r: Vec<Node> = Vec::new();
                    let ghost iv = inv@;
                    r.push(Node::Element(inv));
                    assert(nodes_view(r@) =~= seq![iv]);
                    assert(diags(warnings@) =~= w0 + expansion_diags(n@, lib@, ctx.file_path@, depth as nat));
                    Ok(r)
                },
            }
        },
        _ => {
            proof {
                lemma_grows_refl(warnings@);
            }
            let mut r: Vec<Node> = Vec::new();
            r.push(n.duplicate());
            assert(nodes_view(r@) =~= seq![n@]);
            assert(diags(warnings@) =~= w0 + Seq::<Diag>::empty());
            Ok(r)
        },
    }
}

/// [`substitute`] over each node of `ns`, results joined in order.
pub fn substitute_all(
    ns: &Vec<Node>,
    lib: &ComponentLibrary,
    ctx: &Context,
    depth: usize,
    warnings: &mut Vec<Warning>,
) -> (r: Result<Vec<Node>, ExpandError>)
    ensures
        res_view(r) == expand_seq(nodes_view(ns@), lib@, ctx.file_path@, depth as nat),
        r is Ok ==> diags(final(warnings)@) == diags(old(warnings)@) + expansion_diags_prefix(
            nodes_view(ns@),
            ns@.len() as int,
            lib@,
            ctx.file_path@,
            depth as nat,
        ),
        grows(old(warnings)@, final(warnings)@),
    decreases depth, ns, 0int,
{
    proof {
        lemma_grows_refl(warnings@);
    }
    let ghost w0 = diags(warnings@);
    assert(w0 =~= w0 + Seq::<Diag>::empty());
    let ghost s = nodes_view(ns@);
    let mut out: Vec<Node> = Vec::new();
    let mut i: usize = 0;
    assert(nodes_view(out@) =~= Seq::<Tree>::empty());
    while i < ns.len()
        invariant
            i <= ns@.len(),
            s == nodes_view(ns@),
            expand_prefix(s, i as int, lib@, ctx.file_path@, depth as nat) == Ok::<Seq<Tree>, Failure>(
                nodes_view(out@),
            ),
            grows(old(warnings)@, warnings@),
            w0 == diags(old(warnings)@),
            diags(warnings@) == w0 + expansion_diags_prefix(s, i as int, lib@, ctx.file_path@, depth as nat),
        decreases ns.len() - i,
    {
        assert(s[i as int] == ns@[i as int]@);
        match substitute(&ns[i], lib, ctx, depth, warnings) {
            Err(f) => {
                proof {
                    lemma_expand_prefix_err(s, i + 1, lib@, ctx.file_path@, depth as nat);
                }
                return Err(f);
            },
            Ok(mut v) => {
                let ghost before = out@;
                let ghost vv = v@;
                out.append(&mut v);
                assert(nodes_view(out@) =~= nodes_view(before) + nodes_view(vv));
                assert(diags(warnings@) =~= w0 + expansion_diags_prefix(s, i + 1, lib@, ctx.file_path@, depth as nat));
            },
        }
        i = i + 1;
    }
    Ok(out)
}

/// No element of `t`, at any depth, is named by a component of `lib`.
pub open spec fn free_of(t: Tree, lib: Map<Seq<char>, Seq<Tree>>) -> bool
    decreases t,
{
    match t {
        Tree::Element { name, attrs, children } => !lib.contains_key(name) && forall|i: int|
            0 <= i < children.len() ==> free_of(#[trigger] children[i], lib),
        _ => true,
    }
}

/// No node of `s` holds an element named by a component of `lib`.
pub open spec fn all_free(s: Seq<Tree>, lib: Map<Seq<char>, Seq<Tree>>) -> bool {
    forall|i: int| 0 <= i < s.len() ==> free_of(#[trigger] s[i], lib)
}

proof fn lemma_free_concat(a: Seq<Tree>, b: Seq<Tree>, lib: Map<Seq<char>, Seq<Tree>>)
    requires
        all_free(a, lib),
        all_free(b, lib),
    ensures
        all_free(a + b, lib),
{
    assert forall|i: int| 0 <= i < (a + b).len() implies free_of(#[trigger] (a + b)[i], lib) by {
        if i >= a.len() {
            assert((a + b)[i] == b[i - a.len()]);
        }
    }
}

proof fn lemma_output_free(t: Tree, lib: Map<Seq<char>, Seq<Tree>>, path: Seq<char>, depth: nat)
    requires
        expand_tree(t, lib, path, depth) is Ok,
    ensures
        all_free(expand_tree(t, lib, path, depth)->Ok_0, lib),
    decreases depth, t, 0int,
{
    match t {
        Tree::Element { name, attrs, children } => {
            lemma_output_prefix_free(children, children.len() as int, lib, path, depth);
            let kids = expand_prefix(children, children.len() as int, lib, path, depth)->Ok_0;
            let e = Tree::Element { name, attrs, children: kids };
            if lib.contains_key(name) {
                let nodes = instantiate(lib[name], e, path)->Ok_0;
                lemma_output_prefix_free(nodes, nodes.len() as int, lib, path, (depth - 1) as nat);
            } else {
                assert(free_of(e, lib));
                assert(seq![e][0] == e);
            }
        },
        _ => {
            assert(seq![t][0] == t);
        },
    }
}

proof fn lemma_output_prefix_free(
    s: Seq<Tree>,
    n: int,
    lib: Map<Seq<char>, Seq<Tree>>,
    path: Seq<char>,
    depth: nat,
)
    requires
        expand_prefix(s, n, lib, path, depth) is Ok,
    ensures
        all_free(expand_prefix(s, n, lib, path, depth)->Ok_0, lib),
    decreases depth, s, n,
{
    if n <= 0 || n > s.len() {
    } else {
        lemma_output_prefix_free(s, n - 1, lib, path, depth);
        lemma_output_free(s[n - 1], lib, path, depth);
        lemma_free_concat(
            expand_prefix(s, n - 1, lib, path, depth)->Ok_0,
            expand_tree(s[n - 1], lib, path, depth)->Ok_0,
            lib,
        );
    }
}

/// A node holding no component tag expands, at any depth, to itself alone.
pub proof fn lemma_free_unchanged(t: Tree, lib: Map<Seq<char>, Seq<Tree>>, path: Seq<char>, depth: nat)
    requires
        free_of(t, lib),
    ensures
        expand_tree(t, lib, path, depth) == Ok::<Seq<Tree>, Failure>(seq![t]),
    decreases depth, t, 0int,
{
    match t {
        Tree::Element { name, attrs, children } => {
            lemma_free_prefix_unchanged(children, children.len() as int, lib, path, depth);
            assert(children.subrange(0, children.len() as int) =~= children);
        },
        _ => {},
    }
}

/// Nodes holding no component tag expand, at any depth, to themselves.
pub proof fn lemma_free_prefix_unchanged(
    s: Seq<Tree>,
    n: int,
    lib: Map<Seq<char>, Seq<Tree>>,
    path: Seq<char>,
    depth: nat,
)
    requires
        all_free(s, lib),
        0 <= n <= s.len(),
    ensures
        expand_prefix(s, n, lib, path, depth) == Ok::<Seq<Tree>, Failure>(s.subrange(0, n)),
    decreases depth, s, n,
{
    if n == 0 {
        assert(s.subrange(0, 0) =~= Seq::<Tree>::empty());
    } else {
        lemma_free_prefix_unchanged(s, n - 1, lib, path, depth);
        lemma_free_unchanged(s[n - 1], lib, path, depth);
        assert(s.subrange(0, n - 1) + seq![s[n - 1]] =~= s.subrange(0, n));
    }
}

/// A document holding no component tag is already expanded: expanding it, at
/// any depth, gives it back unchanged.
pub proof fn law_component_free_document_is_unchanged(
    s: Seq<Tree>,
    lib: Map<Seq<char>, Seq<Tree>>,
    path: Seq<char>,
    depth: nat,
)
    requires
        all_free(s, lib),
    ensures
        expand_seq(s, lib, path, depth) == Ok::<Seq<Tree>, Failure>(s),
{
    lemma_free_prefix_unchanged(s, s.len() as int, lib, path, depth);
    assert(s.subrange(0, s.len() as int) =~= s);
}

/// A fixed point is reached: the output of a successful expansion holds no
/// element named by a component, and expanding that output again, with any
/// depth, gives it back unchanged.
pub proof fn law_expansion_reaches_fixed_point(
    s: Seq<Tree>,
    lib: Map<Seq<char>, Seq<Tree>>,
    path: Seq<char>,
    depth: nat,
    again: nat,
)
    requires
        expand_seq(s, lib, path, depth) is Ok,
    ensures
        all_free(expand_seq(s, lib, path, depth)->Ok_0, lib),
        expand_seq(expand_seq(s, lib, path, depth)->Ok_0, lib, path, again) == expand_seq(s, lib, path, depth),
{
    let r = expand_seq(s, lib, path, depth)->Ok_0;
    lemma_output_prefix_free(s, s.len() as int, lib, path, depth);
    lemma_free_prefix_unchanged(r, r.len() as int, lib, path, again);
    assert(r.subrange(0, r.len() as int) =~= r);
}

proof fn lemma_depth_monotone(t: Tree, lib: Map<Seq<char>, Seq<Tree>>, path: Seq<char>, d: nat, e: nat)
    requires
        d <= e,
        expand_tree(t, lib, path, d) is Ok,
    ensures
        expand_tree(t, lib, path, e) == expand_tree(t, lib, path, d),
    decreases d, t, 0int,
{
    match t {
        Tree::Element { name, attrs, children } => {
            lemma_depth_monotone_prefix(children, children.len() as int, lib, path, d, e);
            let kids = expand_prefix(children, children.len() as int, lib, path, d)->Ok_0;
            let el = Tree::Element { name, attrs, children: kids };
            if lib.contains_key(name) {
                let nodes = instantiate(lib[name], el, path)->Ok_0;
                lemma_depth_monotone_prefix(nodes, nodes.len() as int, lib, path, (d - 1) as nat, (e - 1) as nat);
            }
        },
        _ => {},
    }
}

proof fn lemma_depth_monotone_prefix(
    s: Seq<Tree>,
    n: int,
    lib: Map<Seq<char>, Seq<Tree>>,
    path: Seq<char>,
    d: nat,
    e: nat,
)
    requires
        d <= e,
        expand_prefix(s, n, lib, path, d) is Ok,
    ensures
        expand_prefix(s, n, lib, path, e) == expand_prefix(s, n, lib, path, d),
    decreases d, s, n,
{
    if n <= 0 || n > s.len() {
    } else {
        lemma_depth_monotone_prefix(s, n - 1, lib, path, d, e);
        lemma_depth_monotone(s[n - 1], lib, path, d, e);
    }
}

/// Nesting, not document size, bounds the work: once expansion succeeds with a
/// given depth, every larger depth gives the same result.
pub proof fn law_depth_only_bounds_nesting(
    s: Seq<Tree>,
    lib: Map<Seq<char>, Seq<Tree>>,
    path: Seq<char>,
    depth: nat,
    larger: nat,
)
    requires
        depth <= larger,
        expand_seq(s, lib, path, depth) is Ok,
    ensures
        expand_seq(s, lib, path, larger) == expand_seq(s, lib, path, depth),
{
    lemma_depth_monotone_prefix(s, s.len() as int, lib, path, depth, larger);
}

proof fn lemma_prefix_ok_iff_each(
    s: Seq<Tree>,
    n: int,
    lib: Map<Seq<char>, Seq<Tree>>,
    path: Seq<char>,
    depth: nat,
)
    requires
        0 <= n <= s.len(),
    ensures
        expand_prefix(s, n, lib, path, depth) is Ok <==> forall|i: int|
            0 <= i < n ==> (#[trigger] expand_tree(s[i], lib, path, depth)) is Ok,
    decreases n,
{
    if n > 0 {
        lemma_prefix_ok_iff_each(s, n - 1, lib, path, depth);
        if forall|i: int| 0 <= i < n ==> (#[trigger] expand_tree(s[i], lib, path, depth)) is Ok {
            assert(expand_tree(s[n - 1], lib, path, depth) is Ok);
            assert forall|i: int| 0 <= i < n - 1 implies (#[trigger] expand_tree(s[i], lib, path, depth)) is Ok by {}
        }
        if expand_prefix(s, n, lib, path, depth) is Ok {
            assert forall|i: int| 0 <= i < n implies (#[trigger] expand_tree(s[i], lib, path, depth)) is Ok by {
                if i < n - 1 {
                    assert(expand_prefix(s, n - 1, lib, path, depth) is Ok);
                }
            }
        }
    }
}

/// The depth a document needs is the largest that one of its top-level nodes
/// needs, whatever their number: expansion at a given depth succeeds exactly
/// when it succeeds on each top-level node at that depth.
pub proof fn law_depth_needed_is_per_node(
    s: Seq<Tree>,
    lib: Map<Seq<char>, Seq<Tree>>,
    path: Seq<char>,
    depth: nat,
)
    ensures
        expand_seq(s, lib, path, depth) is Ok <==> forall|i: int|
            0 <= i < s.len() ==> (#[trigger] expand_tree(s[i], lib, path, depth)) is Ok,
{
    lemma_prefix_ok_iff_each(s, s.len() as int, lib, path, depth);
}

} // verus!
