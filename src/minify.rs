use vstd::prelude::*;
use crate::text::{chars_of, push_char, string_of_range};
use crate::tree::{Tree, Node, Element, nodes_view, lemma_view_element, duplicate_attrs};

verus! {

broadcast use vstd::std_specs::vec::axiom_vec_index_decreases;

/// The characters with the Unicode `White_Space` property.
pub open spec fn is_ws(c: char) -> bool {
    ||| '\u{9}' <= c <= '\u{D}'
    ||| c == ' '
    ||| c == '\u{85}'
    ||| c == '\u{A0}'
    ||| c == '\u{1680}'
    ||| '\u{2000}' <= c <= '\u{200A}'
    ||| c == '\u{2028}'
    ||| c == '\u{2029}'
    ||| c == '\u{202F}'
    ||| c == '\u{205F}'
    ||| c == '\u{3000}'
}

pub fn is_whitespace(c: char) -> (r: bool)
    ensures
        r == is_ws(c),
{
    ('\u{9}' <= c && c <= '\u{D}') || c == ' ' || c == '\u{85}' || c == '\u{A0}' || c == '\u{1680}' || (
    '\u{2000}' <= c && c <= '\u{200A}') || c == '\u{2028}' || c == '\u{2029}' || c == '\u{202F}' || c
        == '\u{205F}' || c == '\u{3000}'
}

/// `t` with each maximal run of whitespace replaced by one space.
pub open spec fn squeeze(t: Seq<char>) -> Seq<char>
    decreases t.len(),
{
    if t.len() == 0 {
        Seq::empty()
    } else {
        let p = squeeze(t.drop_last());
        if is_ws(t.last()) {
            if p.len() > 0 && p.last() == ' ' {
                p
            } else {
                p.push(' ')
            }
        } else {
            p.push(t.last())
        }
    }
}

/// The words of `t` joined by single spaces: [`squeeze`] without a space at either end.
pub open spec fn collapse(t: Seq<char>) -> Seq<char> {
    let q = squeeze(t);
    let q1 = if q.len() > 0 && q[0] == ' ' {
        q.drop_first()
    } else {
        q
    };
    if q1.len() > 0 && q1.last() == ' ' {
        q1.drop_last()
    } else {
        q1
    }
}

/// The new content of a text node, or `None` where it goes: its words joined by
/// single spaces, with one space kept at a whitespace end that borders a node.
pub open spec fn minify_text(t: Seq<char>, has_prev: bool, has_next: bool) -> Option<Seq<char>> {
    let core = collapse(t);
    if core.len() == 0 {
        None
    } else {
        let lead: Seq<char> = if has_prev && t.len() > 0 && is_ws(t[0]) {
            seq![' ']
        } else {
            Seq::empty()
        };
        let trail: Seq<char> = if has_next && t.len() > 0 && is_ws(t.last()) {
            seq![' ']
        } else {
            Seq::empty()
        };
        Some(lead + core + trail)
    }
}

/// What one node becomes: comments go, text is minified, elements keep their
/// name and attributes and have their children minified.
pub open spec fn minify_tree(t: Tree, has_prev: bool, has_next: bool) -> Seq<Tree>
    decreases t, 0int,
{
    match t {
        Tree::Element { name, attrs, children } => seq![
            Tree::Element { name, attrs, children: minify_prefix(children, children.len() as int) },
        ],
        Tree::Text { text } => match minify_text(text, has_prev, has_next) {
            Some(m) => seq![Tree::Text { text: m }],
            None => Seq::empty(),
        },
        Tree::Comment { .. } => Seq::empty(),
    }
}

/// Whether a node is left by minification: an element, or a text with a word.
pub open spec fn survives(t: Tree) -> bool {
    ||| t is Element
    ||| t matches Tree::Text { text } && collapse(text).len() > 0
}

/// Whether some sibling from index `n` of `s` on is left by minification.
pub open spec fn survivor_from(s: Seq<Tree>, n: int) -> bool {
    exists|j: int| n <= j < s.len() && survives(#[trigger] s[j])
}

/// Minification of the first `n` siblings of `s`, in order: a node has a
/// previous sibling where something is left before it, and a next sibling
/// where something after it is left.
pub open spec fn minify_prefix(s: Seq<Tree>, n: int) -> Seq<Tree>
    decreases s, n,
{
    if n <= 0 || n > s.len() {
        Seq::empty()
    } else {
        let done = minify_prefix(s, n - 1);
        done + minify_tree(s[n - 1], done.len() > 0, survivor_from(s, n))
    }
}

pub open spec fn minify_seq(s: Seq<Tree>) -> Seq<Tree> {
    minify_prefix(s, s.len() as int)
}

fn squeeze_chars(t: &Vec<char>) -> (r: Vec<char>)
    ensures
        r@ == squeeze(t@),
{
    let mut r: Vec<char> = Vec::new();
    let mut i: usize = 0;
    while i < t.len()
        invariant
            i <= t@.len(),
            r@ == squeeze(t@.subrange(0, i as int)),
        decreases t.len() - i,
    {
        assert(t@.subrange(0, i + 1).drop_last() =~= t@.subrange(0, i as int));
        let c = t[i];
        if is_whitespace(c) {
            if !(r.len() > 0 && r[r.len() - 1] == ' ') {
                r.push(' ');
            }
        } else {
            r.push(c);
        }
        i = i + 1;
    }
    assert(t@.subrange(0, i as int) =~= t@);
    r
}

/// Minifies the content of a text node, as [`minify_text`] says.
pub fn minify_string(t: &String, has_prev: bool, has_next: bool) -> (r: Option<String>)
    ensures
        match r {
            Some(m) => minify_text(t@, has_prev, has_next) == Some(m@),
            None => minify_text(t@, has_prev, has_next) is None,
        },
{
    let cs = chars_of(t.as_str());
    let q = squeeze_chars(&cs);
    let start: usize = if q.len() > 0 && q[0] == ' ' {
        1
    } else {
        0
    };
    let end: usize = if q.len() > start && q[q.len() - 1] == ' ' {
        q.len() - 1
    } else {
        q.len()
    };
    proof {
        let q1 = if q@.len() > 0 && q@[0] == ' ' {
            q@.drop_first()
        } else {
            q@
        };
        assert(q1 =~= q@.subrange(start as int, q@.len() as int));
        if q1.len() > 0 {
            assert(q1.last() == q@[q@.len() - 1]);
        }
        assert(collapse(t@) =~= q@.subrange(start as int, end as int));
    }
    if end <= start {
        return None;
    }
    let mut out = String::new();
    let n = cs.len();
    if has_prev && n > 0 && is_whitespace(cs[0]) {
        push_char(&mut out, ' ');
    }
    let core = string_of_range(&q, start, end);
    let ghost lead = out@;
    let core_chars = chars_of(core.as_str());
    crate::text::append_chars(&mut out, &core_chars);
    let ghost mid = out@;
    if has_next && n > 0 && is_whitespace(cs[n - 1]) {
        push_char(&mut out, ' ');
    }
    proof {
        let trail: Seq<char> = if has_next && t@.len() > 0 && is_ws(t@.last()) {
            seq![' ']
        } else {
            Seq::empty()
        };
        assert(out@ =~= mid + trail);
        let lead_s: Seq<char> = if has_prev && t@.len() > 0 && is_ws(t@[0]) {
            seq![' ']
        } else {
            Seq::empty()
        };
        assert(lead =~= lead_s);
    }
    Some(out)
}

/// Minifies one node, as [`minify_tree`] says.
pub fn minify_node(n: &Node, has_prev: bool, has_next: bool) -> (r: Vec<Node>)
    ensures
        nodes_view(r@) == minify_tree(n@, has_prev, has_next),
    decreases n, 1int,
{
    let mut r: Vec<Node> = Vec::new();
    match n {
        Node::Element(e) => {
            proof {
                lemma_view_element(e);
                assert(n@ == e@);
            }
            let kids = minify_nodes(&e.children);
            let m = Element { name: e.name.clone(), attrs: duplicate_attrs(&e.attrs), children: kids };
            proof {
                lemma_view_element(&m);
            }
            let ghost mv = m@;
            r.push(Node::Element(m));
            assert(nodes_view(r@) =~= seq![mv]);
        },
        Node::Text(t) => {
            match minify_string(t, has_prev, has_next) {
                Some(m) => {
                    let ghost mv = m@;
                    r.push(Node::Text(m));
                    assert(nodes_view(r@) =~= seq![Tree::Text { text: mv }]);
                },
                None => {
                    assert(nodes_view(r@) =~= Seq::<Tree>::empty());
                },
            }
        },
        Node::Comment(_) => {
            assert(nodes_view(r@) =~= Seq::<Tree>::empty());
        },
    }
    r
}

/// Whether some node of `ns` from index `from` on is left by minification.
fn survivor_after(ns: &Vec<Node>, from: usize) -> (r: bool)
    requires
        from <= ns@.len(),
    ensures
        r == survivor_from(nodes_view(ns@), from as int),
{
    let ghost s = nodes_view(ns@);
    let mut j: usize = from;
    while j < ns.len()
        invariant
            from <= j <= ns@.len(),
            s == nodes_view(ns@),
            forall|k: int| from <= k < j ==> !survives(#[trigger] s[k]),
        decreases ns.len() - j,
    {
        assert(s[j as int] == ns@[j as int]@);
        let kept = match &ns[j] {
            Node::Element(e) => {
                proof {
                    lemma_view_element(e);
                }
                true
            },
            Node::Text(t) => minify_string(t, false, false).is_some(),
            Node::Comment(_) => false,
        };
        if kept {
            assert(survives(s[j as int]));
            return true;
        }
        j = j + 1;
    }
    false
}

/// Minifies a sequence of sibling nodes: comments are removed, whitespace in
/// text is collapsed, and text left with nothing but whitespace is removed.
pub fn minify_nodes(ns: &Vec<Node>) -> (r: Vec<Node>)
    ensures
        nodes_view(r@) == minify_seq(nodes_view(ns@)),
    decreases ns, 0int,
{
    let ghost s = nodes_view(ns@);
    let mut out: Vec<Node> = Vec::new();
    let mut i: usize = 0;
    assert(nodes_view(out@) =~= Seq::<Tree>::empty());
    while i < ns.len()
        invariant
            i <= ns@.len(),
            s == nodes_view(ns@),
            nodes_view(out@) == minify_prefix(s, i as int),
        decreases ns.len() - i,
    {
        assert(s[i as int] == ns@[i as int]@);
        let has_prev = out.len() > 0;
        let has_next = survivor_after(ns, i + 1);
        let mut v = minify_node(&ns[i], has_prev, has_next);
        let ghost before = out@;
        let ghost vv = v@;
        out.append(&mut v);
        assert(nodes_view(out@) =~= nodes_view(before) + nodes_view(vv));
        i = i + 1;
    }
    out
}

} // verus!
