use vstd::prelude::*;

verus! {

broadcast use vstd::std_specs::vec::axiom_vec_index_decreases;

/// Mathematical model of a document node.
pub enum Tree {
    Element { name: Seq<char>, attrs: Seq<(Seq<char>, Seq<char>)>, children: Seq<Tree> },
    Text { text: Seq<char> },
    Comment { text: Seq<char> },
}

/// One attribute of an element: a name and its value.
#[derive(Debug)]
pub struct Attribute {
    pub name: String,
    pub value: String,
}

/// An element: a tag name, its attributes in order, and its children in order.
#[derive(Debug)]
pub struct Element {
    pub name: String,
    pub attrs: Vec<Attribute>,
    pub children: Vec<Node>,
}

/// A document node: an element, a text node or a comment.
#[derive(Debug)]
pub enum Node {
    Element(Element),
    Text(String),
    Comment(String),
}

/// Model of an attribute: its name and its value.
pub open spec fn attr_view(a: Attribute) -> (Seq<char>, Seq<char>) {
    (a.name@, a.value@)
}

/// Models of a sequence of attributes.
pub open spec fn attrs_view(attrs: Seq<Attribute>) -> Seq<(Seq<char>, Seq<char>)> {
    attrs.map_values(|a: Attribute| attr_view(a))
}

/// Stands for indices outside a sequence in the definitions below; never reached.
pub open spec fn empty_text() -> Tree {
    Tree::Text { text: Seq::empty() }
}

impl Node {
    pub open spec fn view(&self) -> Tree
        decreases self,
    {
        match self {
            Node::Element(e) => Tree::Element {
                name: e.name@,
                attrs: attrs_view(e.attrs@),
                children: Seq::new(
                    e.children@.len(),
                    |i: int|
                        if 0 <= i < e.children.len() {
                            e.children[i].view()
                        } else {
                            empty_text()
                        },
                ),
            },
            Node::Text(t) => Tree::Text { text: t@ },
            Node::Comment(t) => Tree::Comment { text: t@ },
        }
    }
}

impl Element {
    pub open spec fn view(&self) -> Tree {
        Node::Element(*self).view()
    }
}

/// Models of a sequence of nodes.
pub open spec fn nodes_view(s: Seq<Node>) -> Seq<Tree> {
    s.map_values(|n: Node| n@)
}

/// Concatenation, in order, of a sequence of node sequences.
pub open spec fn concat(ss: Seq<Seq<Tree>>) -> Seq<Tree>
    decreases ss.len(),
{
    if ss.len() == 0 {
        Seq::empty()
    } else {
        concat(ss.drop_last()) + ss.last()
    }
}

/// Index of the first attribute named `key` at or after index `i`.
pub open spec fn first_index_from(attrs: Seq<(Seq<char>, Seq<char>)>, key: Seq<char>, i: int) -> Option<int>
    decreases attrs.len() - i,
{
    if i < 0 || i >= attrs.len() {
        None
    } else if attrs[i].0 == key {
        Some(i)
    } else {
        first_index_from(attrs, key, i + 1)
    }
}

/// Index of the first attribute named `key`.
pub open spec fn first_index(attrs: Seq<(Seq<char>, Seq<char>)>, key: Seq<char>) -> Option<int> {
    first_index_from(attrs, key, 0)
}

/// The value of the first attribute named `key`, if any.
pub open spec fn lookup(attrs: Seq<(Seq<char>, Seq<char>)>, key: Seq<char>) -> Option<Seq<char>> {
    match first_index(attrs, key) {
        Some(j) => Some(attrs[j].1),
        None => None,
    }
}

/// Sets attribute `key` to `value`: the first attribute of that name takes the
/// new value in place; where there is none, the attribute is added at the end.
pub open spec fn set_attr(
    attrs: Seq<(Seq<char>, Seq<char>)>,
    key: Seq<char>,
    value: Seq<char>,
) -> Seq<(Seq<char>, Seq<char>)> {
    match first_index(attrs, key) {
        Some(j) => attrs.update(j, (key, value)),
        None => attrs.push((key, value)),
    }
}

/// `base` with each attribute of `extra` set on it in turn.
pub open spec fn merge_attrs(
    base: Seq<(Seq<char>, Seq<char>)>,
    extra: Seq<(Seq<char>, Seq<char>)>,
) -> Seq<(Seq<char>, Seq<char>)>
    decreases extra.len(),
{
    if extra.len() == 0 {
        base
    } else {
        let m = merge_attrs(base, extra.drop_last());
        set_attr(m, extra.last().0, extra.last().1)
    }
}

/// Index of the first attribute named `key`, if any.
pub fn find_attr(attrs: &Vec<Attribute>, key: &String) -> (r: Option<usize>)
    ensures
        match r {
            Some(i) => i < attrs@.len() && first_index(attrs_view(attrs@), key@) == Some(i as int),
            None => first_index(attrs_view(attrs@), key@) is None,
        },
        match r {
            Some(i) => lookup(attrs_view(attrs@), key@) == Some(attrs@[i as int].value@),
            None => lookup(attrs_view(attrs@), key@) is None,
        },
{
    let ghost av = attrs_view(attrs@);
    let mut i: usize = 0;
    while i < attrs.len()
        invariant
            i <= attrs@.len(),
            av == attrs_view(attrs@),
            first_index(av, key@) == first_index_from(av, key@, i as int),
        decreases attrs.len() - i,
    {
        assert(av[i as int] == attr_view(attrs@[i as int]));
        if attrs[i].name == *key {
            return Some(i);
        }
        i = i + 1;
    }
    None
}

/// Sets attribute `key` to `value`, as [`set_attr`] says.
pub fn set_attribute(attrs: &mut Vec<Attribute>, key: String, value: String)
    ensures
        attrs_view(final(attrs)@) == set_attr(attrs_view(old(attrs)@), key@, value@),
{
    let ghost a0 = attrs_view(attrs@);
    match find_attr(attrs, &key) {
        Some(i) => {
            let ghost kv = key@;
            let ghost vv = value@;
            attrs.set(i, Attribute { name: key, value });
            assert(attrs_view(attrs@) =~= a0.update(i as int, (kv, vv)));
        },
        None => {
            let ghost kv = key@;
            let ghost vv = value@;
            attrs.push(Attribute { name: key, value });
            assert(attrs_view(attrs@) =~= a0.push((kv, vv)));
        },
    }
}

/// The model of an element, field by field.
pub proof fn lemma_view_element(e: &Element)
    ensures
        e@ is Element,
        e@->Element_name == e.name@,
        e@->Element_attrs == attrs_view(e.attrs@),
        e@->Element_children == nodes_view(e.children@),
{
    assert(e@->Element_children =~= nodes_view(e.children@));
}

impl Attribute {
    pub fn duplicate(&self) -> (r: Attribute)
        ensures
            attr_view(r) == attr_view(*self),
    {
        Attribute { name: self.name.clone(), value: self.value.clone() }
    }
}

/// A copy of a sequence of attributes.
pub fn duplicate_attrs(attrs: &Vec<Attribute>) -> (r: Vec<Attribute>)
    ensures
        attrs_view(r@) == attrs_view(attrs@),
{
    let mut r: Vec<Attribute> = Vec::new();
    let mut i: usize = 0;
    while i < attrs.len()
        invariant
            i <= attrs.len(),
            r.len() == i,
            forall|k: int| 0 <= k < i ==> attr_view(#[trigger] r@[k]) == attr_view(attrs@[k]),
        decreases attrs.len() - i,
    {
        r.push(attrs[i].duplicate());
        i = i + 1;
    }
    assert(attrs_view(r@) =~= attrs_view(attrs@));
    r
}

impl Element {
    /// A deep copy of this element.
    pub fn duplicate(&self) -> (r: Element)
        ensures
            r@ == self@,
        decreases self, 1int,
    {
        proof {
            lemma_view_element(self);
        }
        let kids = duplicate_nodes(&self.children);
        let r = Element { name: self.name.clone(), attrs: duplicate_attrs(&self.attrs), children: kids };
        proof {
            lemma_view_element(&r);
        }
        r
    }
}

impl Node {
    /// A deep copy of this node.
    pub fn duplicate(&self) -> (r: Node)
        ensures
            r@ == self@,
        decreases self, 2int,
    {
        match self {
            Node::Element(e) => Node::Element(e.duplicate()),
            Node::Text(t) => Node::Text(t.clone()),
            Node::Comment(t) => Node::Comment(t.clone()),
        }
    }
}

/// A deep copy of a sequence of nodes.
pub fn duplicate_nodes(nodes: &Vec<Node>) -> (r: Vec<Node>)
    ensures
        nodes_view(r@) == nodes_view(nodes@),
    decreases nodes, 0int,
{
    let mut r: Vec<Node> = Vec::new();
    let mut i: usize = 0;
    while i < nodes.len()
        invariant
            i <= nodes.len(),
            r.len() == i,
            forall|k: int| 0 <= k < i ==> (#[trigger] r@[k])@ == nodes@[k]@,
        decreases nodes.len() - i,
    {
        let n = nodes[i].duplicate();
        r.push(n);
        i = i + 1;
    }
    assert(nodes_view(r@) =~= nodes_view(nodes@));
    r
}

/// [`concat`] of a prefix grows by one sequence at a time.
pub proof fn lemma_concat_step(ss: Seq<Seq<Tree>>, i: int)
    requires
        0 <= i < ss.len(),
    ensures
        concat(ss.subrange(0, i + 1)) == concat(ss.subrange(0, i)) + ss[i],
{
    assert(ss.subrange(0, i + 1).drop_last() =~= ss.subrange(0, i));
}

} // verus!
