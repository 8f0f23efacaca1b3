use vstd::prelude::*;
use crate::expr::{Context, Warning, ExpandError, grows, diags};
use crate::instance::{instantiate, instantiate_diags, instantiate_body, res_view};
use crate::tree::{Tree, Node, Element, nodes_view};

verus! {

/// A named, reusable markup fragment: its tag name and its top-level nodes.
pub struct ComponentDefinition {
    pub tag_name: String,
    pub body: Vec<Node>,
}

impl ComponentDefinition {
    pub fn new(tag_name: String, body: Vec<Node>) -> (r: ComponentDefinition)
        ensures
            r.tag_name@ == tag_name@,
            nodes_view(r.body@) == nodes_view(body@),
    {
        ComponentDefinition { tag_name, body }
    }

    pub fn tag_name(&self) -> (r: &String)
        ensures
            r@ == self.tag_name@,
    {
        &self.tag_name
    }

    /// The nodes that this component stands for where element `inv` invokes it.
    /// The stored body is left as it is.
    pub fn instantiate(&self, inv: &Element, ctx: &Context, warnings: &mut Vec<Warning>) -> (r: Result<
        Vec<Node>,
        ExpandError,
    >)
        ensures
            res_view(r) == instantiate(nodes_view(self.body@), inv@, ctx.file_path@),
            r is Ok ==> diags(final(warnings)@) == diags(old(warnings)@) + instantiate_diags(
                nodes_view(self.body@),
                inv@,
                ctx.file_path@,
            ),
            grows(old(warnings)@, final(warnings)@),
    {
        instantiate_body(&self.body, inv, ctx, warnings)
    }
}

/// A fatal error in building a component library.
#[derive(Debug)]
pub enum LibraryError {
    /// Two definitions carry this tag name.
    DuplicateTag(String),
}

spec fn named_at(es: Seq<ComponentDefinition>, k: Seq<char>, i: int) -> bool {
    0 <= i < es.len() && es[i].tag_name@ == k
}

/// The components of one run, at most one per tag name.
pub struct ComponentLibrary {
    elements: Vec<ComponentDefinition>,
}

impl ComponentLibrary {
    #[verifier::type_invariant]
    spec fn unique_names(&self) -> bool {
        forall|i: int, j: int|
            0 <= i < self.elements@.len() && 0 <= j < self.elements@.len() && i != j
                ==> #[trigger] self.elements@[i].tag_name@ != #[trigger] self.elements@[j].tag_name@
    }

    /// Each tag name with the body of its component.
    pub closed spec fn view(&self) -> Map<Seq<char>, Seq<Tree>> {
        Map::new(
            |k: Seq<char>| exists|i: int| named_at(self.elements@, k, i),
            |k: Seq<char>| nodes_view(self.elements@[choose|i: int| named_at(self.elements@, k, i)].body@),
        )
    }

    pub fn new() -> (r: ComponentLibrary)
        ensures
            r@ == Map::<Seq<char>, Seq<Tree>>::empty(),
    {
        let r = ComponentLibrary { elements: Vec::new() };
        assert(r@ =~= Map::<Seq<char>, Seq<Tree>>::empty());
        r
    }

    /// The definitions, one per tag name.
    pub fn elements(&self) -> (r: &Vec<ComponentDefinition>)
        ensures
            forall|i: int|
                0 <= i < r@.len() ==> #[trigger] self@.contains_key(r@[i].tag_name@) && self@[r@[i].tag_name@]
                    == nodes_view(r@[i].body@),
            forall|k: Seq<char>| #[trigger] self@.contains_key(k) ==> exists|i: int| 0 <= i < r@.len() && r@[i].tag_name@ == k,
    {
        proof {
            use_type_invariant(self);
            assert forall|i: int| 0 <= i < self.elements@.len() implies #[trigger] self@.contains_key(self.elements@[i].tag_name@)
                && self@[self.elements@[i].tag_name@] == nodes_view(self.elements@[i].body@) by {
                let k = self.elements@[i].tag_name@;
                assert(named_at(self.elements@, k, i));
                let j = choose|j: int| named_at(self.elements@, k, j);
                assert(i == j);
            }
        }
        &self.elements
    }

    /// Index of the component named `name`.
    fn position(&self, name: &String) -> (r: Option<usize>)
        ensures
            match r {
                Some(i) => named_at(self.elements@, name@, i as int),
                None => forall|i: int| !named_at(self.elements@, name@, i),
            },
    {
        let mut i: usize = 0;
        while i < self.elements.len()
            invariant
                i <= self.elements@.len(),
                forall|j: int| 0 <= j < i ==> !named_at(self.elements@, name@, j),
            decreases self.elements.len() - i,
        {
            if self.elements[i].tag_name == *name {
                return Some(i);
            }
            i = i + 1;
        }
        None
    }

    /// The component named `name`, if the library holds one.
    pub fn get(&self, name: &String) -> (r: Option<&ComponentDefinition>)
        ensures
            r is Some == self@.contains_key(name@),
            r matches Some(d) ==> d.tag_name@ == name@ && nodes_view(d.body@) == self@[name@],
    {
        proof {
            use_type_invariant(self);
        }
        match self.position(name) {
            Some(i) => {
                proof {
                    let j = choose|j: int| named_at(self.elements@, name@, j);
                    assert(j == i);
                }
                Some(&self.elements[i])
            },
            None => None,
        }
    }

    /// Adds a component. Fails, leaving the library as it was, where one of the
    /// same tag name is already there.
    pub fn insert(&mut self, def: ComponentDefinition) -> (r: Result<(), LibraryError>)
        ensures
            r is Err <==> old(self)@.contains_key(def.tag_name@),
            r matches Err(LibraryError::DuplicateTag(t)) ==> t@ == def.tag_name@,
            r is Err ==> final(self)@ == old(self)@,
            r is Ok ==> final(self)@ == old(self)@.insert(def.tag_name@, nodes_view(def.body@)),
    {
        proof {
            use_type_invariant(&*self);
        }
        match self.position(&def.tag_name) {
            Some(_) => Err(LibraryError::DuplicateTag(def.tag_name)),
            None => {
                let ghost old_lib = self@;
                let ghost es = self.elements@;
                proof {
                    assert forall|j: int| !named_at(es, def.tag_name@, j) by {
                        assert(!named_at(self.elements@, def.tag_name@, j));
                    }
                }
                let ghost name = def.tag_name@;
                let ghost body = nodes_view(def.body@);
                let mut elements: Vec<ComponentDefinition> = Vec::new();
                std::mem::swap(&mut elements, &mut self.elements);
                let ghost before = elements@;
                elements.push(def);
                proof {
                    assert(elements@ == es.push(def));
                    assert forall|i: int, j: int|
                        0 <= i < elements@.len() && 0 <= j < elements@.len() && i != j
                            implies #[trigger] elements@[i].tag_name@ != #[trigger] elements@[j].tag_name@ by {
                        if i == es.len() {
                            assert(!named_at(es, name, j));
                        } else if j == es.len() {
                            assert(!named_at(es, name, i));
                        }
                    }
                }
                let lib = ComponentLibrary { elements };
                proof {
                    assert(forall|k: Seq<char>| #[trigger] old_lib.contains_key(k) <==> exists|i: int| named_at(es, k, i));
                    assert forall|k: Seq<char>| #[trigger] lib@.contains_key(k) == old_lib.insert(name, body).contains_key(k) by {
                        if exists|i: int| named_at(es, k, i) {
                            let i = choose|i: int| named_at(es, k, i);
                            assert(named_at(lib.elements@, k, i));
                        }
                        if k == name {
                            assert(named_at(lib.elements@, k, before.len() as int));
                        }
                        if exists|i: int| named_at(lib.elements@, k, i) {
                            let i = choose|i: int| named_at(lib.elements@, k, i);
                            if i < before.len() {
                                assert(named_at(es, k, i));
                            }
                        }
                    }
                    assert forall|k: Seq<char>| #[trigger] lib@.contains_key(k) implies lib@[k] == old_lib.insert(name, body)[k] by {
                        let i = choose|i: int| named_at(lib.elements@, k, i);
                        if k == name {
                            assert(named_at(lib.elements@, k, before.len() as int));
                            assert(i == before.len());
                        } else {
                            assert(i < before.len());
                            assert(named_at(es, k, i));
                            let j = choose|j: int| named_at(es, k, j);
                            assert(i == j);
                        }
                    }
                    assert(lib@ =~= old_lib.insert(name, body));
                }
                *self = lib;
                Ok(())
            },
        }
    }

    /// A library holding `defs`; fails on the first tag name that is repeated.
    pub fn from_definitions(defs: Vec<ComponentDefinition>) -> (r: Result<ComponentLibrary, LibraryError>)
        ensures
            r is Ok <==> forall|i: int, j: int|
                0 <= i < j < defs@.len() ==> #[trigger] defs@[i].tag_name@ != #[trigger] defs@[j].tag_name@,
            r matches Ok(lib) ==> forall|i: int|
                0 <= i < defs@.len() ==> #[trigger] lib@.contains_key(defs@[i].tag_name@)
                    && lib@[defs@[i].tag_name@] == nodes_view(defs@[i].body@),
            r matches Ok(lib) ==> forall|k: Seq<char>|
                #[trigger] lib@.contains_key(k) ==> exists|i: int| 0 <= i < defs@.len() && defs@[i].tag_name@ == k,
            r matches Err(LibraryError::DuplicateTag(t)) ==> exists|i: int, j: int|
                0 <= i < j < defs@.len() && defs@[i].tag_name@ == t@ && defs@[j].tag_name@ == t@,
    {
        let mut lib = ComponentLibrary::new();
        let ghost all = defs@;
        let n = defs.len();
        let mut pending = defs;
        let mut i: usize = 0;
        while pending.len() > 0
            invariant
                all == defs@,
                n == all.len(),
                i <= n,
                pending@ == all.subrange(i as int, n as int),
                forall|a: int, b: int| 0 <= a < b < i ==> #[trigger] all[a].tag_name@ != #[trigger] all[b].tag_name@,
                forall|a: int|
                    0 <= a < i ==> #[trigger] lib@.contains_key(all[a].tag_name@) && lib@[all[a].tag_name@]
                        == nodes_view(all[a].body@),
                forall|k: Seq<char>| #[trigger] lib@.contains_key(k) ==> exists|a: int| 0 <= a < i && all[a].tag_name@ == k,
            decreases pending.len(),
        {
            let d = pending.remove(0);
            assert(d == all[i as int]);
            match lib.insert(d) {
                Err(e) => {
                    proof {
                        let a = choose|a: int| 0 <= a < i && all[a].tag_name@ == all[i as int].tag_name@;
                        assert(0 <= a < i < all.len() && all[a].tag_name@ == all[i as int].tag_name@);
                        let LibraryError::DuplicateTag(t) = e;
                        assert(0 <= a < i < defs@.len() && defs@[a].tag_name@ == t@ && defs@[i as int].tag_name@ == t@);
                        assert(defs@[a].tag_name@ == defs@[i as int].tag_name@);
                    }
                    return Err(e);
                },
                Ok(()) => {},
            }
            proof {
                assert forall|k: Seq<char>| #[trigger] lib@.contains_key(k) implies exists|a: int| 0 <= a < i + 1 && all[a].tag_name@ == k by {
                    if k != all[i as int].tag_name@ {
                        let a = choose|a: int| 0 <= a < i && all[a].tag_name@ == k;
                        assert(0 <= a < i + 1 && all[a].tag_name@ == k);
                    } else {
                        assert(all[i as int].tag_name@ == k);
                    }
                }
            }
            i = i + 1;
            assert(pending@ =~= all.subrange(i as int, n as int));
        }
        Ok(lib)
    }
}

} // verus!
