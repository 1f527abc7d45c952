use vstd::prelude::*;
use crate::element::ScadElement;
use crate::object::{ScadObject, Tree};

verus! {

/// One entry of a nested description of children.
pub enum ChildSpec {
    /// An operation with no children.
    Bare(ScadElement),
    /// An operation with its own nested children.
    Nested(ScadElement, Vec<ChildSpec>),
    /// A tree built before, moved in unchanged.
    Embed(ScadObject),
}

/// The tree that a nested description stands for.
pub open spec fn described(c: ChildSpec) -> Tree
    decreases c,
{
    match c {
        ChildSpec::Bare(e) => Tree { element: e, children: Seq::empty() },
        ChildSpec::Nested(e, cs) => nested_tree(e, cs@),
        ChildSpec::Embed(o) => o@,
    }
}

/// `e` with the trees that `cs` describe as children, in order.
pub open spec fn nested_tree(e: ScadElement, cs: Seq<ChildSpec>) -> Tree
    decreases cs,
{
    Tree {
        element: e,
        children: Seq::new(
            cs.len(),
            |i: int|
                if 0 <= i < cs.len() {
                    described(cs[i])
                } else {
                    Tree { element: e, children: Seq::empty() }
                },
        ),
    }
}

/// The trees of `cs`, in order.
pub open spec fn trees_of(cs: Seq<ScadObject>) -> Seq<Tree> {
    cs.map_values(|c: ScadObject| c@)
}

impl ScadObject {
    /// This node with `child` appended to its children.
    pub fn with_child(self, child: ScadObject) -> (r: ScadObject)
        ensures
            r@ == (Tree { element: self@.element, children: self@.children.push(child@) }),
    {
        let mut r = self;
        r.add_child(child);
        r
    }

    /// This node with `children` appended to its children, in order.
    pub fn with_children(self, children: Vec<ScadObject>) -> (r: ScadObject)
        ensures
            r@ == (Tree { element: self@.element, children: self@.children + trees_of(children@) }),
    {
        let mut r = self;
        let mut rest = children;
        let ghost all = rest@;
        let ghost start = r@;
        assert(all.len() == rest.len());
        let mut k: usize = 0;
        assert(trees_of(all.subrange(0, 0)) =~= Seq::<Tree>::empty());
        assert(start.children + Seq::<Tree>::empty() =~= start.children);
        while rest.len() > 0
            invariant
                all.len() <= usize::MAX,
                k + rest.len() == all.len(),
                rest@ =~= all.subrange(k as int, all.len() as int),
                r@ == (Tree { element: start.element, children: start.children + trees_of(all.subrange(0, k as int)) }),
            decreases rest.len(),
        {
            let c = rest.remove(0);
            r.add_child(c);
            proof {
                assert(trees_of(all.subrange(0, k + 1)) =~= trees_of(all.subrange(0, k as int)).push(c@));
                assert(start.children + trees_of(all.subrange(0, k + 1))
                    =~= (start.children + trees_of(all.subrange(0, k as int))).push(c@));
            }
            k = k + 1;
        }
        assert(all.subrange(0, k as int) =~= all);
        r
    }

    /// `element` with the trees that `children` describe as its children,
    /// in the order written.
    pub fn from_nested(element: ScadElement, children: Vec<ChildSpec>) -> (r: ScadObject)
        ensures
            r@ == nested_tree(element, children@),
        decreases children@,
    {
        let mut r = ScadObject::new(element);
        let mut rest = children;
        let ghost all = rest@;
        assert(all == children@);
        assert(all.len() == rest.len());
        let mut k: usize = 0;
        assert(r@.children =~= nested_tree(element, all).children.subrange(0, 0));
        while rest.len() > 0
            invariant
                all.len() <= usize::MAX,
                k + rest.len() == all.len(),
                rest@ =~= all.subrange(k as int, all.len() as int),
                all == children@,
                r@ == (Tree { element, children: nested_tree(element, all).children.subrange(0, k as int) }),
            decreases rest.len(),
        {
            let c = rest.remove(0);
            assert(c == all[k as int]);
            assert(decreases_to!(all => all[k as int]));
            let child = c.build();
            r.add_child(child);
            assert(r@.children =~= nested_tree(element, all).children.subrange(0, k + 1));
            k = k + 1;
        }
        assert(r@.children =~= nested_tree(element, all).children);
        r
    }
}

impl ChildSpec {
    /// The tree this entry describes.
    pub fn build(self) -> (r: ScadObject)
        ensures
            r@ == described(self),
        decreases self,
    {
        match self {
            ChildSpec::Bare(e) => ScadObject::new(e),
            ChildSpec::Nested(e, cs) => {
                assert(decreases_to!(self => cs@));
                ScadObject::from_nested(e, cs)
            },
            ChildSpec::Embed(o) => o,
        }
    }
}

} // verus!
