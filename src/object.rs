use vstd::prelude::*;
use crate::element::ScadElement;

verus! {

/// The mathematical shape of a document tree.
pub struct Tree {
    pub element: ScadElement,
    pub children: Seq<Tree>,
}

/// A node of a document: one operation and its children, in order.
pub struct ScadObject {
    pub element: ScadElement,
    pub children: Vec<ScadObject>,
}

/// `d` tab characters.
pub open spec fn tabs(d: nat) -> Seq<char> {
    Seq::new(d, |i: int| '\t')
}

/// The text of `t` at depth `d`: a leaf is its header and a semicolon; a
/// block is its header, then its children between braces, one per line,
/// each one level deeper.
pub open spec fn tree_code(t: Tree, d: nat) -> Seq<char>
    decreases t,
{
    if t.children.len() == 0 {
        t.element.text() + ";"@
    } else {
        t.element.text() + "\n"@ + tabs(d) + "{\n"@ + block_code(t.children, d + 1) + "\n"@
            + tabs(d) + "}"@
    }
}

/// The lines of `cs` at depth `d`, each indented, joined by newlines.
pub open spec fn block_code(cs: Seq<Tree>, d: nat) -> Seq<char>
    decreases cs,
{
    if cs.len() == 0 {
        Seq::empty()
    } else if cs.len() == 1 {
        tabs(d) + tree_code(cs[0], d)
    } else {
        block_code(cs.subrange(0, cs.len() - 1), d) + "\n"@ + tabs(d) + tree_code(cs[cs.len() - 1], d)
    }
}

impl ScadObject {
    pub open spec fn view(&self) -> Tree
        decreases self,
    {
        Tree {
            element: self.element,
            children: Seq::new(
                self.children.len() as nat,
                |i: int|
                    if 0 <= i < self.children.len() {
                        self.children[i].view()
                    } else {
                        Tree { element: self.element, children: Seq::empty() }
                    },
            ),
        }
    }

    /// A node with no children.
    pub fn new(element: ScadElement) -> (r: ScadObject)
        ensures
            r@ == (Tree { element, children: Seq::empty() }),
    {
        let r = ScadObject { element, children: Vec::new() };
        assert(r@.children =~= Seq::<Tree>::empty());
        r
    }

    /// Appends `child` after the children already there.
    pub fn add_child(&mut self, child: ScadObject)
        ensures
            final(self)@ == (Tree { element: old(self)@.element, children: old(self)@.children.push(child@) }),
    {
        let ghost before = self@;
        self.children.push(child);
        assert(self@.children =~= before.children.push(child@));
    }

    /// Appends the rendering of this node at depth `d` to `out`;
    /// `pad` holds the indentation of depth `d`.
    fn render_into(&self, out: &mut String, pad: &String, Ghost(d): Ghost<nat>)
        requires
            pad@ == tabs(d),
        ensures
            final(out)@ == old(out)@ + tree_code(self@, d),
        decreases self,
    {
        let ghost t = self@;
        out.append(self.element.get_code().as_str());
        proof {
            reveal_strlit(";");
            reveal_strlit("\n");
            reveal_strlit("{\n");
            reveal_strlit("}");
            reveal_strlit("\t");
        }
        if self.children.len() == 0 {
            out.append(";");
            assert(out@ =~= old(out)@ + tree_code(t, d));
        } else {
            out.append("\n");
            out.append(pad.as_str());
            out.append("{\n");
            let ghost head = out@;
            let mut inner = pad.clone();
            inner.append("\t");
            assert(inner@ =~= tabs(d + 1));
            let mut i: usize = 0;
            let n = self.children.len();
            assert(t.children.subrange(0, 0) =~= Seq::<Tree>::empty());
            while i < n
                invariant
                    0 <= i <= n == self.children.len(),
                    t == self@,
                    inner@ == tabs(d + 1),
                    out@ == head + block_code(t.children.subrange(0, i as int), d + 1),
                decreases n - i,
            {
                if i > 0 {
                    out.append("\n");
                }
                out.append(inner.as_str());
                self.children[i].render_into(out, &inner, Ghost(d + 1));
                proof {
                    let s = t.children.subrange(0, i + 1);
                    assert(s.subrange(0, s.len() - 1) =~= t.children.subrange(0, i as int));
                    assert(s[s.len() - 1] == self.children[i as int]@);
                }
                i = i + 1;
            }
            assert(t.children.subrange(0, n as int) =~= t.children);
            out.append("\n");
            out.append(pad.as_str());
            out.append("}");
            assert(out@ =~= old(out)@ + tree_code(t, d));
        }
    }

    /// The script text of the tree rooted here, as it stands at depth
    /// `depth`: nested lines are indented from that depth on, the first
    /// line is not.
    pub fn render(&self, depth: usize) -> (r: String)
        ensures
            r@ == tree_code(self@, depth as nat),
    {
        let mut pad = String::new();
        let mut i: usize = 0;
        assert(pad@ =~= tabs(0));
        while i < depth
            invariant
                i <= depth,
                pad@ == tabs(i as nat),
            decreases depth - i,
        {
            proof {
                reveal_strlit("\t");
            }
            pad.append("\t");
            assert(pad@ =~= tabs((i + 1) as nat));
            i = i + 1;
        }
        let mut out = String::new();
        self.render_into(&mut out, &pad, Ghost(depth as nat));
        assert(out@ =~= tree_code(self@, depth as nat));
        out
    }

    /// The script text of the tree rooted here.
    pub fn get_code(&self) -> (r: String)
        ensures
            r@ == tree_code(self@, 0),
    {
        self.render(0)
    }
}

} // verus!
