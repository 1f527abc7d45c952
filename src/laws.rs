use vstd::prelude::*;
use crate::builder::{ChildSpec, described, nested_tree, trees_of};
use crate::element::ScadElement;
use crate::decimal::{Decimal, chars_of, digit_char, strip_zeros};
use crate::element::{CircleType, Vec3};
use crate::object::{ScadObject, Tree, block_code, tabs, tree_code};

verus! {

/// A tree built from a nested description renders exactly as the tree built
/// by appending, as an explicit list, children that each match one entry of
/// the description.
pub proof fn nested_form_renders_as_list_form(
    element: ScadElement,
    specs: Seq<ChildSpec>,
    children: Seq<ScadObject>,
    d: nat,
)
    requires
        specs.len() == children.len(),
        forall|i: int| 0 <= i < specs.len() ==> described(#[trigger] specs[i]) == children[i]@,
    ensures
        nested_tree(element, specs) == (Tree { element, children: Seq::empty() + trees_of(children) }),
        tree_code(nested_tree(element, specs), d)
            == tree_code(Tree { element, children: Seq::empty() + trees_of(children) }, d),
{
    assert(nested_tree(element, specs).children =~= Seq::empty() + trees_of(children));
}

/// Moving a tree built before into a nested description gives the same tree,
/// and the same text, as describing that tree again in place.
pub proof fn embedded_subtree_renders_as_inline(
    element: ScadElement,
    specs: Seq<ChildSpec>,
    i: int,
    subtree: ScadObject,
    inline: ChildSpec,
    d: nat,
)
    requires
        0 <= i < specs.len(),
        described(inline) == subtree@,
    ensures
        nested_tree(element, specs.update(i, ChildSpec::Embed(subtree)))
            == nested_tree(element, specs.update(i, inline)),
        tree_code(nested_tree(element, specs.update(i, ChildSpec::Embed(subtree))), d)
            == tree_code(nested_tree(element, specs.update(i, inline)), d),
{
    assert(nested_tree(element, specs.update(i, ChildSpec::Embed(subtree))).children
        =~= nested_tree(element, specs.update(i, inline)).children);
}

/// Where the line of child `i` starts in `block_code(cs, d)`.
pub open spec fn line_start(cs: Seq<Tree>, d: nat, i: nat) -> nat
    decreases i,
{
    if i == 0 {
        0
    } else {
        line_start(cs, d, (i - 1) as nat) + d + tree_code(cs[i - 1], d).len() + 1
    }
}

proof fn lemma_line_start_prefix(cs: Seq<Tree>, pre: Seq<Tree>, d: nat, i: nat)
    requires
        i <= pre.len() <= cs.len(),
        pre == cs.subrange(0, pre.len() as int),
    ensures
        line_start(cs, d, i) == line_start(pre, d, i),
    decreases i,
{
    if i > 0 {
        lemma_line_start_prefix(cs, pre, d, (i - 1) as nat);
    }
}

proof fn lemma_line_start_increases(cs: Seq<Tree>, d: nat, i: nat, j: nat)
    requires
        i < j,
    ensures
        line_start(cs, d, i) < line_start(cs, d, j),
    decreases j,
{
    if i < j - 1 {
        lemma_line_start_increases(cs, d, i, (j - 1) as nat);
    }
}

/// Each child's line stands at its start in the block, after a newline.
#[verifier::rlimit(60)]
proof fn lemma_block_layout(cs: Seq<Tree>, d: nat)
    ensures
        cs.len() > 0 ==> block_code(cs, d).len() == line_start(cs, d, (cs.len() - 1) as nat) + d
            + tree_code(cs[cs.len() - 1], d).len(),
        forall|i: nat|
            i < cs.len() ==> {
                let p = #[trigger] line_start(cs, d, i);
                &&& p + d + tree_code(cs[i as int], d).len() <= block_code(cs, d).len()
                &&& block_code(cs, d).subrange(p as int, (p + d + tree_code(cs[i as int], d).len()) as int)
                    == tabs(d) + tree_code(cs[i as int], d)
                &&& i > 0 ==> block_code(cs, d)[p - 1] == '\n'
            },
    decreases cs.len(),
{
    reveal_strlit("\n");
    let n = cs.len();
    if n == 1 {
        assert(block_code(cs, d).subrange(0, (d + tree_code(cs[0], d).len()) as int) =~= block_code(cs, d));
    } else if n > 1 {
        let pre = cs.subrange(0, n - 1);
        lemma_block_layout(pre, d);
        let b = block_code(pre, d);
        let last = tree_code(cs[n - 1], d);
        let whole = block_code(cs, d);
        assert(whole == b + "\n"@ + tabs(d) + last);
        lemma_line_start_prefix(cs, pre, d, (n - 1) as nat);
        lemma_line_start_prefix(cs, pre, d, (n - 2) as nat);
        assert forall|i: nat| i < n implies {
            let p = #[trigger] line_start(cs, d, i);
            &&& p + d + tree_code(cs[i as int], d).len() <= whole.len()
            &&& whole.subrange(p as int, (p + d + tree_code(cs[i as int], d).len()) as int)
                == tabs(d) + tree_code(cs[i as int], d)
            &&& i > 0 ==> whole[p - 1] == '\n'
        } by {
            let p = line_start(cs, d, i);
            let q = p + d + tree_code(cs[i as int], d).len();
            if i < n - 1 {
                lemma_line_start_prefix(cs, pre, d, i);
                assert(pre[i as int] == cs[i as int]);
                assert(line_start(pre, d, i) == p);
                assert(whole.subrange(p as int, q as int) =~= b.subrange(p as int, q as int));
                if i > 0 {
                    assert(whole[p - 1] == b[p - 1]);
                }
            } else {
                assert(p == b.len() + 1);
                assert(whole.subrange(p as int, q as int) =~= tabs(d) + last);
            }
        }
    }
}

/// The children of a block are rendered in their stored order: child `i`'s
/// line starts before child `j`'s whenever `i < j`, and each line holds that
/// child's own text.
pub proof fn children_render_in_order(cs: Seq<Tree>, d: nat, i: nat, j: nat)
    requires
        i < j < cs.len(),
    ensures
        line_start(cs, d, i) + d + tree_code(cs[i as int], d).len() < line_start(cs, d, j),
        block_code(cs, d).subrange(
            line_start(cs, d, i) as int,
            (line_start(cs, d, i) + d + tree_code(cs[i as int], d).len()) as int,
        ) == tabs(d) + tree_code(cs[i as int], d),
        block_code(cs, d).subrange(
            line_start(cs, d, j) as int,
            (line_start(cs, d, j) + d + tree_code(cs[j as int], d).len()) as int,
        ) == tabs(d) + tree_code(cs[j as int], d),
{
    lemma_block_layout(cs, d);
    assert(line_start(cs, d, i + 1) == line_start(cs, d, i) + d + tree_code(cs[i as int], d).len() + 1);
    if i + 1 < j {
        lemma_line_start_increases(cs, d, i + 1, j);
    }
}

/// No character of `s` is a brace.
pub open spec fn no_braces(s: Seq<char>) -> bool {
    forall|k: int| 0 <= k < s.len() ==> s[k] != '{' && s[k] != '}'
}

proof fn lemma_no_braces_concat(a: Seq<char>, b: Seq<char>)
    requires
        no_braces(a),
        no_braces(b),
    ensures
        no_braces(a + b),
{
    assert forall|k: int| 0 <= k < (a + b).len() implies (a + b)[k] != '{' && (a + b)[k] != '}' by {
        if k >= a.len() {
            assert((a + b)[k] == b[k - a.len()]);
        }
    }
}

proof fn lemma_digits_no_braces(s: Seq<u8>)
    ensures
        no_braces(chars_of(s)),
{
    assert forall|k: int| 0 <= k < chars_of(s).len() implies chars_of(s)[k] != '{' && chars_of(s)[k] != '}' by {
        assert(chars_of(s)[k] == digit_char(s[k]));
    }
}

proof fn lemma_decimal_no_braces(x: Decimal)
    ensures
        no_braces(x.text()),
{
    reveal_strlit("-");
    reveal_strlit(".");
    let sign: Seq<char> = if x.negative { seq!['-'] } else { Seq::empty() };
    let frac: Seq<char> = if x.fraction_digits().len() == 0 { Seq::empty() }
        else { seq!['.'] + chars_of(x.fraction_digits()) };
    lemma_digits_no_braces(x.whole_digits());
    lemma_digits_no_braces(x.fraction_digits());
    assert(no_braces(sign));
    lemma_no_braces_concat(seq!['.'], chars_of(x.fraction_digits()));
    assert(no_braces(frac));
    lemma_no_braces_concat(sign, chars_of(x.whole_digits()));
    lemma_no_braces_concat(sign + chars_of(x.whole_digits()), frac);
}

proof fn lemma_vec3_no_braces(v: Vec3)
    ensures
        no_braces(v.text()),
{
    reveal_strlit("[");
    reveal_strlit(",");
    reveal_strlit("]");
    lemma_decimal_no_braces(v.x);
    lemma_decimal_no_braces(v.y);
    lemma_decimal_no_braces(v.z);
    lemma_no_braces_concat("["@, v.x.text());
    lemma_no_braces_concat("["@ + v.x.text(), ","@);
    lemma_no_braces_concat("["@ + v.x.text() + ","@, v.y.text());
    lemma_no_braces_concat("["@ + v.x.text() + ","@ + v.y.text(), ","@);
    lemma_no_braces_concat("["@ + v.x.text() + ","@ + v.y.text() + ","@, v.z.text());
    lemma_no_braces_concat("["@ + v.x.text() + ","@ + v.y.text() + ","@ + v.z.text(), "]"@);
}

proof fn lemma_circle_no_braces(c: CircleType)
    ensures
        no_braces(c.text()),
{
    reveal_strlit("r=");
    reveal_strlit("d=");
    match c {
        CircleType::Radius(r) => {
            lemma_decimal_no_braces(r);
            lemma_no_braces_concat("r="@, r.text());
        },
        CircleType::Diameter(x) => {
            lemma_decimal_no_braces(x);
            lemma_no_braces_concat("d="@, x.text());
        },
    }
}

proof fn lemma_wrapped_no_braces(name: Seq<char>, inner: Seq<char>)
    requires
        no_braces(name),
        no_braces(inner),
    ensures
        no_braces(name + inner + ")"@),
{
    reveal_strlit(")");
    lemma_no_braces_concat(name, inner);
    lemma_no_braces_concat(name + inner, ")"@);
}

/// Facts on the header text of an operation: it is not empty, does not
/// start with a tab, and holds no brace.
proof fn lemma_header(e: ScadElement)
    ensures
        e.text().len() > 0,
        e.text()[0] != '\t',
        no_braces(e.text()),
{
    reveal_strlit("union");
    reveal_strlit("difference");
    reveal_strlit("intersection");
    reveal_strlit("hull");
    reveal_strlit("minkowski");
    reveal_strlit("translate(");
    reveal_strlit("rotate(");
    reveal_strlit("scale(");
    reveal_strlit("mirror(");
    reveal_strlit("cube(");
    reveal_strlit("sphere(");
    reveal_strlit("cylinder(h=");
    reveal_strlit(",");
    match e {
        ScadElement::Translate(v) => {
            lemma_vec3_no_braces(v);
            lemma_wrapped_no_braces("translate("@, v.text());
        },
        ScadElement::Rotate(v) => {
            lemma_vec3_no_braces(v);
            lemma_wrapped_no_braces("rotate("@, v.text());
        },
        ScadElement::Scale(v) => {
            lemma_vec3_no_braces(v);
            lemma_wrapped_no_braces("scale("@, v.text());
        },
        ScadElement::Mirror(v) => {
            lemma_vec3_no_braces(v);
            lemma_wrapped_no_braces("mirror("@, v.text());
        },
        ScadElement::Cube(v) => {
            lemma_vec3_no_braces(v);
            lemma_wrapped_no_braces("cube("@, v.text());
        },
        ScadElement::Sphere(c) => {
            lemma_circle_no_braces(c);
            lemma_wrapped_no_braces("sphere("@, c.text());
        },
        ScadElement::Cylinder(h, c) => {
            lemma_decimal_no_braces(h);
            lemma_circle_no_braces(c);
            lemma_no_braces_concat("cylinder(h="@, h.text());
            lemma_no_braces_concat("cylinder(h="@ + h.text(), ","@);
            lemma_no_braces_concat("cylinder(h="@ + h.text() + ","@, c.text());
            lemma_wrapped_no_braces("cylinder(h="@ + h.text() + ","@ + c.text(), Seq::empty());
            assert("cylinder(h="@ + h.text() + ","@ + c.text() + Seq::empty() =~= "cylinder(h="@ + h.text() + ","@ + c.text());
        },
        _ => {},
    }
}

/// A node with no children renders as its header and a semicolon, with no
/// brace anywhere; a node with children renders with an opening brace and
/// ends with the closing brace, with no semicolon after it.
pub proof fn leaf_and_block_terminators(t: Tree, d: nat)
    ensures
        t.children.len() == 0 ==> {
            &&& tree_code(t, d) == t.element.text() + ";"@
            &&& tree_code(t, d).last() == ';'
            &&& no_braces(tree_code(t, d))
        },
        t.children.len() > 0 ==> {
            &&& tree_code(t, d)[t.element.text().len() + 1 + d as int] == '{'
            &&& tree_code(t, d).last() == '}'
        },
{
    reveal_strlit(";");
    reveal_strlit("\n");
    reveal_strlit("{\n");
    reveal_strlit("}");
    lemma_header(t.element);
    if t.children.len() == 0 {
        lemma_no_braces_concat(t.element.text(), ";"@);
    } else {
        let h = t.element.text();
        let code = tree_code(t, d);
        assert(code[h.len() + 1 + d as int] == (h + "\n"@ + tabs(d) + "{\n"@)[h.len() + 1 + d as int]);
    }
}

proof fn lemma_block_line(cs: Seq<Tree>, d: nat, i: nat)
    requires
        i < cs.len(),
    ensures
        ({
            let p = line_start(cs, d, i);
            let line = tabs(d) + tree_code(cs[i as int], d);
            &&& p + line.len() <= block_code(cs, d).len()
            &&& block_code(cs, d).subrange(p as int, p + line.len() as int) == line
            &&& i > 0 ==> block_code(cs, d)[p - 1] == '\n'
        }),
{
    lemma_block_layout(cs, d);
}

proof fn lemma_segment_in_middle(open: Seq<char>, b: Seq<char>, close: Seq<char>, ls: int, line: Seq<char>)
    requires
        0 <= ls,
        ls + line.len() <= b.len(),
        b.subrange(ls, ls + line.len()) == line,
    ensures
        (open + b + close).subrange(open.len() + ls, open.len() + ls + line.len()) == line,
        ls > 0 ==> (open + b + close)[open.len() + ls - 1] == b[ls - 1],
        ls == 0 && open.len() > 0 ==> (open + b + close)[open.len() + ls - 1] == open.last(),
{
    let x = open + b + close;
    assert forall|k: int| 0 <= k < line.len() implies #[trigger] x.subrange(open.len() + ls, open.len() + ls + line.len())[k] == line[k] by {
        assert(x[open.len() + ls + k] == b[ls + k]);
        assert(b[ls + k] == b.subrange(ls, ls + line.len())[k]);
    }
    assert(x.subrange(open.len() + ls, open.len() + ls + line.len()) =~= line);
}

proof fn lemma_split_segment(x: Seq<char>, p: int, a: Seq<char>, c: Seq<char>)
    requires
        0 <= p,
        p + a.len() + c.len() <= x.len(),
        x.subrange(p, p + a.len() + c.len()) == a + c,
    ensures
        x.subrange(p, p + a.len()) == a,
        x.subrange(p + a.len(), p + a.len() + c.len()) == c,
        c.len() > 0 ==> x[p + a.len()] == c[0],
{
    let seg = x.subrange(p, p + a.len() + c.len());
    assert(x.subrange(p, p + a.len()) =~= seg.subrange(0, a.len() as int));
    assert(seg.subrange(0, a.len() as int) =~= a);
    assert(x.subrange(p + a.len(), p + a.len() + c.len()) =~= seg.subrange(a.len() as int, a.len() + c.len() as int));
    assert(seg.subrange(a.len() as int, a.len() + c.len() as int) =~= c);
    if c.len() > 0 {
        assert(seg[a.len() as int] == c[0]);
    }
}

/// In a block at depth `d`, each child's line starts after a newline with
/// exactly `d + 1` tabs, then that child's own text; the opening and the
/// closing brace stand each on a line of their own, after `d` tabs.
pub proof fn block_indentation(t: Tree, d: nat, i: nat)
    requires
        i < t.children.len(),
    ensures
        ({
            let code = tree_code(t, d);
            let h = t.element.text().len() as int;
            let p = h + d + 3 + line_start(t.children, d + 1, i);
            let c = tree_code(t.children[i as int], d + 1);
            &&& code.subrange(h as int, (h + d + 3) as int) == "\n"@ + tabs(d) + "{\n"@
            &&& code[p - 1] == '\n'
            &&& code.subrange(p as int, (p + d + 1) as int) == tabs(d + 1)
            &&& code[p + d + 1] != '\t'
            &&& code.subrange((p + d + 1) as int, (p + d + 1 + c.len()) as int) == c
            &&& code.subrange(code.len() - (d + 2), code.len() as int) == "\n"@ + tabs(d) + "}"@
        }),
{
    reveal_strlit("\n");
    reveal_strlit("{\n");
    reveal_strlit("}");
    let code = tree_code(t, d);
    let hd = t.element.text();
    let b = block_code(t.children, d + 1);
    let open = hd + "\n"@ + tabs(d) + "{\n"@;
    let close = "\n"@ + tabs(d) + "}"@;
    assert(code =~= open + b + close);
    lemma_block_line(t.children, d + 1, i);
    let ls = line_start(t.children, d + 1, i) as int;
    let ch = t.children[i as int];
    let c = tree_code(ch, d + 1);
    let line = tabs(d + 1) + c;
    lemma_segment_in_middle(open, b, close, ls, line);
    let p = open.len() + ls;
    lemma_split_segment(code, p, tabs(d + 1), c);
    lemma_header(ch.element);
    assert(c[0] == ch.element.text()[0]);
    assert(open.last() == '\n');
    assert(code.subrange(hd.len() as int, open.len() as int) =~= "\n"@ + tabs(d) + "{\n"@);
    assert(code.subrange(code.len() - (d + 2), code.len() as int) =~= close);
}

proof fn lemma_strip_zeros(s: Seq<u8>)
    ensures
        strip_zeros(s).len() > 0 ==> strip_zeros(s).last() != 0,
    decreases s.len(),
{
    if s.len() > 0 && s.last() == 0 {
        lemma_strip_zeros(s.drop_last());
    }
}

/// A number's text forces no zero: where it has a fractional part, that part
/// does not end in the digit zero.
pub proof fn fraction_has_no_trailing_zero(x: Decimal)
    ensures
        x.fraction_digits().len() > 0 ==> x.fraction_digits().last() != 0,
{
    lemma_strip_zeros(x.all_digits().subrange(x.all_digits().len() - x.scale, x.all_digits().len() as int));
}

} // verus!
