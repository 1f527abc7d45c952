use scad_tree::builder::ChildSpec;
use scad_tree::decimal::Decimal;
use scad_tree::element::{vector, CircleType, ScadElement, Vec3};
use scad_tree::object::ScadObject;

/// A number written with one decimal place, as `1.0` is.
fn one_place(tenths: u128) -> Decimal {
    Decimal::new(false, tenths, 1)
}

fn v(x: u128, y: u128, z: u128) -> Vec3 {
    vector(one_place(x * 10), one_place(y * 10), one_place(z * 10))
}

fn cube(x: u128, y: u128, z: u128) -> ScadObject {
    ScadObject::new(ScadElement::Cube(v(x, y, z)))
}

#[test]
fn scad_macro_test() {
    assert_eq!(cube(1, 3, 4).get_code(), "cube([1,3,4]);");

    let cylinder = ScadObject::new(ScadElement::Cylinder(one_place(50), CircleType::Radius(one_place(30))));
    assert_eq!(
        cube(1, 3, 4).with_child(cylinder).get_code(),
        "cube([1,3,4])\n{\n\tcylinder(h=5,r=3);\n}"
    );
}

#[test]
fn many_children_test() {
    let a = ScadObject::new(ScadElement::Translate(v(0, 0, 0)))
        .with_children(vec![cube(1, 1, 1), cube(1, 1, 1)]);
    assert_eq!(a.get_code(), "translate([0,0,0])\n{\n\tcube([1,1,1]);\n\tcube([1,1,1]);\n}");
    // the same list written with a trailing comma
    let b = ScadObject::new(ScadElement::Translate(v(0, 0, 0)))
        .with_children(vec![cube(1, 1, 1), cube(1, 1, 1),]);
    assert_eq!(b.get_code(), "translate([0,0,0])\n{\n\tcube([1,1,1]);\n\tcube([1,1,1]);\n}");
}

#[test]
fn vector_renders_without_trailing_zeros() {
    assert_eq!(v(1, 3, 4).to_code(), "[1,3,4]");
    assert_eq!(cube(1, 3, 4).get_code(), "cube([1,3,4]);");
}

#[test]
fn decimal_text() {
    assert_eq!(Decimal::new(false, 15, 1).to_code(), "1.5");
    assert_eq!(Decimal::new(false, 250, 2).to_code(), "2.5");
    assert_eq!(Decimal::new(true, 25, 2).to_code(), "-0.25");
    assert_eq!(Decimal::new(false, 0, 3).to_code(), "0");
    assert_eq!(Decimal::new(false, 100, 0).to_code(), "100");
    assert_eq!(Decimal::new(false, 1, 3).to_code(), "0.001");
    assert_eq!(Decimal::new(false, 1203, 2).to_code(), "12.03");
    assert_eq!(Decimal::new(false, u128::MAX, 0).to_code(), "340282366920938463463374607431768211455");
}

#[test]
fn cylinder_parent_wraps_cube_child() {
    let cylinder = ScadObject::new(ScadElement::Cylinder(one_place(50), CircleType::Radius(one_place(30))));
    assert_eq!(
        cylinder.with_child(cube(1, 3, 4)).get_code(),
        "cylinder(h=5,r=3)\n{\n\tcube([1,3,4]);\n}"
    );
}

#[test]
fn diameter_is_labelled_d() {
    let c = ScadObject::new(ScadElement::Cylinder(one_place(10), CircleType::Diameter(one_place(30))));
    assert_eq!(c.get_code(), "cylinder(h=1,d=3);");
    let s = ScadObject::new(ScadElement::Sphere(CircleType::Radius(Decimal::new(false, 25, 1))));
    assert_eq!(s.get_code(), "sphere(r=2.5);");
}

#[test]
fn headers_of_the_catalog() {
    assert_eq!(ScadElement::Union.get_code(), "union");
    assert_eq!(ScadElement::Difference.get_code(), "difference");
    assert_eq!(ScadElement::Intersection.get_code(), "intersection");
    assert_eq!(ScadElement::Hull.get_code(), "hull");
    assert_eq!(ScadElement::Minkowski.get_code(), "minkowski");
    assert_eq!(ScadElement::Rotate(v(0, 0, 90)).get_code(), "rotate([0,0,90])");
    assert_eq!(ScadElement::Scale(v(2, 2, 2)).get_code(), "scale([2,2,2])");
    assert_eq!(ScadElement::Mirror(v(1, 0, 0)).get_code(), "mirror([1,0,0])");
}

#[test]
fn leaf_and_block_terminators_on_values() {
    let leaf = ScadObject::new(ScadElement::Union).get_code();
    assert_eq!(leaf, "union;");
    assert!(!leaf.contains('{') && !leaf.contains('}'));
    let block = ScadObject::new(ScadElement::Union).with_child(cube(1, 1, 1)).get_code();
    assert!(block.ends_with('}'));
    assert!(!block.ends_with("};"));
}

#[test]
fn children_keep_attachment_order() {
    let mut u = ScadObject::new(ScadElement::Union);
    u.add_child(cube(1, 1, 1));
    u.add_child(cube(2, 2, 2));
    u.add_child(cube(3, 3, 3));
    assert_eq!(
        u.get_code(),
        "union\n{\n\tcube([1,1,1]);\n\tcube([2,2,2]);\n\tcube([3,3,3]);\n}"
    );
}

#[test]
fn equal_children_are_kept_apart() {
    let mut u = ScadObject::new(ScadElement::Union);
    u.add_child(cube(1, 1, 1));
    u.add_child(cube(1, 1, 1));
    assert_eq!(u.children.len(), 2);
}

#[test]
fn indentation_grows_one_tab_per_level() {
    let inner = ScadObject::new(ScadElement::Translate(v(1, 0, 0))).with_child(cube(1, 1, 1));
    let outer = ScadObject::new(ScadElement::Union).with_child(inner);
    assert_eq!(
        outer.get_code(),
        "union\n{\n\ttranslate([1,0,0])\n\t{\n\t\tcube([1,1,1]);\n\t}\n}"
    );
}

#[test]
fn nested_form_matches_list_form() {
    let nested = ScadObject::from_nested(
        ScadElement::Union,
        vec![
            ChildSpec::Nested(ScadElement::Translate(v(1, 2, 3)), vec![ChildSpec::Bare(ScadElement::Cube(v(1, 1, 1)))]),
            ChildSpec::Bare(ScadElement::Cube(v(2, 2, 2))),
        ],
    );
    let listed = ScadObject::new(ScadElement::Union).with_children(vec![
        ScadObject::new(ScadElement::Translate(v(1, 2, 3))).with_children(vec![cube(1, 1, 1)]),
        cube(2, 2, 2),
    ]);
    assert_eq!(nested.get_code(), listed.get_code());
    assert_eq!(
        nested.get_code(),
        "union\n{\n\ttranslate([1,2,3])\n\t{\n\t\tcube([1,1,1]);\n\t}\n\tcube([2,2,2]);\n}"
    );
}

#[test]
fn embedded_subtree_matches_inline() {
    let prebuilt = ScadObject::new(ScadElement::Translate(v(0, 0, 1))).with_child(cube(1, 1, 1));
    let embedded = ScadObject::from_nested(
        ScadElement::Difference,
        vec![ChildSpec::Bare(ScadElement::Cube(v(3, 3, 3))), ChildSpec::Embed(prebuilt)],
    );
    let inline = ScadObject::from_nested(
        ScadElement::Difference,
        vec![
            ChildSpec::Bare(ScadElement::Cube(v(3, 3, 3))),
            ChildSpec::Nested(ScadElement::Translate(v(0, 0, 1)), vec![ChildSpec::Bare(ScadElement::Cube(v(1, 1, 1)))]),
        ],
    );
    assert_eq!(embedded.get_code(), inline.get_code());
}

#[test]
fn empty_nested_list_is_a_leaf() {
    assert_eq!(ScadObject::from_nested(ScadElement::Hull, vec![]).get_code(), "hull;");
    assert_eq!(ScadObject::new(ScadElement::Hull).with_children(vec![]).get_code(), "hull;");
}

#[test]
fn parse_reads_decimal_text() {
    assert_eq!(Decimal::parse("1.5"), Some(Decimal::new(false, 15, 1)));
    assert_eq!(Decimal::parse("-0.25"), Some(Decimal::new(true, 25, 2)));
    assert_eq!(Decimal::parse("100"), Some(Decimal::new(false, 100, 0)));
    assert_eq!(Decimal::parse("1.0"), Some(Decimal::new(false, 10, 1)));
    assert_eq!(Decimal::parse(&1.3f32.to_string()).map(|d| d.to_code()), Some(String::from("1.3")));
}

#[test]
fn parse_refuses_other_forms() {
    assert_eq!(Decimal::parse(""), None);
    assert_eq!(Decimal::parse("-"), None);
    assert_eq!(Decimal::parse("1."), None);
    assert_eq!(Decimal::parse(".5"), None);
    assert_eq!(Decimal::parse("1.2.3"), None);
    assert_eq!(Decimal::parse("NaN"), None);
    assert_eq!(Decimal::parse("inf"), None);
    assert_eq!(Decimal::parse("340282366920938463463374607431768211456"), None);
    assert_eq!(
        Decimal::parse("340282366920938463463374607431768211455"),
        Some(Decimal::new(false, u128::MAX, 0))
    );
}

#[test]
fn render_from_a_given_depth() {
    let t = cube(1, 1, 1).with_child(cube(2, 2, 2));
    assert_eq!(t.render(1), "cube([1,1,1])\n\t{\n\t\tcube([2,2,2]);\n\t}");
    assert_eq!(t.render(0), t.get_code());
    assert_eq!(cube(1, 1, 1).render(3), "cube([1,1,1]);");
}
