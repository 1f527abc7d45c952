use vstd::prelude::*;
use crate::decimal::Decimal;

verus! {

/// A three-component vector parameter.
#[derive(Clone, Copy, Debug, PartialEq, Eq, Structural)]
pub struct Vec3 {
    pub x: Decimal,
    pub y: Decimal,
    pub z: Decimal,
}

/// Builds a vector from its three components.
pub fn vector(x: Decimal, y: Decimal, z: Decimal) -> (r: Vec3)
    ensures
        r == (Vec3 { x, y, z }),
{
    Vec3 { x, y, z }
}

impl Vec3 {
    /// `[x,y,z]`.
    pub open spec fn text(self) -> Seq<char> {
        "["@ + self.x.text() + ","@ + self.y.text() + ","@ + self.z.text() + "]"@
    }

    pub fn to_code(&self) -> (r: String)
        ensures
            r@ == self.text(),
    {
        let mut s = String::new();
        s.append("[");
        s.append(self.x.to_code().as_str());
        s.append(",");
        s.append(self.y.to_code().as_str());
        s.append(",");
        s.append(self.z.to_code().as_str());
        s.append("]");
        assert(s@ =~= self.text());
        s
    }
}

/// The size of a round shape, given either by radius or by diameter.
#[derive(Clone, Copy, Debug, PartialEq, Eq, Structural)]
pub enum CircleType {
    Radius(Decimal),
    Diameter(Decimal),
}

impl CircleType {
    /// `r=..` or `d=..`, after the alternative chosen.
    pub open spec fn text(self) -> Seq<char> {
        match self {
            CircleType::Radius(r) => "r="@ + r.text(),
            CircleType::Diameter(d) => "d="@ + d.text(),
        }
    }

    pub fn to_code(&self) -> (r: String)
        ensures
            r@ == self.text(),
    {
        match self {
            CircleType::Radius(r) => {
                let mut s = String::from_str("r=");
                s.append(r.to_code().as_str());
                s
            },
            CircleType::Diameter(d) => {
                let mut s = String::from_str("d=");
                s.append(d.to_code().as_str());
                s
            },
        }
    }
}

/// One operation of a script, with its parameters.
#[derive(Clone, Copy, Debug, PartialEq, Eq, Structural)]
pub enum ScadElement {
    Union,
    Difference,
    Intersection,
    Hull,
    Minkowski,
    Translate(Vec3),
    Rotate(Vec3),
    Scale(Vec3),
    Mirror(Vec3),
    Cube(Vec3),
    Sphere(CircleType),
    /// A height and the size of the base.
    Cylinder(Decimal, CircleType),
}

impl ScadElement {
    /// The header of the operation: its name and its parameters, without
    /// a terminator.
    pub open spec fn text(self) -> Seq<char> {
        match self {
            ScadElement::Union => "union"@,
            ScadElement::Difference => "difference"@,
            ScadElement::Intersection => "intersection"@,
            ScadElement::Hull => "hull"@,
            ScadElement::Minkowski => "minkowski"@,
            ScadElement::Translate(v) => "translate("@ + v.text() + ")"@,
            ScadElement::Rotate(v) => "rotate("@ + v.text() + ")"@,
            ScadElement::Scale(v) => "scale("@ + v.text() + ")"@,
            ScadElement::Mirror(v) => "mirror("@ + v.text() + ")"@,
            ScadElement::Cube(v) => "cube("@ + v.text() + ")"@,
            ScadElement::Sphere(c) => "sphere("@ + c.text() + ")"@,
            ScadElement::Cylinder(h, c) => "cylinder(h="@ + h.text() + ","@ + c.text() + ")"@,
        }
    }

    /// Renders the header of the operation.
    pub fn get_code(&self) -> (r: String)
        ensures
            r@ == self.text(),
    {
        match self {
            ScadElement::Union => String::from_str("union"),
            ScadElement::Difference => String::from_str("difference"),
            ScadElement::Intersection => String::from_str("intersection"),
            ScadElement::Hull => String::from_str("hull"),
            ScadElement::Minkowski => String::from_str("minkowski"),
            ScadElement::Translate(v) => wrap("translate(", v.to_code()),
            ScadElement::Rotate(v) => wrap("rotate(", v.to_code()),
            ScadElement::Scale(v) => wrap("scale(", v.to_code()),
            ScadElement::Mirror(v) => wrap("mirror(", v.to_code()),
            ScadElement::Cube(v) => wrap("cube(", v.to_code()),
            ScadElement::Sphere(c) => wrap("sphere(", c.to_code()),
            ScadElement::Cylinder(h, c) => {
                let mut s = String::from_str("cylinder(h=");
                s.append(h.to_code().as_str());
                s.append(",");
                s.append(c.to_code().as_str());
                s.append(")");
                s
            },
        }
    }
}

/// `name` followed by `params` and a closing parenthesis.
fn wrap(name: &str, params: String) -> (r: String)
    ensures
        r@ == name@ + params@ + ")"@,
{
    let mut s = String::from_str(name);
    s.append(params.as_str());
    s.append(")");
    s
}

} // verus!
