//! Value types of the converter: 3D vectors, rotation axes and axis-aligned
//! boxes, together with corner enumeration and tight bounding boxes.

use vstd::prelude::*;

verus! {

/// AABox - Axis-Aligned Box, all faces face either +-X, +-Y or +-Z.
///
/// The six fields are minX, minY, minZ, maxX, maxY, maxZ in coordinate keys.
/// A box built by `bounding_box` always satisfies `valid()`; one built
/// directly by `AABox::from` carries its corners as given.
#[derive(Clone, Copy, Debug, PartialEq, Eq, Structural)]
pub struct AABox(pub u32, pub u32, pub u32, pub u32, pub u32, pub u32);

/// A corner point of an element, in coordinate keys.
#[derive(Clone, Copy, Debug, PartialEq, Eq, Structural)]
pub struct Vec3(pub u32, pub u32, pub u32);

/// A rotation axis; selects the rotation plane.
#[derive(Clone, Copy, Debug, PartialEq, Eq, Structural)]
pub enum Axis {
    X,
    Y,
    Z,
}

/// The smaller of two coordinate keys.
pub open spec fn key_min(a: u32, b: u32) -> u32 {
    if a <= b {
        a
    } else {
        b
    }
}

/// The larger of two coordinate keys.
pub open spec fn key_max(a: u32, b: u32) -> u32 {
    if a <= b {
        b
    } else {
        a
    }
}

impl AABox {
    /// Each minimum is at or below the matching maximum.
    pub open spec fn valid(self) -> bool {
        self.0 <= self.3 && self.1 <= self.4 && self.2 <= self.5
    }

    /// A box spanning two corner vectors, exactly as given.
    pub fn from(from: &Vec<u32>, to: &Vec<u32>) -> (r: AABox)
        requires
            from@.len() == 3,
            to@.len() == 3,
        ensures
            r == (AABox(from@[0], from@[1], from@[2], to@[0], to@[1], to@[2])),
    {
        AABox(from[0], from[1], from[2], to[0], to[1], to[2])
    }
}

impl Vec3 {
    /// A vector from a three-element coordinate list, exactly as given.
    pub fn from(vec: &Vec<u32>) -> (r: Vec3)
        requires
            vec@.len() == 3,
        ensures
            r == (Vec3(vec@[0], vec@[1], vec@[2])),
    {
        Vec3(vec[0], vec[1], vec[2])
    }
}

/// Whether a one-character string names a rotation axis, case-insensitively.
pub open spec fn is_axis_name(s: Seq<char>) -> bool {
    s.len() == 1 && (s[0] == 'x' || s[0] == 'X' || s[0] == 'y' || s[0] == 'Y' || s[0] == 'z'
        || s[0] == 'Z')
}

/// The axis a valid axis name denotes.
pub open spec fn axis_of(s: Seq<char>) -> Axis {
    if s[0] == 'x' || s[0] == 'X' {
        Axis::X
    } else if s[0] == 'y' || s[0] == 'Y' {
        Axis::Y
    } else {
        Axis::Z
    }
}

impl Axis {
    /// Reads an axis name; any other string is a fatal input error and is
    /// excluded by the precondition.
    pub fn from(s: &str) -> (r: Axis)
        requires
            is_axis_name(s@),
        ensures
            r == axis_of(s@),
    {
        let c = s.get_char(0);
        if c == 'x' || c == 'X' {
            Axis::X
        } else if c == 'y' || c == 'Y' {
            Axis::Y
        } else {
            Axis::Z
        }
    }
}

/// The box that covers exactly one point.
pub open spec fn point_box(v: Vec3) -> AABox {
    AABox(v.0, v.1, v.2, v.0, v.1, v.2)
}

/// The componentwise min-of-mins / max-of-maxes union of two boxes.
pub open spec fn union_box(a: AABox, b: AABox) -> AABox {
    AABox(
        key_min(a.0, b.0),
        key_min(a.1, b.1),
        key_min(a.2, b.2),
        key_max(a.3, b.3),
        key_max(a.4, b.4),
        key_max(a.5, b.5),
    )
}

/// The eight corners of a box, in the fixed order the converter relies on:
/// the bottom face first, then the top face, each traversed the same way
/// through the XZ plane.
pub open spec fn corners(b: AABox) -> Seq<Vec3> {
    seq![
        Vec3(b.0, b.1, b.2),
        Vec3(b.3, b.1, b.2),
        Vec3(b.3, b.4, b.2),
        Vec3(b.0, b.4, b.2),
        Vec3(b.0, b.1, b.5),
        Vec3(b.3, b.1, b.5),
        Vec3(b.3, b.4, b.5),
        Vec3(b.0, b.4, b.5),
    ]
}

/// The tight bounding box of a non-empty vertex sequence.
pub open spec fn bounds(s: Seq<Vec3>) -> AABox
    decreases s.len(),
{
    if s.len() <= 1 {
        point_box(s[0])
    } else {
        union_box(bounds(s.drop_last()), point_box(s.last()))
    }
}

/// Enumerates the corners of a box, in the fixed order of `corners`.
pub fn into_verts(el: AABox) -> (r: Vec<Vec3>)
    ensures
        r@ == corners(el),
{
    let mut r: Vec<Vec3> = Vec::new();
    r.push(Vec3(el.0, el.1, el.2));
    r.push(Vec3(el.3, el.1, el.2));
    r.push(Vec3(el.3, el.4, el.2));
    r.push(Vec3(el.0, el.4, el.2));
    r.push(Vec3(el.0, el.1, el.5));
    r.push(Vec3(el.3, el.1, el.5));
    r.push(Vec3(el.3, el.4, el.5));
    r.push(Vec3(el.0, el.4, el.5));
    proof {
        assert(r@ =~= corners(el));
    }
    r
}

/// The tight min/max of a vertex set on every axis: it never clips the
/// shape and never grows beyond the vertices themselves. An empty vertex
/// set would be an invariant violation and is excluded up front.
pub fn bounding_box(verts: &Vec<Vec3>) -> (r: AABox)
    requires
        verts@.len() > 0,
    ensures
        r == bounds(verts@),
        r.valid(),
{
    let first = verts[0];
    let mut r = AABox(first.0, first.1, first.2, first.0, first.1, first.2);
    let mut i: usize = 1;
    while i < verts.len()
        invariant
            1 <= i <= verts@.len(),
            r == bounds(verts@.take(i as int)),
            r.valid(),
        decreases verts@.len() - i,
    {
        let v = verts[i];
        let min_x = if v.0 <= r.0 {
            v.0
        } else {
            r.0
        };
        let min_y = if v.1 <= r.1 {
            v.1
        } else {
            r.1
        };
        let min_z = if v.2 <= r.2 {
            v.2
        } else {
            r.2
        };
        let max_x = if r.3 <= v.0 {
            v.0
        } else {
            r.3
        };
        let max_y = if r.4 <= v.1 {
            v.1
        } else {
            r.4
        };
        let max_z = if r.5 <= v.2 {
            v.2
        } else {
            r.5
        };
        r = AABox(min_x, min_y, min_z, max_x, max_y, max_z);
        proof {
            assert(verts@.take(i + 1 as int).drop_last() =~= verts@.take(i as int));
            assert(verts@.take(i + 1 as int).last() == verts@[i as int]);
        }
        i = i + 1;
    }
    proof {
        assert(verts@.take(verts@.len() as int) =~= verts@);
    }
    r
}

/// Appending a vertex widens the bounding box by exactly that point.
pub proof fn lemma_bounds_push(s: Seq<Vec3>, v: Vec3)
    requires
        s.len() >= 1,
    ensures
        bounds(s.push(v)) == union_box(bounds(s), point_box(v)),
{
    assert(s.push(v).drop_last() =~= s);
    assert(s.push(v).last() == v);
}

/// Zero-rotation identity: when no rotation is applied anywhere, the
/// bounding box of an element's corners is exactly the componentwise
/// minimum and maximum of its `from` and `to` corners.
pub proof fn lemma_zero_rotation_identity(fx: u32, fy: u32, fz: u32, tx: u32, ty: u32, tz: u32)
    ensures
        bounds(corners(AABox(fx, fy, fz, tx, ty, tz))) == (AABox(
            key_min(fx, tx),
            key_min(fy, ty),
            key_min(fz, tz),
            key_max(fx, tx),
            key_max(fy, ty),
            key_max(fz, tz),
        )),
{
    let b = AABox(fx, fy, fz, tx, ty, tz);
    let s1 = seq![Vec3(b.0, b.1, b.2)];
    let s2 = s1.push(Vec3(b.3, b.1, b.2));
    let s3 = s2.push(Vec3(b.3, b.4, b.2));
    let s4 = s3.push(Vec3(b.0, b.4, b.2));
    let s5 = s4.push(Vec3(b.0, b.1, b.5));
    let s6 = s5.push(Vec3(b.3, b.1, b.5));
    let s7 = s6.push(Vec3(b.3, b.4, b.5));
    let s8 = s7.push(Vec3(b.0, b.4, b.5));
    assert(corners(b) =~= s8);
    lemma_bounds_push(s1, Vec3(b.3, b.1, b.2));
    lemma_bounds_push(s2, Vec3(b.3, b.4, b.2));
    lemma_bounds_push(s3, Vec3(b.0, b.4, b.2));
    lemma_bounds_push(s4, Vec3(b.0, b.1, b.5));
    lemma_bounds_push(s5, Vec3(b.3, b.1, b.5));
    lemma_bounds_push(s6, Vec3(b.3, b.4, b.5));
    lemma_bounds_push(s7, Vec3(b.0, b.4, b.5));
    assert(bounds(s1) == point_box(Vec3(b.0, b.1, b.2)));
}

} // verus!
