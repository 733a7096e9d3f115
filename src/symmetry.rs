//! The rotations of the cube.

use vstd::prelude::*;
use crate::position::{in_grid, negatable, Position};

verus! {

/// One of the rotations of the cube onto itself. The name lists, for each of
/// the four body diagonals `(1,1,1)`, `(1,-1,1)`, `(1,1,-1)`, `(-1,1,1)` in
/// that order, the diagonal it is carried to.
#[derive(Clone, Copy, Debug, PartialEq, Eq, Structural, Hash)]
pub enum CubeSymmetry {
    E0123,
    E0132,
    E0213,
    E0231,
    E0312,
    E0321,
    E1023,
    E1032,
    E1203,
    E1230,
    E1302,
    E1320,
    E2013,
    E2031,
    E2103,
    E2130,
    E2301,
    E2310,
    E3012,
    E3021,
    E3102,
    E3120,
    E3201,
    E3210,
}

/// The negation of a coordinate.
pub open spec fn neg(c: i32) -> i32 {
    (-c) as i32
}

/// Every rotation, each once, in the fixed order of enumeration.
pub open spec fn all_symmetries() -> Seq<CubeSymmetry> {
    seq![CubeSymmetry::E0123, CubeSymmetry::E0132, CubeSymmetry::E0213, CubeSymmetry::E0231, CubeSymmetry::E0312, CubeSymmetry::E0321, CubeSymmetry::E1023, CubeSymmetry::E1032, CubeSymmetry::E1203, CubeSymmetry::E1230, CubeSymmetry::E1302, CubeSymmetry::E1320, CubeSymmetry::E2013, CubeSymmetry::E2031, CubeSymmetry::E2103, CubeSymmetry::E2130, CubeSymmetry::E2301, CubeSymmetry::E2310, CubeSymmetry::E3012, CubeSymmetry::E3021, CubeSymmetry::E3102, CubeSymmetry::E3120, CubeSymmetry::E3201, CubeSymmetry::E3210]
}

impl CubeSymmetry {
    /// Where the rotation carries `p`.
    pub open spec fn image(self, p: Position) -> Position {
        match self {
            CubeSymmetry::E0123 => Position { x: p.x, y: p.y, z: p.z },
            CubeSymmetry::E0132 => Position { x: neg(p.z), y: neg(p.y), z: neg(p.x) },
            CubeSymmetry::E0213 => Position { x: neg(p.x), y: neg(p.z), z: neg(p.y) },
            CubeSymmetry::E0231 => Position { x: p.z, y: p.x, z: p.y },
            CubeSymmetry::E0312 => Position { x: p.y, y: p.z, z: p.x },
            CubeSymmetry::E0321 => Position { x: neg(p.y), y: neg(p.x), z: neg(p.z) },
            CubeSymmetry::E1023 => Position { x: p.z, y: neg(p.y), z: p.x },
            CubeSymmetry::E1032 => Position { x: neg(p.x), y: p.y, z: neg(p.z) },
            CubeSymmetry::E1203 => Position { x: neg(p.y), y: p.z, z: neg(p.x) },
            CubeSymmetry::E1230 => Position { x: p.y, y: neg(p.x), z: p.z },
            CubeSymmetry::E1302 => Position { x: p.x, y: neg(p.z), z: p.y },
            CubeSymmetry::E1320 => Position { x: neg(p.z), y: p.x, z: neg(p.y) },
            CubeSymmetry::E2013 => Position { x: neg(p.z), y: neg(p.x), z: p.y },
            CubeSymmetry::E2031 => Position { x: p.x, y: p.z, z: neg(p.y) },
            CubeSymmetry::E2103 => Position { x: p.y, y: p.x, z: neg(p.z) },
            CubeSymmetry::E2130 => Position { x: neg(p.y), y: neg(p.z), z: p.x },
            CubeSymmetry::E2301 => Position { x: neg(p.x), y: neg(p.y), z: p.z },
            CubeSymmetry::E2310 => Position { x: p.z, y: p.y, z: neg(p.x) },
            CubeSymmetry::E3012 => Position { x: neg(p.y), y: p.x, z: p.z },
            CubeSymmetry::E3021 => Position { x: p.y, y: neg(p.z), z: neg(p.x) },
            CubeSymmetry::E3102 => Position { x: p.z, y: neg(p.x), z: neg(p.y) },
            CubeSymmetry::E3120 => Position { x: neg(p.x), y: p.z, z: p.y },
            CubeSymmetry::E3201 => Position { x: neg(p.z), y: p.y, z: p.x },
            CubeSymmetry::E3210 => Position { x: p.x, y: neg(p.y), z: neg(p.z) },
        }
    }

    /// The rotation that undoes `self`.
    pub open spec fn inverse_spec(self) -> CubeSymmetry {
        match self {
            CubeSymmetry::E0123 => CubeSymmetry::E0123,
            CubeSymmetry::E0132 => CubeSymmetry::E0132,
            CubeSymmetry::E0213 => CubeSymmetry::E0213,
            CubeSymmetry::E0231 => CubeSymmetry::E0312,
            CubeSymmetry::E0312 => CubeSymmetry::E0231,
            CubeSymmetry::E0321 => CubeSymmetry::E0321,
            CubeSymmetry::E1023 => CubeSymmetry::E1023,
            CubeSymmetry::E1032 => CubeSymmetry::E1032,
            CubeSymmetry::E1203 => CubeSymmetry::E2013,
            CubeSymmetry::E1230 => CubeSymmetry::E3012,
            CubeSymmetry::E1302 => CubeSymmetry::E2031,
            CubeSymmetry::E1320 => CubeSymmetry::E3021,
            CubeSymmetry::E2013 => CubeSymmetry::E1203,
            CubeSymmetry::E2031 => CubeSymmetry::E1302,
            CubeSymmetry::E2103 => CubeSymmetry::E2103,
            CubeSymmetry::E2130 => CubeSymmetry::E3102,
            CubeSymmetry::E2301 => CubeSymmetry::E2301,
            CubeSymmetry::E2310 => CubeSymmetry::E3201,
            CubeSymmetry::E3012 => CubeSymmetry::E1230,
            CubeSymmetry::E3021 => CubeSymmetry::E1320,
            CubeSymmetry::E3102 => CubeSymmetry::E2130,
            CubeSymmetry::E3120 => CubeSymmetry::E3120,
            CubeSymmetry::E3201 => CubeSymmetry::E2310,
            CubeSymmetry::E3210 => CubeSymmetry::E3210,
        }
    }

    /// Applies the rotation to `p`.
    pub fn apply(&self, p: Position) -> (r: Position)
        requires
            negatable(p),
        ensures
            r == self.image(p),
    {
        match self {
        CubeSymmetry::E0123 => Position { x: p.x, y: p.y, z: p.z },
        CubeSymmetry::E0132 => Position { x: -p.z, y: -p.y, z: -p.x },
        CubeSymmetry::E0213 => Position { x: -p.x, y: -p.z, z: -p.y },
        CubeSymmetry::E0231 => Position { x: p.z, y: p.x, z: p.y },
        CubeSymmetry::E0312 => Position { x: p.y, y: p.z, z: p.x },
        CubeSymmetry::E0321 => Position { x: -p.y, y: -p.x, z: -p.z },
        CubeSymmetry::E1023 => Position { x: p.z, y: -p.y, z: p.x },
        CubeSymmetry::E1032 => Position { x: -p.x, y: p.y, z: -p.z },
        CubeSymmetry::E1203 => Position { x: -p.y, y: p.z, z: -p.x },
        CubeSymmetry::E1230 => Position { x: p.y, y: -p.x, z: p.z },
        CubeSymmetry::E1302 => Position { x: p.x, y: -p.z, z: p.y },
        CubeSymmetry::E1320 => Position { x: -p.z, y: p.x, z: -p.y },
        CubeSymmetry::E2013 => Position { x: -p.z, y: -p.x, z: p.y },
        CubeSymmetry::E2031 => Position { x: p.x, y: p.z, z: -p.y },
        CubeSymmetry::E2103 => Position { x: p.y, y: p.x, z: -p.z },
        CubeSymmetry::E2130 => Position { x: -p.y, y: -p.z, z: p.x },
        CubeSymmetry::E2301 => Position { x: -p.x, y: -p.y, z: p.z },
        CubeSymmetry::E2310 => Position { x: p.z, y: p.y, z: -p.x },
        CubeSymmetry::E3012 => Position { x: -p.y, y: p.x, z: p.z },
        CubeSymmetry::E3021 => Position { x: p.y, y: -p.z, z: -p.x },
        CubeSymmetry::E3102 => Position { x: p.z, y: -p.x, z: -p.y },
        CubeSymmetry::E3120 => Position { x: -p.x, y: p.z, z: p.y },
        CubeSymmetry::E3201 => Position { x: -p.z, y: p.y, z: p.x },
        CubeSymmetry::E3210 => Position { x: p.x, y: -p.y, z: -p.z },
        }
    }

    /// The rotation that undoes `self`.
    pub fn inverse(&self) -> (r: CubeSymmetry)
        ensures
            r == self.inverse_spec(),
    {
        match self {
            CubeSymmetry::E0123 => CubeSymmetry::E0123,
            CubeSymmetry::E0132 => CubeSymmetry::E0132,
            CubeSymmetry::E0213 => CubeSymmetry::E0213,
            CubeSymmetry::E0231 => CubeSymmetry::E0312,
            CubeSymmetry::E0312 => CubeSymmetry::E0231,
            CubeSymmetry::E0321 => CubeSymmetry::E0321,
            CubeSymmetry::E1023 => CubeSymmetry::E1023,
            CubeSymmetry::E1032 => CubeSymmetry::E1032,
            CubeSymmetry::E1203 => CubeSymmetry::E2013,
            CubeSymmetry::E1230 => CubeSymmetry::E3012,
            CubeSymmetry::E1302 => CubeSymmetry::E2031,
            CubeSymmetry::E1320 => CubeSymmetry::E3021,
            CubeSymmetry::E2013 => CubeSymmetry::E1203,
            CubeSymmetry::E2031 => CubeSymmetry::E1302,
            CubeSymmetry::E2103 => CubeSymmetry::E2103,
            CubeSymmetry::E2130 => CubeSymmetry::E3102,
            CubeSymmetry::E2301 => CubeSymmetry::E2301,
            CubeSymmetry::E2310 => CubeSymmetry::E3201,
            CubeSymmetry::E3012 => CubeSymmetry::E1230,
            CubeSymmetry::E3021 => CubeSymmetry::E1320,
            CubeSymmetry::E3102 => CubeSymmetry::E2130,
            CubeSymmetry::E3120 => CubeSymmetry::E3120,
            CubeSymmetry::E3201 => CubeSymmetry::E2310,
            CubeSymmetry::E3210 => CubeSymmetry::E3210,
        }
    }

    /// All rotations in the fixed order of enumeration.
    pub fn all() -> (r: Vec<CubeSymmetry>)
        ensures
            r@ == all_symmetries(),
    {
        vec![CubeSymmetry::E0123, CubeSymmetry::E0132, CubeSymmetry::E0213, CubeSymmetry::E0231, CubeSymmetry::E0312, CubeSymmetry::E0321, CubeSymmetry::E1023, CubeSymmetry::E1032, CubeSymmetry::E1203, CubeSymmetry::E1230, CubeSymmetry::E1302, CubeSymmetry::E1320, CubeSymmetry::E2013, CubeSymmetry::E2031, CubeSymmetry::E2103, CubeSymmetry::E2130, CubeSymmetry::E2301, CubeSymmetry::E2310, CubeSymmetry::E3012, CubeSymmetry::E3021, CubeSymmetry::E3102, CubeSymmetry::E3120, CubeSymmetry::E3201, CubeSymmetry::E3210]
    }
}

/// A rotation keeps a position within the grid bounds.
pub proof fn lemma_image_in_grid(s: CubeSymmetry, p: Position)
    requires
        in_grid(p),
    ensures
        in_grid(s.image(p)),
        negatable(p),
{
}

/// The inverse rotation undoes the rotation.
pub proof fn lemma_inverse_undoes(s: CubeSymmetry, p: Position)
    requires
        negatable(p),
    ensures
        s.inverse_spec().image(s.image(p)) == p,
        s.image(s.inverse_spec().image(p)) == p,
{
}

/// The enumeration holds every rotation exactly once.
pub proof fn lemma_all_symmetries_complete(s: CubeSymmetry)
    ensures
        all_symmetries().contains(s),
        all_symmetries().len() == 24,
        all_symmetries().no_duplicates(),
{
    assert(all_symmetries().no_duplicates());
    match s {
        CubeSymmetry::E0123 => assert(all_symmetries()[0] == s),
        CubeSymmetry::E0132 => assert(all_symmetries()[1] == s),
        CubeSymmetry::E0213 => assert(all_symmetries()[2] == s),
        CubeSymmetry::E0231 => assert(all_symmetries()[3] == s),
        CubeSymmetry::E0312 => assert(all_symmetries()[4] == s),
        CubeSymmetry::E0321 => assert(all_symmetries()[5] == s),
        CubeSymmetry::E1023 => assert(all_symmetries()[6] == s),
        CubeSymmetry::E1032 => assert(all_symmetries()[7] == s),
        CubeSymmetry::E1203 => assert(all_symmetries()[8] == s),
        CubeSymmetry::E1230 => assert(all_symmetries()[9] == s),
        CubeSymmetry::E1302 => assert(all_symmetries()[10] == s),
        CubeSymmetry::E1320 => assert(all_symmetries()[11] == s),
        CubeSymmetry::E2013 => assert(all_symmetries()[12] == s),
        CubeSymmetry::E2031 => assert(all_symmetries()[13] == s),
        CubeSymmetry::E2103 => assert(all_symmetries()[14] == s),
        CubeSymmetry::E2130 => assert(all_symmetries()[15] == s),
        CubeSymmetry::E2301 => assert(all_symmetries()[16] == s),
        CubeSymmetry::E2310 => assert(all_symmetries()[17] == s),
        CubeSymmetry::E3012 => assert(all_symmetries()[18] == s),
        CubeSymmetry::E3021 => assert(all_symmetries()[19] == s),
        CubeSymmetry::E3102 => assert(all_symmetries()[20] == s),
        CubeSymmetry::E3120 => assert(all_symmetries()[21] == s),
        CubeSymmetry::E3201 => assert(all_symmetries()[22] == s),
        CubeSymmetry::E3210 => assert(all_symmetries()[23] == s),
    }
}

} // verus!
