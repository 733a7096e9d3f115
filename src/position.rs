//! Grid cells and the offsets that move them.

use vstd::prelude::*;

verus! {

/// A single cell of the three-dimensional grid.
#[derive(Clone, Copy, Debug, PartialEq, Eq, Structural, Hash)]
pub struct Position {
    pub x: i32,
    pub y: i32,
    pub z: i32,
}

/// An offset in grid space. Its components are wide enough to hold the
/// difference of any two positions.
#[derive(Clone, Copy, Debug, PartialEq, Eq, Structural, Hash)]
pub struct Translation {
    pub dx: i64,
    pub dy: i64,
    pub dz: i64,
}

/// The total order on positions: lexicographic on `(x, y, z)`.
pub open spec fn lex_lt(a: Position, b: Position) -> bool {
    a.x < b.x || (a.x == b.x && (a.y < b.y || (a.y == b.y && a.z < b.z)))
}

pub open spec fn lex_le(a: Position, b: Position) -> bool {
    lex_lt(a, b) || a == b
}

/// The coordinate origin.
pub open spec fn origin() -> Position {
    Position { x: 0, y: 0, z: 0 }
}

/// The moved position is representable.
pub open spec fn shift_fits(p: Position, t: Translation) -> bool {
    i32::MIN <= p.x + t.dx <= i32::MAX && i32::MIN <= p.y + t.dy <= i32::MAX && i32::MIN
        <= p.z + t.dz <= i32::MAX
}

/// `p` moved by `t`.
pub open spec fn shift(p: Position, t: Translation) -> Position {
    Position { x: (p.x + t.dx) as i32, y: (p.y + t.dy) as i32, z: (p.z + t.dz) as i32 }
}

/// The offset that carries `a` onto `b`.
pub open spec fn offset(a: Position, b: Position) -> Translation {
    Translation { dx: (b.x - a.x) as i64, dy: (b.y - a.y) as i64, dz: (b.z - a.z) as i64 }
}

/// The offset that undoes `t`.
pub open spec fn reverse(t: Translation) -> Translation {
    Translation { dx: (-t.dx) as i64, dy: (-t.dy) as i64, dz: (-t.dz) as i64 }
}

/// The offset can be reversed.
pub open spec fn reversible(t: Translation) -> bool {
    t.dx > i64::MIN && t.dy > i64::MIN && t.dz > i64::MIN
}

/// The largest coordinate magnitude of a shape definition: the difference of
/// two such coordinates still fits in an `i32`.
pub const GRID_LIMIT: i32 = 0x3fff_ffff;

/// Every coordinate of `p` lies within `GRID_LIMIT` of zero.
pub open spec fn in_grid(p: Position) -> bool {
    -GRID_LIMIT <= p.x <= GRID_LIMIT && -GRID_LIMIT <= p.y <= GRID_LIMIT && -GRID_LIMIT <= p.z
        <= GRID_LIMIT
}

/// Every coordinate of `p` has a representable negation.
pub open spec fn negatable(p: Position) -> bool {
    p.x > i32::MIN && p.y > i32::MIN && p.z > i32::MIN
}

/// Moving two positions by one offset keeps their order.
pub proof fn lemma_shift_keeps_order(a: Position, b: Position, t: Translation)
    requires
        shift_fits(a, t),
        shift_fits(b, t),
    ensures
        lex_lt(a, b) == lex_lt(shift(a, t), shift(b, t)),
        (a == b) == (shift(a, t) == shift(b, t)),
{
}

impl Position {
    /// A position from its coordinates.
    pub fn new(x: i32, y: i32, z: i32) -> (r: Position)
        ensures
            r == (Position { x, y, z }),
    {
        Position { x, y, z }
    }

    /// Whether `self` comes strictly before `other` in the order of positions.
    pub fn precedes(&self, other: &Position) -> (r: bool)
        ensures
            r == lex_lt(*self, *other),
    {
        self.x < other.x || (self.x == other.x && (self.y < other.y || (self.y == other.y
            && self.z < other.z)))
    }

    /// The offset that carries `self` onto `other`.
    pub fn to(&self, other: &Position) -> (r: Translation)
        ensures
            r == offset(*self, *other),
    {
        Translation {
            dx: other.x as i64 - self.x as i64,
            dy: other.y as i64 - self.y as i64,
            dz: other.z as i64 - self.z as i64,
        }
    }

    /// The offset that carries `self` onto the origin.
    pub fn to_reference(&self) -> (r: Translation)
        ensures
            r == offset(*self, origin()),
    {
        Translation { dx: -(self.x as i64), dy: -(self.y as i64), dz: -(self.z as i64) }
    }

    /// Moves the position by `t`.
    pub fn translate(&mut self, t: &Translation)
        requires
            shift_fits(*old(self), *t),
        ensures
            *final(self) == shift(*old(self), *t),
    {
        self.x = (self.x as i64 + t.dx) as i32;
        self.y = (self.y as i64 + t.dy) as i32;
        self.z = (self.z as i64 + t.dz) as i32;
    }

    /// `self` moved by `t`, or `None` where a coordinate would leave the range
    /// of `i32`.
    pub fn shifted(&self, t: &Translation) -> (r: Option<Position>)
        ensures
            r == (if shift_fits(*self, *t) {
                Some(shift(*self, *t))
            } else {
                None::<Position>
            }),
    {
        let x = self.x as i128 + t.dx as i128;
        let y = self.y as i128 + t.dy as i128;
        let z = self.z as i128 + t.dz as i128;
        if x < i32::MIN as i128 || x > i32::MAX as i128 || y < i32::MIN as i128 || y > i32::MAX as i128
            || z < i32::MIN as i128 || z > i32::MAX as i128 {
            None
        } else {
            Some(Position { x: x as i32, y: y as i32, z: z as i32 })
        }
    }
}

impl Translation {
    /// An offset from its components.
    pub fn new(dx: i64, dy: i64, dz: i64) -> (r: Translation)
        ensures
            r == (Translation { dx, dy, dz }),
    {
        Translation { dx, dy, dz }
    }

    /// The offset that undoes `self`.
    pub fn inverse(&self) -> (r: Translation)
        requires
            reversible(*self),
        ensures
            r == reverse(*self),
    {
        Translation { dx: -self.dx, dy: -self.dy, dz: -self.dz }
    }
}

} // verus!
