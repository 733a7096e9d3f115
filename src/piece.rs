//! Shapes placed on the grid.

use vstd::prelude::*;
use crate::position::{
    lex_le, lex_lt, negatable, reverse, reversible, shift, shift_fits, Position, Translation,
};
use crate::symmetry::CubeSymmetry;

verus! {

/// The positions are in strictly increasing order, hence without repetition.
pub open spec fn strictly_sorted(s: Seq<Position>) -> bool {
    forall|i: int, j: int| 0 <= i < j < s.len() ==> lex_lt(#[trigger] s[i], #[trigger] s[j])
}

/// Two strictly sorted sequences with the same members are equal.
pub proof fn lemma_sorted_unique(a: Seq<Position>, b: Seq<Position>)
    requires
        strictly_sorted(a),
        strictly_sorted(b),
        forall|q: Position| a.contains(q) <==> b.contains(q),
    ensures
        a == b,
    decreases a.len(),
{
    if a.len() == 0 {
        if b.len() > 0 {
            assert(b.contains(b[0]));
        }
        assert(a =~= b);
    } else {
        if b.len() == 0 {
            assert(a.contains(a[0]));
        }
        assert(a.contains(a[0]));
        assert(b.contains(b[0]));
        let ka = choose|k: int| 0 <= k < a.len() && a[k] == b[0];
        let kb = choose|k: int| 0 <= k < b.len() && b[k] == a[0];
        if ka > 0 {
            assert(lex_lt(a[0], a[ka]));
        }
        if kb > 0 {
            assert(lex_lt(b[0], b[kb]));
        }
        assert(a[0] == b[0]);
        let a1 = a.drop_first();
        let b1 = b.drop_first();
        assert forall|q: Position| a1.contains(q) <==> b1.contains(q) by {
            if a1.contains(q) {
                let k = choose|k: int| 0 <= k < a1.len() && a1[k] == q;
                assert(lex_lt(a[0], a[k + 1]));
                assert(a.contains(q));
                let j = choose|j: int| 0 <= j < b.len() && b[j] == q;
                assert(j != 0);
                assert(b1[j - 1] == q);
            }
            if b1.contains(q) {
                let k = choose|k: int| 0 <= k < b1.len() && b1[k] == q;
                assert(lex_lt(b[0], b[k + 1]));
                assert(b.contains(q));
                let j = choose|j: int| 0 <= j < a.len() && a[j] == q;
                assert(j != 0);
                assert(a1[j - 1] == q);
            }
        }
        lemma_sorted_unique(a1, b1);
        assert(a.len() == b.len());
        assert forall|i: int| 0 <= i < a.len() implies a[i] == b[i] by {
            if i > 0 {
                assert(a[i] == a1[i - 1]);
                assert(b[i] == b1[i - 1]);
            }
        }
        assert(a =~= b);
    }
}

/// `cells`, each moved by `t`.
pub open spec fn moved(cells: Seq<Position>, t: Translation) -> Seq<Position> {
    cells.map_values(|p: Position| shift(p, t))
}

/// `after` holds exactly the images under `s` of the positions of `before`.
pub open spec fn rotated_from(before: Seq<Position>, after: Seq<Position>, s: CubeSymmetry) -> bool {
    &&& forall|p: Position| before.contains(p) ==> after.contains(#[trigger] s.image(p))
    &&& forall|q: Position| #[trigger] after.contains(q) ==> exists|p: Position| before.contains(p) && q == s.image(p)
}

/// Moving the cells of a piece by `t` and then by the reverse of `t` gives
/// back the same cells, in the same order.
pub proof fn lemma_translate_round_trip(cells: Seq<Position>, t: Translation)
    requires
        reversible(t),
        forall|i: int| 0 <= i < cells.len() ==> shift_fits(#[trigger] cells[i], t),
    ensures
        forall|i: int| 0 <= i < cells.len() ==> shift_fits(#[trigger] moved(cells, t)[i], reverse(t)),
        moved(moved(cells, t), reverse(t)) == cells,
{
    assert forall|i: int| 0 <= i < cells.len() implies shift_fits(#[trigger] moved(cells, t)[i], reverse(t)) by {
        assert(shift_fits(cells[i], t));
    }
    assert(moved(moved(cells, t), reverse(t)) =~= cells);
}

/// Rotating a piece's cells by `s` and then by the inverse of `s` gives back
/// the same cells, in the same order.
pub proof fn lemma_transform_round_trip(
    a: Seq<Position>,
    b: Seq<Position>,
    c: Seq<Position>,
    s: CubeSymmetry,
)
    requires
        strictly_sorted(a),
        strictly_sorted(c),
        forall|i: int| 0 <= i < a.len() ==> negatable(#[trigger] a[i]),
        rotated_from(a, b, s),
        rotated_from(b, c, s.inverse_spec()),
    ensures
        c == a,
{
    assert forall|q: Position| a.contains(q) <==> c.contains(q) by {
        if a.contains(q) {
            let k = choose|k: int| 0 <= k < a.len() && a[k] == q;
            assert(negatable(a[k]));
            crate::symmetry::lemma_inverse_undoes(s, q);
            assert(b.contains(s.image(q)));
            assert(c.contains(s.inverse_spec().image(s.image(q))));
        }
        if c.contains(q) {
            let p = choose|p: Position| b.contains(p) && q == s.inverse_spec().image(p);
            let r = choose|r: Position| a.contains(r) && p == s.image(r);
            let k = choose|k: int| 0 <= k < a.len() && a[k] == r;
            assert(negatable(a[k]));
            crate::symmetry::lemma_inverse_undoes(s, r);
        }
    }
    lemma_sorted_unique(a, c);
}

/// Rotating strictly sorted cells keeps their number.
pub proof fn lemma_transform_keeps_count(a: Seq<Position>, b: Seq<Position>, s: CubeSymmetry)
    requires
        strictly_sorted(a),
        strictly_sorted(b),
        forall|i: int| 0 <= i < a.len() ==> negatable(#[trigger] a[i]),
        rotated_from(a, b, s),
    ensures
        b.len() == a.len(),
{
    let f = |p: Position| s.image(p);
    assert forall|q: Position| a.to_set().map(f).contains(q) <==> b.to_set().contains(q) by {
        if b.contains(q) {
            let p = choose|p: Position| a.contains(p) && q == s.image(p);
            assert(a.to_set().contains(p) && f(p) == q);
        }
        if a.to_set().map(f).contains(q) {
            let p = choose|p: Position| a.to_set().contains(p) && f(p) == q;
            assert(a.contains(p));
        }
    }
    assert(a.to_set().map(f) =~= b.to_set());
    assert forall|x: Position, y: Position|
        a.to_set().contains(x) && a.to_set().contains(y) && #[trigger] f(x) == #[trigger] f(y) implies x == y by {
        let kx = choose|k: int| 0 <= k < a.len() && a[k] == x;
        let ky = choose|k: int| 0 <= k < a.len() && a[k] == y;
        assert(negatable(a[kx]) && negatable(a[ky]));
        crate::symmetry::lemma_inverse_undoes(s, x);
        crate::symmetry::lemma_inverse_undoes(s, y);
    }
    vstd::seq_lib::seq_to_set_is_finite(a);
    vstd::set_lib::lemma_map_size(a.to_set(), b.to_set(), f);
    assert(a.no_duplicates()) by {
        assert forall|i: int, j: int| 0 <= i < a.len() && 0 <= j < a.len() && i != j implies a[i] != a[j] by {
            if i < j {
                assert(lex_lt(a[i], a[j]));
            } else {
                assert(lex_lt(a[j], a[i]));
            }
        }
    }
    assert(b.no_duplicates()) by {
        assert forall|i: int, j: int| 0 <= i < b.len() && 0 <= j < b.len() && i != j implies b[i] != b[j] by {
            if i < j {
                assert(lex_lt(b[i], b[j]));
            } else {
                assert(lex_lt(b[j], b[i]));
            }
        }
    }
    a.unique_seq_to_set();
    b.unique_seq_to_set();
}

/// A set of cells, kept in increasing order, with an optional name. Two
/// pieces are equal when they hold the same cells, whatever their names.
#[derive(Debug)]
pub struct Piece {
    positions: Vec<Position>,
    name: Option<String>,
}

/// A read-only walk over positions, in the order they were handed over.
pub struct PositionIterator {
    index: usize,
    positions: Vec<Position>,
}

/// A copy of an optional name.
fn copy_name(name: &Option<String>) -> (r: Option<String>)
    ensures
        r == *name,
{
    match name {
        Some(n) => Some(n.clone()),
        None => None,
    }
}

/// Adds `p` to the strictly sorted `v`, unless it is there already.
fn insert_sorted(v: &mut Vec<Position>, p: Position)
    requires
        strictly_sorted(old(v)@),
    ensures
        strictly_sorted(final(v)@),
        forall|q: Position| final(v)@.contains(q) <==> (old(v)@.contains(q) || q == p),
{
    let mut i: usize = 0;
    while i < v.len() && v[i].precedes(&p)
        invariant
            0 <= i <= v@.len(),
            v@ == old(v)@,
            forall|k: int| 0 <= k < i ==> lex_lt(#[trigger] v@[k], p),
        decreases v@.len() - i,
    {
        i = i + 1;
    }
    if i < v.len() && v[i] == p {
        assert(v@[i as int] == p);
        return ;
    }
    proof {
        assert(i < v@.len() ==> lex_lt(p, v@[i as int]));
    }
    let ghost prev = v@;
    v.insert(i, p);
    proof {
        assert(forall|k: int| i < k < v@.len() ==> v@[k] == prev[k - 1]);
        assert(forall|k: int| 0 <= k < i ==> v@[k] == prev[k]);
        assert forall|q: Position| v@.contains(q) <==> (prev.contains(q) || q == p) by {
            if v@.contains(q) {
                let k = choose|k: int| 0 <= k < v@.len() && v@[k] == q;
                if k < i {
                    assert(prev[k] == q);
                } else if k > i {
                    assert(prev[k - 1] == q);
                }
            }
            if prev.contains(q) {
                let k = choose|k: int| 0 <= k < prev.len() && prev[k] == q;
                if k < i {
                    assert(v@[k] == q);
                } else {
                    assert(v@[k + 1] == q);
                }
            }
            if q == p {
                assert(v@[i as int] == q);
            }
        }
        assert(v@[i as int] == p);
        assert(v@.contains(p));
    }
}

impl Piece {
    /// The cells of the piece, in increasing order.
    pub closed spec fn cells(&self) -> Seq<Position> {
        self.positions@
    }

    /// The piece's name, if it has one.
    pub closed spec fn label(&self) -> Option<String> {
        self.name
    }

    /// The cells are kept in strictly increasing order.
    pub open spec fn wf(&self) -> bool {
        strictly_sorted(self.cells())
    }

    /// A piece that holds `positions`, sorted and without repetition.
    pub fn new(positions: Vec<Position>) -> (r: Piece)
        ensures
            r.wf(),
            forall|q: Position| r.cells().contains(q) <==> positions@.contains(q),
            r.label() == None::<String>,
    {
        Piece::collect(&positions, None)
    }

    /// A named piece that holds `positions`, sorted and without repetition.
    pub fn named(positions: Vec<Position>, name: String) -> (r: Piece)
        ensures
            r.wf(),
            forall|q: Position| r.cells().contains(q) <==> positions@.contains(q),
            r.label() == Some(name),
    {
        Piece::collect(&positions, Some(name))
    }

    pub(crate) fn collect(positions: &Vec<Position>, name: Option<String>) -> (r: Piece)
        ensures
            r.wf(),
            forall|q: Position| r.cells().contains(q) <==> positions@.contains(q),
            r.label() == name,
    {
        let mut sorted: Vec<Position> = Vec::new();
        let mut i: usize = 0;
        while i < positions.len()
            invariant
                0 <= i <= positions@.len(),
                strictly_sorted(sorted@),
                forall|q: Position|
                    sorted@.contains(q) <==> positions@.subrange(0, i as int).contains(q),
            decreases positions@.len() - i,
        {
            let ghost before = positions@.subrange(0, i as int);
            insert_sorted(&mut sorted, positions[i]);
            proof {
                let after = positions@.subrange(0, i + 1);
                assert(after =~= before.push(positions@[i as int]));
                assert forall|q: Position| after.contains(q) <==> (before.contains(q) || q
                    == positions@[i as int]) by {
                    if after.contains(q) {
                        let k = choose|k: int| 0 <= k < after.len() && after[k] == q;
                        if k < i {
                            assert(before[k] == q);
                        }
                    }
                    if before.contains(q) {
                        let k = choose|k: int| 0 <= k < before.len() && before[k] == q;
                        assert(after[k] == q);
                    }
                    if q == positions@[i as int] {
                        assert(after[i as int] == q);
                    }
                }
            }
            i = i + 1;
        }
        proof {
            assert(positions@.subrange(0, positions@.len() as int) == positions@);
        }
        Piece { positions: sorted, name }
    }

    /// Whether `position` is one of the piece's cells.
    pub fn contains(&self, position: &Position) -> (r: bool)
        ensures
            r == self.cells().contains(*position),
    {
        let mut i: usize = 0;
        while i < self.positions.len()
            invariant
                0 <= i <= self.positions@.len(),
                forall|k: int| 0 <= k < i ==> self.positions@[k] != *position,
            decreases self.positions@.len() - i,
        {
            if self.positions[i] == *position {
                return true;
            }
            i = i + 1;
        }
        false
    }

    /// A walk over the cells in increasing order.
    pub fn iter(&self) -> (r: PositionIterator)
        ensures
            r.rest() == self.cells(),
    {
        PositionIterator::new(self.copy_positions())
    }

    fn copy_positions(&self) -> (r: Vec<Position>)
        ensures
            r@ == self.cells(),
    {
        let mut out: Vec<Position> = Vec::new();
        let mut i: usize = 0;
        while i < self.positions.len()
            invariant
                0 <= i <= self.positions@.len(),
                out@ == self.positions@.subrange(0, i as int),
            decreases self.positions@.len() - i,
        {
            out.push(self.positions[i]);
            i = i + 1;
        }
        proof {
            assert(self.positions@.subrange(0, self.positions@.len() as int) == self.positions@);
        }
        out
    }

    /// A copy of the piece, name included.
    pub fn duplicate(&self) -> (r: Piece)
        ensures
            r.cells() == self.cells(),
            r.label() == self.label(),
    {
        Piece { positions: self.copy_positions(), name: copy_name(&self.name) }
    }

    /// The piece's name, if it has one.
    pub fn name(&self) -> (r: &Option<String>)
        ensures
            *r == self.label(),
    {
        &self.name
    }

    /// The number of cells.
    pub fn size(&self) -> (r: usize)
        ensures
            r == self.cells().len(),
    {
        self.positions.len()
    }

    /// The least cell, or `None` for an empty piece.
    pub fn minimum_position(&self) -> (r: Option<Position>)
        requires
            self.wf(),
        ensures
            r is None <==> self.cells().len() == 0,
            r matches Some(m) ==> self.cells().contains(m) && forall|q: Position|
                #[trigger] self.cells().contains(q) ==> lex_le(m, q),
    {
        if self.positions.len() == 0 {
            None
        } else {
            let m = self.positions[0];
            proof {
                assert(self.cells()[0] == m);
                assert forall|q: Position| #[trigger] self.cells().contains(q) implies lex_le(
                    m,
                    q,
                ) by {
                    let k = choose|k: int| 0 <= k < self.cells().len() && self.cells()[k] == q;
                    if k > 0 {
                        assert(lex_lt(self.cells()[0], self.cells()[k]));
                    }
                }
            }
            Some(m)
        }
    }

    /// Moves every cell by `t`. The order of the cells is kept.
    pub fn translate(&mut self, t: &Translation)
        requires
            old(self).wf(),
            forall|i: int| 0 <= i < old(self).cells().len() ==> shift_fits(#[trigger] old(self).cells()[i], *t),
        ensures
            final(self).wf(),
            final(self).cells() == moved(old(self).cells(), *t),
            final(self).label() == old(self).label(),
    {
        let ghost start = self.positions@;
        let mut i: usize = 0;
        while i < self.positions.len()
            invariant
                0 <= i <= self.positions@.len(),
                self.positions@.len() == start.len(),
                strictly_sorted(start),
                forall|k: int| 0 <= k < start.len() ==> shift_fits(#[trigger] start[k], *t),
                forall|k: int| 0 <= k < i ==> self.positions@[k] == shift(#[trigger] start[k], *t),
                forall|k: int| i <= k < start.len() ==> self.positions@[k] == start[k],
                self.name == old(self).name,
            decreases start.len() - i,
        {
            let mut p = self.positions[i];
            assert(shift_fits(start[i as int], *t));
            p.translate(t);
            self.positions.set(i, p);
            i = i + 1;
        }
        proof {
            assert(self.positions@ =~= moved(start, *t));
            assert forall|a: int, b: int| 0 <= a < b < self.positions@.len() implies lex_lt(
                #[trigger] self.positions@[a],
                #[trigger] self.positions@[b],
            ) by {
                crate::position::lemma_shift_keeps_order(start[a], start[b], *t);
            }
        }
    }

    /// The piece moved by `t`, or `None` where a cell would leave the grid.
    pub fn translated(&self, t: &Translation) -> (r: Option<Piece>)
        requires
            self.wf(),
        ensures
            r is Some <==> forall|i: int| 0 <= i < self.cells().len() ==> shift_fits(#[trigger] self.cells()[i], *t),
            r matches Some(p) ==> p.wf() && p.cells() == moved(self.cells(), *t),
    {
        let mut i: usize = 0;
        while i < self.positions.len()
            invariant
                0 <= i <= self.positions@.len(),
                forall|k: int| 0 <= k < i ==> shift_fits(#[trigger] self.positions@[k], *t),
            decreases self.positions@.len() - i,
        {
            if self.positions[i].shifted(t).is_none() {
                assert(!shift_fits(self.cells()[i as int], *t));
                return None;
            }
            i = i + 1;
        }
        let mut moved = self.duplicate();
        moved.translate(t);
        Some(moved)
    }

    /// Rotates every cell by `s`, then restores the order of the cells.
    pub fn transform(&mut self, s: &CubeSymmetry)
        requires
            old(self).wf(),
            forall|i: int| 0 <= i < old(self).cells().len() ==> negatable(#[trigger] old(self).cells()[i]),
        ensures
            final(self).wf(),
            rotated_from(old(self).cells(), final(self).cells(), *s),
            final(self).cells().len() == old(self).cells().len(),
            final(self).label() == old(self).label(),
    {
        let mut rotated: Vec<Position> = Vec::new();
        let mut i: usize = 0;
        while i < self.positions.len()
            invariant
                0 <= i <= self.positions@.len(),
                self.positions@ == old(self).positions@,
                forall|k: int| 0 <= k < self.positions@.len() ==> negatable(#[trigger] self.positions@[k]),
                strictly_sorted(rotated@),
                forall|q: Position| rotated@.contains(q) <==> exists|k: int| 0 <= k < i && q == s.image(#[trigger] self.positions@[k]),
            decreases self.positions@.len() - i,
        {
            let q = s.apply(self.positions[i]);
            insert_sorted(&mut rotated, q);
            i = i + 1;
        }
        proof {
            assert forall|p: Position| old(self).cells().contains(p) implies rotated@.contains(#[trigger] s.image(p)) by {
                let k = choose|k: int| 0 <= k < self.positions@.len() && self.positions@[k] == p;
            }
        }
        self.positions = rotated;
        proof {
            lemma_transform_keeps_count(old(self).cells(), self.cells(), *s);
        }
    }
}

impl PartialEq for Piece {
    fn eq(&self, other: &Piece) -> (r: bool) {
        if self.positions.len() != other.positions.len() {
            return false;
        }
        let mut i: usize = 0;
        while i < self.positions.len()
            invariant
                0 <= i <= self.positions@.len(),
                self.positions@.len() == other.positions@.len(),
                forall|k: int| 0 <= k < i ==> self.positions@[k] == other.positions@[k],
            decreases self.positions@.len() - i,
        {
            if self.positions[i] != other.positions[i] {
                return false;
            }
            i = i + 1;
        }
        proof {
            assert(self.positions@ == other.positions@);
        }
        true
    }
}

impl vstd::std_specs::cmp::PartialEqSpecImpl for Piece {
    open spec fn obeys_eq_spec() -> bool {
        true
    }

    open spec fn eq_spec(&self, other: &Piece) -> bool {
        self.cells() == other.cells()
    }
}

impl PositionIterator {
    /// The positions not yet handed out.
    pub closed spec fn rest(&self) -> Seq<Position> {
        if self.index <= self.positions@.len() {
            self.positions@.subrange(self.index as int, self.positions@.len() as int)
        } else {
            Seq::empty()
        }
    }

    /// A walk over `positions`, from the first.
    pub fn new(positions: Vec<Position>) -> (r: PositionIterator)
        ensures
            r.rest() == positions@,
    {
        proof {
            assert(positions@.subrange(0, positions@.len() as int) == positions@);
        }
        PositionIterator { index: 0, positions }
    }

    /// The next position, or `None` once all were handed out.
    pub fn next(&mut self) -> (r: Option<Position>)
        ensures
            old(self).rest().len() == 0 ==> r is None && final(self).rest() == old(self).rest(),
            old(self).rest().len() > 0 ==> r == Some(old(self).rest()[0]) && final(self).rest()
                == old(self).rest().drop_first(),
    {
        if self.index < self.positions.len() {
            let p = self.positions[self.index];
            self.index = self.index + 1;
            assert(self.rest() =~= old(self).rest().drop_first());
            assert(old(self).rest()[0] == p);
            Some(p)
        } else {
            None
        }
    }
}

} // verus!
