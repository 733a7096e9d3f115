//! Shape definitions and the generation of their distinct orientations.

use vstd::prelude::*;
use crate::piece::{lemma_sorted_unique, strictly_sorted, Piece};
use crate::position::{
    in_grid, lemma_shift_keeps_order, lex_le, offset, origin, shift, shift_fits, Position,
    Translation,
};
use crate::symmetry::{all_symmetries, lemma_image_in_grid, CubeSymmetry};

verus! {

/// The rotated cells of the shape `t`.
pub open spec fn image_set(t: Seq<Position>, s: CubeSymmetry) -> Set<Position> {
    Set::new(|q: Position| exists|p: Position| t.contains(p) && q == s.image(p))
}

/// `m` is the least member of `cells`.
pub open spec fn least(m: Position, cells: Set<Position>) -> bool {
    cells.contains(m) && forall|q: Position| cells.contains(q) ==> lex_le(m, q)
}

/// `cells`, each moved by `t`.
pub open spec fn translate_set(cells: Set<Position>, t: Translation) -> Set<Position> {
    Set::new(|q: Position| exists|p: Position| cells.contains(p) && q == shift(p, t))
}

/// Every member of `cells` can be moved by `t`.
pub open spec fn all_fit(cells: Set<Position>, t: Translation) -> bool {
    forall|p: Position| cells.contains(p) ==> shift_fits(p, t)
}

/// The shape `t` rotated by `s` and moved so that its least cell is the origin.
pub open spec fn orientation(t: Seq<Position>, s: CubeSymmetry) -> Set<Position> {
    let r = image_set(t, s);
    let m = choose|m: Position| least(m, r);
    translate_set(r, offset(m, origin()))
}

/// The distinct orientations met while going through the first `n` rotations,
/// each at its first occurrence.
pub open spec fn orientations_upto(t: Seq<Position>, n: nat) -> Seq<Set<Position>>
    decreases n,
{
    if n == 0 {
        Seq::empty()
    } else {
        let prev = orientations_upto(t, (n - 1) as nat);
        let o = orientation(t, all_symmetries()[n - 1]);
        if prev.contains(o) {
            prev
        } else {
            prev.push(o)
        }
    }
}

/// The distinct orientations of the shape `t`, in the order of enumeration of
/// the rotations.
pub open spec fn orientations(t: Seq<Position>) -> Seq<Set<Position>> {
    orientations_upto(t, 24)
}

/// The shapes of a sequence of pieces, as sets of cells.
pub open spec fn shapes(pieces: Seq<Piece>) -> Seq<Set<Position>> {
    pieces.map_values(|p: Piece| p.cells().to_set())
}

/// The definition of a shape, from which all its orientations come. Two
/// templates are equal when they list the same cells in the same order,
/// whatever their names.
#[derive(Debug)]
pub struct Template {
    positions: Vec<Position>,
    name: Option<String>,
}

/// Hands out the distinct orientations of a template, one at a time.
pub struct PieceIterator {
    symmetries: Vec<CubeSymmetry>,
    index: usize,
    seen_pieces: Vec<Piece>,
    template: Template,
}

impl Template {
    /// The cells of the shape, in the order given.
    pub closed spec fn shape(&self) -> Seq<Position> {
        self.positions@
    }

    /// The template's name, if it has one.
    pub closed spec fn label(&self) -> Option<String> {
        self.name
    }

    /// Every cell lies within the grid bounds.
    pub open spec fn wf(&self) -> bool {
        forall|i: int| 0 <= i < self.shape().len() ==> in_grid(#[trigger] self.shape()[i])
    }

    /// A template of the given cells, without a name.
    pub fn new(positions: Vec<Position>) -> (r: Template)
        ensures
            r.shape() == positions@,
            r.label() == None::<String>,
    {
        Template { positions, name: None }
    }

    /// The same template, named `name`.
    pub fn with_name(self, name: String) -> (r: Template)
        ensures
            r.shape() == self.shape(),
            r.label() == Some(name),
    {
        Template { positions: self.positions, name: Some(name) }
    }

    /// The piece of the template's cells, under its name.
    pub fn to_piece(&self) -> (r: Piece)
        ensures
            r.wf(),
            forall|q: Position| r.cells().contains(q) <==> self.shape().contains(q),
            r.label() == self.label(),
    {
        let name = match &self.name {
            Some(n) => Some(n.clone()),
            None => None,
        };
        Piece::collect(&self.positions, name)
    }

    /// A copy of the template.
    pub fn duplicate(&self) -> (r: Template)
        ensures
            r.shape() == self.shape(),
            r.label() == self.label(),
    {
        let mut positions: Vec<Position> = Vec::new();
        let mut i: usize = 0;
        while i < self.positions.len()
            invariant
                0 <= i <= self.positions@.len(),
                positions@ == self.positions@.subrange(0, i as int),
            decreases self.positions@.len() - i,
        {
            positions.push(self.positions[i]);
            i = i + 1;
        }
        proof {
            assert(self.positions@.subrange(0, self.positions@.len() as int) == self.positions@);
        }
        let name = match &self.name {
            Some(n) => Some(n.clone()),
            None => None,
        };
        Template { positions, name }
    }

    /// An iterator over the template's distinct orientations.
    pub fn into_iter(self) -> (r: PieceIterator)
        requires
            self.wf(),
        ensures
            r.wf(),
            r.source() == self.shape(),
            r.source_label() == self.label(),
            r.produced() == Seq::<Set<Position>>::empty(),
    {
        PieceIterator::new(self)
    }

    /// Every distinct orientation of the template, in the order of
    /// enumeration of the rotations.
    pub fn orientations(&self) -> (r: Vec<Piece>)
        requires
            self.wf(),
        ensures
            shapes(r@) == orientations(self.shape()),
            forall|k: int| 0 <= k < r@.len() ==> (#[trigger] r@[k]).wf(),
    {
        let mut pieces: Vec<Piece> = Vec::new();
        let mut iterator = PieceIterator::new(self.duplicate());
        loop
            invariant
                iterator.wf(),
                iterator.source() == self.shape(),
                shapes(pieces@) == iterator.produced(),
                forall|k: int| 0 <= k < pieces@.len() ==> (#[trigger] pieces@[k]).wf(),
            decreases iterator.remaining(),
        {
            match iterator.next() {
                Some(p) => {
                    let ghost before = pieces@;
                    pieces.push(p);
                    proof {
                        assert(shapes(pieces@) =~= shapes(before).push(p.cells().to_set()));
                    }
                },
                None => {
                    return pieces;
                },
            }
        }
    }

    /// The template rotated by `s` and moved so that its least cell is the
    /// origin.
    pub fn orient(&self, s: CubeSymmetry) -> (r: Piece)
        requires
            self.wf(),
        ensures
            r.wf(),
            r.cells().to_set() == orientation(self.shape(), s),
            r.label() == self.label(),
    {
        let ghost t = self.shape();
        let mut piece = self.to_piece();
        let ghost before = piece.cells();
        proof {
            assert forall|i: int| 0 <= i < before.len() implies crate::position::negatable(
                #[trigger] before[i],
            ) by {
                assert(before.contains(before[i]));
                let k = choose|k: int| 0 <= k < t.len() && t[k] == before[i];
                lemma_image_in_grid(s, t[k]);
            }
        }
        piece.transform(&s);
        let ghost rotated = piece.cells();
        let ghost r = image_set(t, s);
        proof {
            assert forall|q: Position| rotated.contains(q) <==> r.contains(q) by {
                if r.contains(q) {
                    let p = choose|p: Position| t.contains(p) && q == s.image(p);
                    assert(before.contains(p));
                }
            }
            assert forall|q: Position| #[trigger] rotated.contains(q) implies in_grid(q) by {
                let p = choose|p: Position| before.contains(p) && q == s.image(p);
                let k = choose|k: int| 0 <= k < t.len() && t[k] == p;
                lemma_image_in_grid(s, t[k]);
            }
        }
        match piece.minimum_position() {
            None => {
                proof {
                    assert(rotated.to_set() =~= orientation(t, s));
                }
                piece
            },
            Some(m) => {
                let reference = m.to_reference();
                proof {
                    assert(least(m, r));
                    let m2 = choose|m2: Position| least(m2, r);
                    assert(lex_le(m, m2) && lex_le(m2, m));
                    assert(m2 == m);
                    assert(in_grid(m));
                    assert forall|i: int| 0 <= i < rotated.len() implies shift_fits(
                        #[trigger] rotated[i],
                        reference,
                    ) by {
                        assert(rotated.contains(rotated[i]));
                    }
                }
                piece.translate(&reference);
                proof {
                    let fin = piece.cells();
                    let o = orientation(t, s);
                    assert forall|q: Position| fin.to_set().contains(q) <==> o.contains(q) by {
                        if fin.contains(q) {
                            let k = choose|k: int| 0 <= k < fin.len() && fin[k] == q;
                            assert(rotated.contains(rotated[k]));
                            assert(r.contains(rotated[k]));
                        }
                        if o.contains(q) {
                            let p = choose|p: Position|
                                r.contains(p) && q == shift(p, offset(m, origin()));
                            assert(rotated.contains(p));
                            let k = choose|k: int| 0 <= k < rotated.len() && rotated[k] == p;
                            assert(fin[k] == q);
                        }
                    }
                    assert(fin.to_set() =~= o);
                }
                piece
            },
        }
    }
}

impl PartialEq for Template {
    fn eq(&self, other: &Template) -> (r: bool) {
        if self.positions.len() != other.positions.len() {
            return false;
        }
        let mut i: usize = 0;
        while i < self.positions.len()
            invariant
                0 <= i <= self.positions@.len(),
                self.positions@.len() == other.positions@.len(),
                forall|k: int| 0 <= k < i ==> self.positions@[k] == other.positions@[k],
            decreases self.positions@.len() - i,
        {
            if self.positions[i] != other.positions[i] {
                return false;
            }
            i = i + 1;
        }
        proof {
            assert(self.positions@ == other.positions@);
        }
        true
    }
}

impl vstd::std_specs::cmp::PartialEqSpecImpl for Template {
    open spec fn obeys_eq_spec() -> bool {
        true
    }

    open spec fn eq_spec(&self, other: &Template) -> bool {
        self.shape() == other.shape()
    }
}

/// `a` is the beginning of `b`.
pub open spec fn is_prefix(a: Seq<Set<Position>>, b: Seq<Set<Position>>) -> bool {
    a.len() <= b.len() && a == b.subrange(0, a.len() as int)
}

/// The orientations met so far lead those met later.
pub proof fn lemma_upto_prefix(t: Seq<Position>, n: nat, k: nat)
    requires
        n <= k,
    ensures
        is_prefix(orientations_upto(t, n), orientations_upto(t, k)),
    decreases k - n,
{
    if n < k {
        lemma_upto_prefix(t, n, (k - 1) as nat);
        let a = orientations_upto(t, n);
        let b = orientations_upto(t, (k - 1) as nat);
        let c = orientations_upto(t, k);
        assert(b.subrange(0, b.len() as int) =~= b);
        assert(c.subrange(0, a.len() as int) =~= a);
    } else {
        assert(orientations_upto(t, n).subrange(0, orientations_upto(t, n).len() as int)
            =~= orientations_upto(t, n));
    }
}

impl PieceIterator {
    /// The template whose orientations are handed out.
    pub closed spec fn source(&self) -> Seq<Position> {
        self.template.shape()
    }

    /// The name of the template, which every orientation carries.
    pub closed spec fn source_label(&self) -> Option<String> {
        self.template.label()
    }

    /// The orientations handed out so far.
    pub closed spec fn produced(&self) -> Seq<Set<Position>> {
        shapes(self.seen_pieces@)
    }

    /// How many rotations are still to be tried.
    pub closed spec fn remaining(&self) -> nat {
        (24 - self.index) as nat
    }

    /// The rotations are those of the fixed enumeration, the template is
    /// within the grid bounds, and the orientations kept are exactly those
    /// met in the rotations tried so far.
    pub closed spec fn wf(&self) -> bool {
        &&& self.symmetries@ == all_symmetries()
        &&& self.index <= 24
        &&& self.template.wf()
        &&& self.produced() == orientations_upto(self.source(), self.index as nat)
        &&& forall|k: int| 0 <= k < self.seen_pieces@.len() ==> (#[trigger] self.seen_pieces@[k]).wf()
    }

    /// An iterator over the orientations of `template`, before the first.
    pub fn new(template: Template) -> (r: PieceIterator)
        requires
            template.wf(),
        ensures
            r.wf(),
            r.source() == template.shape(),
            r.source_label() == template.label(),
            r.produced() == Seq::<Set<Position>>::empty(),
    {
        let r = PieceIterator {
            symmetries: CubeSymmetry::all(),
            index: 0,
            seen_pieces: Vec::new(),
            template,
        };
        proof {
            assert(r.produced() =~= Seq::<Set<Position>>::empty());
        }
        r
    }

    /// The next orientation not handed out before, or `None` once every
    /// rotation was tried.
    pub fn next(&mut self) -> (r: Option<Piece>)
        requires
            old(self).wf(),
        ensures
            final(self).wf(),
            final(self).source() == old(self).source(),
            final(self).source_label() == old(self).source_label(),
            r matches Some(p) ==> p.label() == old(self).source_label(),
            is_prefix(final(self).produced(), orientations(final(self).source())),
            r matches Some(p) ==> p.wf() && final(self).produced() == old(self).produced().push(
                p.cells().to_set(),
            ) && final(self).remaining() < old(self).remaining(),
            r is None ==> final(self).produced() == old(self).produced() && old(self).produced()
                == orientations(old(self).source()),
    {
        let ghost t = self.source();
        assert(t == old(self).source());
        while self.index < self.symmetries.len()
            invariant
                self.wf(),
                self.source() == t,
                t == old(self).source(),
                self.source_label() == old(self).source_label(),
                self.produced() == old(self).produced(),
                self.remaining() <= old(self).remaining(),
            decreases 24 - self.index,
        {
            let s = self.symmetries[self.index];
            let piece = self.template.orient(s);
            let ghost o = orientation(t, s);
            let ghost prev = self.produced();
            let mut found = false;
            let mut k: usize = 0;
            while k < self.seen_pieces.len()
                invariant
                    0 <= k <= self.seen_pieces@.len(),
                    self.wf(),
                    self.source() == t,
                    prev == self.produced(),
                    piece.wf(),
                    piece.cells().to_set() == o,
                    piece.label() == self.source_label(),
                    found == exists|j: int| 0 <= j < k && prev[j] == o,
                decreases self.seen_pieces@.len() - k,
            {
                let same = self.seen_pieces[k] == piece;
                proof {
                    let other = self.seen_pieces@[k as int];
                    assert(prev[k as int] == other.cells().to_set());
                    if prev[k as int] == o {
                        assert forall|q: Position| other.cells().contains(q) <==> piece.cells().contains(q) by {
                            assert(other.cells().to_set().contains(q) == o.contains(q));
                            assert(piece.cells().to_set().contains(q) == o.contains(q));
                        }
                        lemma_sorted_unique(other.cells(), piece.cells());
                    }
                }
                if same {
                    found = true;
                }
                k = k + 1;
            }
            proof {
                assert(all_symmetries()[self.index as int] == s);
                assert(found == prev.contains(o));
            }
            self.index = self.index + 1;
            if !found {
                let copy = piece.duplicate();
                self.seen_pieces.push(copy);
                proof {
                    assert(self.produced() =~= prev.push(o));
                    lemma_upto_prefix(t, self.index as nat, 24);
                }
                return Some(piece);
            }
        }
        proof {
            lemma_upto_prefix(t, self.index as nat, 24);
        }
        None
    }
}

/// Going through `n` rotations yields at most `n` orientations, and at least
/// one once a rotation was tried.
proof fn lemma_upto_count(t: Seq<Position>, n: nat)
    ensures
        orientations_upto(t, n).len() <= n,
        n > 0 ==> orientations_upto(t, n).len() >= 1,
    decreases n,
{
    if n > 0 {
        lemma_upto_count(t, (n - 1) as nat);
    }
}

/// A shape has at least one and at most 24 distinct orientations.
pub proof fn lemma_orientation_count(t: Seq<Position>)
    ensures
        1 <= orientations(t).len() <= 24,
{
    lemma_upto_count(t, 24);
}

/// Every orientation met in the first `n` rotations is the orientation under
/// one of them.
pub proof fn lemma_upto_members(t: Seq<Position>, n: nat, k: int)
    requires
        n <= 24,
        0 <= k < orientations_upto(t, n).len(),
    ensures
        exists|i: int| 0 <= i < n && orientations_upto(t, n)[k] == orientation(t, #[trigger] all_symmetries()[i]),
    decreases n,
{
    let prev = orientations_upto(t, (n - 1) as nat);
    if k < prev.len() {
        lemma_upto_members(t, (n - 1) as nat, k);
        let i = choose|i: int| 0 <= i < n - 1 && prev[k] == orientation(t, #[trigger] all_symmetries()[i]);
        assert(orientations_upto(t, n)[k] == prev[k]);
    } else {
        assert(orientations_upto(t, n)[k] == orientation(t, all_symmetries()[n - 1]));
    }
}

/// A non-empty set of rotated cells has a least member.
proof fn lemma_least_exists(t: Seq<Position>, s: CubeSymmetry)
    requires
        t.len() > 0,
    ensures
        exists|m: Position| least(m, image_set(t, s)),
    decreases t.len(),
{
    let l = s.image(t.last());
    assert(t.contains(t.last()));
    assert(image_set(t, s).contains(l));
    if t.len() == 1 {
        assert forall|q: Position| image_set(t, s).contains(q) implies lex_le(l, q) by {
            let p = choose|p: Position| t.contains(p) && q == s.image(p);
            let k = choose|k: int| 0 <= k < t.len() && t[k] == p;
        }
        assert(least(l, image_set(t, s)));
    } else {
        let t1 = t.drop_last();
        lemma_least_exists(t1, s);
        let m1 = choose|m: Position| least(m, image_set(t1, s));
        let p1 = choose|p: Position| t1.contains(p) && m1 == s.image(p);
        let k1 = choose|k: int| 0 <= k < t1.len() && t1[k] == p1;
        assert(t[k1] == p1);
        assert(image_set(t, s).contains(m1));
        let m = if crate::position::lex_lt(l, m1) { l } else { m1 };
        assert forall|q: Position| image_set(t, s).contains(q) implies lex_le(m, q) by {
            let p = choose|p: Position| t.contains(p) && q == s.image(p);
            let k = choose|k: int| 0 <= k < t.len() && t[k] == p;
            if k < t.len() - 1 {
                assert(t1[k] == p);
                assert(image_set(t1, s).contains(q));
            }
        }
        assert(least(m, image_set(t, s)));
    }
}

/// The orientation of a non-empty shape has the origin as its least cell.
pub proof fn lemma_orientation_anchored(t: Seq<Position>, s: CubeSymmetry)
    requires
        t.len() > 0,
        forall|i: int| 0 <= i < t.len() ==> in_grid(#[trigger] t[i]),
    ensures
        least(origin(), orientation(t, s)),
{
    let r = image_set(t, s);
    lemma_least_exists(t, s);
    let m = choose|m: Position| least(m, r);
    let off = offset(m, origin());
    assert forall|p: Position| r.contains(p) implies in_grid(p) by {
        let p0 = choose|p0: Position| t.contains(p0) && p == s.image(p0);
        let k = choose|k: int| 0 <= k < t.len() && t[k] == p0;
        lemma_image_in_grid(s, t[k]);
    }
    assert(in_grid(m));
    assert(shift(m, off) == origin());
    let o = orientation(t, s);
    assert(o.contains(origin()));
    assert forall|q: Position| o.contains(q) implies lex_le(origin(), q) by {
        let p = choose|p: Position| r.contains(p) && q == shift(p, off);
        assert(in_grid(p));
        lemma_shift_keeps_order(m, p, off);
    }
}

/// Every orientation that a non-empty template yields has the origin as its
/// least cell.
pub proof fn lemma_orientations_anchored(t: Seq<Position>)
    requires
        t.len() > 0,
        forall|i: int| 0 <= i < t.len() ==> in_grid(#[trigger] t[i]),
    ensures
        forall|k: int| 0 <= k < orientations(t).len() ==> least(origin(), #[trigger] orientations(t)[k]),
{
    assert forall|k: int| 0 <= k < orientations(t).len() implies least(origin(), #[trigger] orientations(t)[k]) by {
        lemma_upto_members(t, 24, k);
        let i = choose|i: int| 0 <= i < 24 && orientations(t)[k] == orientation(t, #[trigger] all_symmetries()[i]);
        lemma_orientation_anchored(t, all_symmetries()[i]);
    }
}

/// Moving the cells of a finite set, each of which can be moved, keeps their
/// number.
pub proof fn lemma_translate_set_len(cells: Set<Position>, t: Translation)
    requires
        cells.finite(),
        all_fit(cells, t),
    ensures
        translate_set(cells, t).finite(),
        translate_set(cells, t).len() == cells.len(),
{
    let f = |p: Position| shift(p, t);
    assert(cells.map(f) =~= translate_set(cells, t));
    assert forall|a: Position, b: Position|
        cells.contains(a) && cells.contains(b) && #[trigger] f(a) == #[trigger] f(b) implies a == b by {
        lemma_shift_keeps_order(a, b, t);
    }
    vstd::set_lib::lemma_map_size(cells, translate_set(cells, t), f);
}

/// An orientation of a shape within the grid bounds has as many cells as the
/// shape has distinct cells.
pub proof fn lemma_orientation_len(t: Seq<Position>, s: CubeSymmetry)
    requires
        forall|i: int| 0 <= i < t.len() ==> in_grid(#[trigger] t[i]),
    ensures
        orientation(t, s).finite(),
        orientation(t, s).len() == t.to_set().len(),
{
    let f = |p: Position| s.image(p);
    let r = image_set(t, s);
    assert forall|q: Position| t.to_set().map(f).contains(q) <==> r.contains(q) by {
        if r.contains(q) {
            let p = choose|p: Position| t.contains(p) && q == s.image(p);
            assert(t.to_set().contains(p) && f(p) == q);
        }
        if t.to_set().map(f).contains(q) {
            let p = choose|p: Position| t.to_set().contains(p) && f(p) == q;
            assert(t.contains(p));
        }
    }
    assert(t.to_set().map(f) =~= r);
    assert forall|a: Position, b: Position|
        t.to_set().contains(a) && t.to_set().contains(b) && #[trigger] f(a) == #[trigger] f(b) implies a == b by {
        let ka = choose|k: int| 0 <= k < t.len() && t[k] == a;
        let kb = choose|k: int| 0 <= k < t.len() && t[k] == b;
        lemma_image_in_grid(s, t[ka]);
        lemma_image_in_grid(s, t[kb]);
        crate::symmetry::lemma_inverse_undoes(s, a);
        crate::symmetry::lemma_inverse_undoes(s, b);
    }
    vstd::seq_lib::seq_to_set_is_finite(t);
    vstd::set_lib::lemma_map_size(t.to_set(), r, f);
    let m = choose|m: Position| least(m, r);
    let off = offset(m, origin());
    assert forall|p: Position| r.contains(p) implies in_grid(p) by {
        let p0 = choose|p0: Position| t.contains(p0) && p == s.image(p0);
        let k = choose|k: int| 0 <= k < t.len() && t[k] == p0;
        lemma_image_in_grid(s, t[k]);
    }
    if t.len() > 0 {
        lemma_least_exists(t, s);
        assert(in_grid(m));
    } else {
        assert(r =~= Set::<Position>::empty());
    }
    lemma_translate_set_len(r, off);
}

/// Every rotation's orientation of a shape is among its distinct
/// orientations.
pub proof fn lemma_orientation_listed(t: Seq<Position>, si: int)
    requires
        0 <= si < 24,
    ensures
        orientations(t).contains(orientation(t, all_symmetries()[si])),
{
    let n = (si + 1) as nat;
    let o = orientation(t, all_symmetries()[si]);
    let prev = orientations_upto(t, si as nat);
    let cur = orientations_upto(t, n);
    if prev.contains(o) {
        let w = choose|w: int| 0 <= w < prev.len() && prev[w] == o;
        assert(cur == prev);
        assert(cur[w] == o);
    } else {
        assert(cur == prev.push(o));
        assert(cur[prev.len() as int] == o);
    }
    assert(cur.contains(o));
    lemma_upto_prefix(t, n, 24);
    let w = choose|w: int| 0 <= w < cur.len() && cur[w] == o;
    assert(orientations(t).subrange(0, cur.len() as int)[w] == o);
    assert(orientations(t)[w] == o);
}

/// Going through the orientations of one shape twice gives the same pieces,
/// cell for cell, in the same order.
pub proof fn lemma_orientations_deterministic(t: Seq<Position>, a: Seq<Piece>, b: Seq<Piece>)
    requires
        shapes(a) == orientations(t),
        shapes(b) == orientations(t),
        forall|k: int| 0 <= k < a.len() ==> (#[trigger] a[k]).wf(),
        forall|k: int| 0 <= k < b.len() ==> (#[trigger] b[k]).wf(),
    ensures
        a.len() == b.len(),
        forall|k: int| 0 <= k < a.len() ==> (#[trigger] a[k]).cells() == b[k].cells(),
{
    assert(shapes(a).len() == a.len());
    assert(shapes(b).len() == b.len());
    assert forall|k: int| 0 <= k < a.len() implies (#[trigger] a[k]).cells() == b[k].cells() by {
        assert(shapes(a)[k] == shapes(b)[k]);
        assert(a[k].wf() && b[k].wf());
        assert forall|q: Position| a[k].cells().contains(q) <==> b[k].cells().contains(q) by {
            assert(a[k].cells().to_set().contains(q) == b[k].cells().to_set().contains(q));
        }
        lemma_sorted_unique(a[k].cells(), b[k].cells());
    }
}

} // verus!
