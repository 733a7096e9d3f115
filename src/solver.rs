//! The region to fill, the supply of shapes, and the backtracking search.

use vstd::prelude::*;
use crate::piece::Piece;
use crate::position::{
    in_grid, lemma_shift_keeps_order, lex_le, offset, origin, shift, Position, Translation,
};
use crate::symmetry::all_symmetries;
use crate::template::{
    all_fit, lemma_orientation_anchored, lemma_orientation_len, lemma_orientation_listed,
    lemma_translate_set_len, lemma_upto_members, least, orientation, orientations, shapes,
    translate_set, Template,
};

verus! {

/// `pieces`, placed one after the other, fill `region` exactly: each lies
/// within what the earlier ones left open, and nothing is left at the end.
pub open spec fn covers(pieces: Seq<Set<Position>>, region: Set<Position>) -> bool
    decreases pieces.len(),
{
    if pieces.len() == 0 {
        region == Set::<Position>::empty()
    } else {
        pieces[0].subset_of(region) && covers(pieces.drop_first(), region.difference(pieces[0]))
    }
}

/// `found` starts with `partial` and goes on with pieces that fill `region`.
pub open spec fn completes(
    found: Seq<Set<Position>>,
    partial: Seq<Set<Position>>,
    region: Set<Position>,
) -> bool {
    &&& partial.len() <= found.len()
    &&& found.subrange(0, partial.len() as int) == partial
    &&& covers(found.subrange(partial.len() as int, found.len() as int), region)
}

/// The sum of a sequence of counts.
pub open spec fn total_of(counts: Seq<usize>) -> nat
    decreases counts.len(),
{
    if counts.len() == 0 {
        0
    } else {
        total_of(counts.drop_last()) + counts.last() as nat
    }
}

/// Lowering one count by one lowers the sum by one.
proof fn lemma_total_decrement(counts: Seq<usize>, i: int)
    requires
        0 <= i < counts.len(),
        counts[i] > 0,
    ensures
        total_of(counts.update(i, (counts[i] - 1) as usize)) + 1 == total_of(counts),
    decreases counts.len(),
{
    let u = counts.update(i, (counts[i] - 1) as usize);
    if i == counts.len() - 1 {
        assert(u.drop_last() =~= counts.drop_last());
    } else {
        lemma_total_decrement(counts.drop_last(), i);
        assert(u.drop_last() =~= counts.drop_last().update(i, (counts[i] - 1) as usize));
    }
}

/// `shape` is an orientation of one of the shapes of `supply`, moved as a whole.
pub open spec fn from_supply(shape: Set<Position>, supply: Seq<Seq<Position>>) -> bool {
    exists|j: int, i: int, t: Translation|
        0 <= j < supply.len() && 0 <= i < 24 && all_fit(orientation(supply[j], all_symmetries()[i]), t)
            && shape == #[trigger] translate_set(orientation(supply[j], all_symmetries()[i]), t)
}

/// `shape` is an orientation of the shape `t`, moved as a whole.
pub open spec fn shape_of(shape: Set<Position>, t: Seq<Position>) -> bool {
    exists|i: int, d: Translation|
        0 <= i < 24 && all_fit(orientation(t, all_symmetries()[i]), d) && shape
            == #[trigger] translate_set(orientation(t, all_symmetries()[i]), d)
}

/// The first of `found` is a copy of template `j`, of which a copy is left,
/// lies within `region`, and covers its least cell.
pub open spec fn first_step(
    region: Set<Position>,
    found: Seq<Set<Position>>,
    supply: Seq<Seq<Position>>,
    counts: Seq<usize>,
    j: int,
) -> bool {
    &&& found.len() > 0
    &&& 0 <= j < supply.len()
    &&& j < counts.len()
    &&& counts[j] > 0
    &&& found[0].subset_of(region)
    &&& exists|m: Position| least(m, region) && #[trigger] found[0].contains(m)
    &&& shape_of(found[0], supply[j])
}

/// `found` is a way the search may fill `region`: each piece is a moved
/// orientation of a template with a copy left, covers the least cell still
/// open, and together they fill the region exactly.
pub open spec fn plan(
    region: Set<Position>,
    found: Seq<Set<Position>>,
    supply: Seq<Seq<Position>>,
    counts: Seq<usize>,
) -> bool
    decreases found.len(),
{
    if found.len() == 0 {
        region == Set::<Position>::empty()
    } else {
        exists|j: int|
            #[trigger] first_step(region, found, supply, counts, j) && plan(
                region.difference(found[0]),
                found.drop_first(),
                supply,
                counts.update(j, (counts[j] - 1) as usize),
            )
    }
}

/// `found` is a plan for `region` whose first piece is a copy of template `j`.
pub open spec fn plan_via(
    region: Set<Position>,
    found: Seq<Set<Position>>,
    supply: Seq<Seq<Position>>,
    counts: Seq<usize>,
    j: int,
) -> bool {
    first_step(region, found, supply, counts, j) && plan(
        region.difference(found[0]),
        found.drop_first(),
        supply,
        counts.update(j, (counts[j] - 1) as usize),
    )
}

/// Some solution from position `from` on is `prefix` followed by `found`.
pub open spec fn reported(
    sols: Seq<Solution>,
    from: int,
    prefix: Seq<Set<Position>>,
    found: Seq<Set<Position>>,
) -> bool {
    exists|k: int| from <= k < sols.len() && #[trigger] sols[k].placed() == prefix + found
}

proof fn lemma_reported_kept(
    a: Seq<Solution>,
    b: Seq<Solution>,
    from: int,
    prefix: Seq<Set<Position>>,
    found: Seq<Set<Position>>,
)
    requires
        0 <= from,
        reported(a, from, prefix, found),
        keeps(a, b),
    ensures
        reported(b, from, prefix, found),
{
    let k = choose|k: int| from <= k < a.len() && #[trigger] a[k].placed() == prefix + found;
    assert(b.subrange(0, a.len() as int)[k] == b[k]);
}

/// The first piece of a plan sits where the search puts the matching
/// orientation: moved so that its least cell lands on the least open cell.
proof fn lemma_first_piece(
    region: Set<Position>,
    f0: Set<Position>,
    t: Seq<Position>,
    open: Position,
)
    requires
        least(open, region),
        f0.subset_of(region),
        f0.contains(open),
        shape_of(f0, t),
        forall|n: int| 0 <= n < t.len() ==> in_grid(#[trigger] t[n]),
    ensures
        t.len() > 0,
        exists|jj: int|
            0 <= jj < orientations(t).len() && f0 == translate_set(
                #[trigger] orientations(t)[jj],
                offset(origin(), open),
            ) && all_fit(orientations(t)[jj], offset(origin(), open)),
{
    let (si, d) = choose|i: int, d: Translation|
        0 <= i < 24 && all_fit(orientation(t, all_symmetries()[i]), d) && f0
            == #[trigger] translate_set(orientation(t, all_symmetries()[i]), d);
    let o = orientation(t, all_symmetries()[si]);
    let p = choose|p: Position| o.contains(p) && open == shift(p, d);
    if t.len() == 0 {
        let r = crate::template::image_set(t, all_symmetries()[si]);
        let q = choose|q: Position| r.contains(q) && p == shift(q, offset(choose|m: Position| least(m, r), origin()));
        let z = choose|z: Position| t.contains(z) && q == all_symmetries()[si].image(z);
    }
    lemma_orientation_anchored(t, all_symmetries()[si]);
    assert(o.contains(origin()));
    assert(f0.contains(shift(origin(), d)));
    lemma_shift_keeps_order(origin(), p, d);
    assert(shift(origin(), d) == open);
    assert(d == offset(origin(), open));
    lemma_orientation_listed(t, si);
    let jj = choose|jj: int| 0 <= jj < orientations(t).len() && orientations(t)[jj] == o;
    assert(f0 == translate_set(orientations(t)[jj], offset(origin(), open)));
}

/// What the search knows of a plan whose first piece is the `jj`-th
/// orientation of template `i`, moved onto the least open cell.
proof fn lemma_match(
    region: Set<Position>,
    f: Seq<Set<Position>>,
    supply: Seq<Seq<Position>>,
    counts: Seq<usize>,
    i: int,
    jj: int,
    open: Position,
)
    requires
        plan_via(region, f, supply, counts, i),
        least(open, region),
        0 <= jj < orientations(supply[i]).len(),
        f[0] == translate_set(orientations(supply[i])[jj], offset(origin(), open)),
        forall|n: int| 0 <= n < supply[i].len() ==> in_grid(#[trigger] supply[i][n]),
    ensures
        f[0].subset_of(region),
        f[0].contains(open),
        least(origin(), orientations(supply[i])[jj]),
{
    let m = choose|m: Position| least(m, region) && #[trigger] f[0].contains(m);
    assert(m == open);
    lemma_first_piece(region, f[0], supply[i], open);
    lemma_upto_members(supply[i], 24, jj);
    let si = choose|si: int|
        0 <= si < 24 && orientations(supply[i])[jj] == orientation(
            supply[i],
            #[trigger] all_symmetries()[si],
        );
    lemma_orientation_anchored(supply[i], all_symmetries()[si]);
}

/// Region to be packed: the cells not yet filled.
#[derive(Debug)]
pub struct Target {
    collection: Vec<Position>,
}

/// A (partial) solution: the pieces placed so far, in the order placed.
#[derive(Debug)]
pub struct Solution {
    pieces: Vec<Piece>,
}

/// The supply of shapes: each template with the number of copies left.
#[derive(Debug)]
pub struct Bag {
    counts: Vec<usize>,
    templates: Vec<Template>,
}

impl Target {
    /// The open cells.
    pub closed spec fn cells(&self) -> Set<Position> {
        self.collection@.to_set()
    }

    /// A region of the given cells.
    pub fn new(collection: Vec<Position>) -> (r: Target)
        ensures
            r.cells() == collection@.to_set(),
    {
        Target { collection }
    }

    /// Whether no cell is left open.
    pub fn is_packed(&self) -> (r: bool)
        ensures
            r == (self.cells() == Set::<Position>::empty()),
    {
        proof {
            if self.collection@.len() > 0 {
                assert(self.cells().contains(self.collection@[0]));
            } else {
                assert(self.cells() =~= Set::<Position>::empty());
            }
        }
        self.collection.len() == 0
    }

    /// Whether every cell of `piece` is open.
    pub fn fits(&self, piece: &Piece) -> (r: bool)
        ensures
            r == piece.cells().to_set().subset_of(self.cells()),
    {
        let mut walk = piece.iter();
        let ghost all = piece.cells();
        let ghost mut seen: nat = 0;
        loop
            invariant
                seen <= all.len(),
                all == piece.cells(),
                walk.rest() == all.subrange(seen as int, all.len() as int),
                forall|k: int| 0 <= k < seen ==> self.cells().contains(#[trigger] all[k]),
            decreases all.len() - seen,
        {
            match walk.next() {
                None => {
                    proof {
                        assert forall|q: Position| piece.cells().to_set().contains(q) implies self.cells().contains(q) by {
                            assert(all.contains(q));
                            let k = choose|k: int| 0 <= k < all.len() && all[k] == q;
                        }
                    }
                    return true;
                },
                Some(p) => {
                    proof {
                        assert(p == all[seen as int]);
                    }
                    if !self.has(&p) {
                        proof {
                            assert(all[seen as int] == p);
                            assert(all.contains(p));
                            assert(piece.cells().to_set().contains(p));
                        }
                        return false;
                    }
                    proof {
                        seen = seen + 1;
                        assert(walk.rest() =~= all.subrange(seen as int, all.len() as int));
                    }
                },
            }
        }
    }

    /// Whether `position` is open.
    fn has(&self, position: &Position) -> (r: bool)
        ensures
            r == self.cells().contains(*position),
    {
        let mut i: usize = 0;
        while i < self.collection.len()
            invariant
                0 <= i <= self.collection@.len(),
                forall|k: int| 0 <= k < i ==> self.collection@[k] != *position,
            decreases self.collection@.len() - i,
        {
            if self.collection[i] == *position {
                proof {
                    assert(self.collection@[i as int] == *position);
                }
                return true;
            }
            i = i + 1;
        }
        false
    }

    /// The region left once `piece` is placed: its cells are no longer open.
    /// Placing a piece that does not fit removes only the cells it shares with
    /// the region.
    pub fn place(&self, piece: &Piece) -> (r: Target)
        ensures
            r.cells() == self.cells().difference(piece.cells().to_set()),
    {
        let mut collection: Vec<Position> = Vec::new();
        let mut i: usize = 0;
        while i < self.collection.len()
            invariant
                0 <= i <= self.collection@.len(),
                forall|q: Position| collection@.contains(q) <==> (self.collection@.subrange(0, i as int).contains(q) && !piece.cells().contains(q)),
            decreases self.collection@.len() - i,
        {
            let p = self.collection[i];
            let ghost before = collection@;
            let ghost done = self.collection@.subrange(0, i as int);
            let ghost next = self.collection@.subrange(0, i + 1);
            proof {
                assert(next =~= done.push(p));
            }
            if !piece.contains(&p) {
                collection.push(p);
                proof {
                    assert forall|q: Position| collection@.contains(q) <==> (next.contains(q) && !piece.cells().contains(q)) by {
                        if collection@.contains(q) && q != p {
                            let k = choose|k: int| 0 <= k < collection@.len() && collection@[k] == q;
                            assert(before[k] == q);
                            assert(before.contains(q));
                            assert(done.contains(q));
                            let j = choose|j: int| 0 <= j < done.len() && done[j] == q;
                            assert(next[j] == q);
                        }
                        if next.contains(q) && q != p {
                            let j = choose|j: int| 0 <= j < next.len() && next[j] == q;
                            assert(done[j] == q);
                            if !piece.cells().contains(q) {
                                let k = choose|k: int| 0 <= k < before.len() && before[k] == q;
                                assert(collection@[k] == q);
                            }
                        }
                        if q == p {
                            assert(collection@[before.len() as int] == q);
                            assert(next[i as int] == q);
                        }
                    }
                }
            } else {
                proof {
                    assert forall|q: Position| collection@.contains(q) <==> (next.contains(q) && !piece.cells().contains(q)) by {
                        if collection@.contains(q) {
                            assert(done.contains(q));
                            let j = choose|j: int| 0 <= j < done.len() && done[j] == q;
                            assert(next[j] == q);
                        }
                        if next.contains(q) && q != p {
                            let j = choose|j: int| 0 <= j < next.len() && next[j] == q;
                            assert(done[j] == q);
                        }
                    }
                }
            }
            i = i + 1;
        }
        proof {
            assert(self.collection@.subrange(0, self.collection@.len() as int) =~= self.collection@);
        }
        let r = Target { collection };
        proof {
            assert(r.cells() =~= self.cells().difference(piece.cells().to_set()));
        }
        r
    }

    /// The least open cell, or `None` when none is left.
    pub fn minimum_position(&self) -> (r: Option<Position>)
        ensures
            r is None <==> self.cells() == Set::<Position>::empty(),
            r matches Some(m) ==> least(m, self.cells()),
    {
        if self.collection.len() == 0 {
            proof {
                assert(self.cells() =~= Set::<Position>::empty());
            }
            return None;
        }
        let mut m = self.collection[0];
        let mut i: usize = 1;
        proof {
            assert(self.collection@.subrange(0, 1)[0] == m);
        }
        while i < self.collection.len()
            invariant
                1 <= i <= self.collection@.len(),
                self.collection@.subrange(0, i as int).contains(m),
                forall|k: int| 0 <= k < i ==> lex_le(m, #[trigger] self.collection@[k]),
            decreases self.collection@.len() - i,
        {
            let p = self.collection[i];
            proof {
                assert(self.collection@.subrange(0, i + 1)[i as int] == p);
                let j = choose|j: int| 0 <= j < i && self.collection@.subrange(0, i as int)[j] == m;
                assert(self.collection@.subrange(0, i + 1)[j] == m);
            }
            if p.precedes(&m) {
                m = p;
            }
            i = i + 1;
        }
        proof {
            assert(self.collection@.subrange(0, self.collection@.len() as int) =~= self.collection@);
            assert(self.cells().contains(m));
            assert(self.cells().contains(self.collection@[0]));
        }
        Some(m)
    }
}

impl Solution {
    /// The shapes of the pieces placed, in the order placed.
    pub closed spec fn placed(&self) -> Seq<Set<Position>> {
        shapes(self.pieces@)
    }

    /// The pieces placed, in the order placed.
    pub closed spec fn pieces(&self) -> Seq<Piece> {
        self.pieces@
    }

    /// The number of pieces placed.
    pub fn count(&self) -> (r: usize)
        ensures
            r == self.pieces().len(),
    {
        self.pieces.len()
    }

    /// The piece placed `i`-th.
    pub fn piece(&self, i: usize) -> (r: &Piece)
        requires
            i < self.pieces().len(),
        ensures
            *r == self.pieces()[i as int],
    {
        &self.pieces[i]
    }

    /// A solution without pieces.
    pub fn empty() -> (r: Solution)
        ensures
            r.placed() == Seq::<Set<Position>>::empty(),
            r.pieces().len() == 0,
    {
        let r = Solution { pieces: Vec::new() };
        proof {
            assert(r.placed() =~= Seq::<Set<Position>>::empty());
        }
        r
    }

    /// A new solution: this one with `piece` placed last.
    pub fn record(&self, piece: &Piece) -> (r: Solution)
        ensures
            r.placed() == self.placed().push(piece.cells().to_set()),
            r.pieces().len() == self.pieces().len() + 1,
            forall|k: int| 0 <= k < self.pieces().len() ==> #[trigger] r.pieces()[k].cells() == self.pieces()[k].cells()
                && r.pieces()[k].label() == self.pieces()[k].label(),
            r.pieces()[self.pieces().len() as int].cells() == piece.cells(),
            r.pieces()[self.pieces().len() as int].label() == piece.label(),
    {
        let mut pieces: Vec<Piece> = Vec::new();
        let mut i: usize = 0;
        while i < self.pieces.len()
            invariant
                0 <= i <= self.pieces@.len(),
                pieces@.len() == i,
                forall|k: int| 0 <= k < i ==> #[trigger] pieces@[k].cells() == self.pieces@[k].cells()
                    && pieces@[k].label() == self.pieces@[k].label(),
            decreases self.pieces@.len() - i,
        {
            pieces.push(self.pieces[i].duplicate());
            i = i + 1;
        }
        pieces.push(piece.duplicate());
        let r = Solution { pieces };
        proof {
            assert(r.placed() =~= self.placed().push(piece.cells().to_set()));
        }
        r
    }
}

impl Bag {
    /// The number of copies left of each template.
    pub closed spec fn counts(&self) -> Seq<usize> {
        self.counts@
    }

    /// The templates, in the order given.
    pub closed spec fn templates(&self) -> Seq<Template> {
        self.templates@
    }

    /// The shapes of the templates, in the order given.
    pub open spec fn shapes(&self) -> Seq<Seq<Position>> {
        self.templates().map_values(|t: Template| t.shape())
    }

    /// How many pieces the supply can still hand out.
    pub open spec fn total(&self) -> nat {
        total_of(self.counts())
    }

    /// One count per template, and every template within the grid bounds.
    pub open spec fn wf(&self) -> bool {
        &&& self.counts().len() == self.templates().len()
        &&& forall|i: int| 0 <= i < self.templates().len() ==> (#[trigger] self.templates()[i]).wf()
    }

    /// A supply of `count` copies of each template.
    pub fn new(entries: Vec<(usize, Template)>) -> (r: Bag)
        ensures
            r.counts() == entries@.map_values(|e: (usize, Template)| e.0),
            r.templates() == entries@.map_values(|e: (usize, Template)| e.1),
    {
        let mut entries = entries;
        let ghost given = entries@;
        let mut counts: Vec<usize> = Vec::new();
        let mut templates: Vec<Template> = Vec::new();
        let mut rest: Vec<(usize, Template)> = Vec::new();
        while entries.len() > 0
            invariant
                entries@.len() + rest@.len() == given.len(),
                forall|k: int| 0 <= k < entries@.len() ==> #[trigger] entries@[k] == given[k],
                forall|k: int| 0 <= k < rest@.len() ==> #[trigger] rest@[k] == given[given.len() - 1 - k],
            decreases entries@.len(),
        {
            let e = entries.pop();
            match e {
                Some(x) => rest.push(x),
                None => {},
            }
        }
        while rest.len() > 0
            invariant
                counts@.len() == templates@.len(),
                given.len() == counts@.len() + rest@.len(),
                forall|k: int| 0 <= k < counts@.len() ==> #[trigger] counts@[k] == given[k].0,
                forall|k: int| 0 <= k < templates@.len() ==> #[trigger] templates@[k] == given[k].1,
                forall|k: int| 0 <= k < rest@.len() ==> #[trigger] rest@[k] == given[given.len() - 1 - k],
            decreases rest@.len(),
        {
            let e = rest.pop();
            match e {
                Some(x) => {
                    counts.push(x.0);
                    templates.push(x.1);
                },
                None => {},
            }
        }
        let r = Bag { counts, templates };
        proof {
            assert(r.counts() =~= given.map_values(|e: (usize, Template)| e.0));
            assert(r.templates() =~= given.map_values(|e: (usize, Template)| e.1));
        }
        r
    }

    /// The supply once one copy of template `i` was handed out.
    fn take(&self, i: usize) -> (r: Bag)
        requires
            self.wf(),
            i < self.counts().len(),
            self.counts()[i as int] > 0,
        ensures
            r.wf(),
            r.counts() == self.counts().update(i as int, (self.counts()[i as int] - 1) as usize),
            r.templates().len() == self.templates().len(),
            forall|k: int| 0 <= k < r.templates().len() ==> #[trigger] r.templates()[k].shape() == self.templates()[k].shape(),
            r.shapes() == self.shapes(),
            r.total() + 1 == self.total(),
    {
        let mut counts: Vec<usize> = Vec::new();
        let mut templates: Vec<Template> = Vec::new();
        let mut k: usize = 0;
        while k < self.counts.len()
            invariant
                0 <= k <= self.counts@.len(),
                self.wf(),
                i < self.counts@.len(),
                self.counts@[i as int] > 0,
                counts@.len() == k,
                templates@.len() == k,
                forall|j: int| 0 <= j < k ==> #[trigger] counts@[j] == self.counts@.update(i as int, (self.counts@[i as int] - 1) as usize)[j],
                forall|j: int| 0 <= j < k ==> (#[trigger] templates@[j]).shape() == self.templates@[j].shape(),
            decreases self.counts@.len() - k,
        {
            if k == i {
                counts.push(self.counts[k] - 1);
            } else {
                counts.push(self.counts[k]);
            }
            templates.push(self.templates[k].duplicate());
            k = k + 1;
        }
        let r = Bag { counts, templates };
        proof {
            assert(r.counts() =~= self.counts().update(i as int, (self.counts()[i as int] - 1) as usize));
            assert(r.shapes() =~= self.shapes());
            lemma_total_decrement(self.counts(), i as int);
            assert forall|j: int| 0 <= j < r.templates().len() implies (#[trigger] r.templates()[j]).wf() by {
                assert(self.templates()[j].wf());
            }
        }
        r
    }
}

/// A solution that completes `partial` with `shape` placed next, on what
/// `shape` leaves of `region`, completes `partial` on `region`.
proof fn lemma_completes_step(
    found: Seq<Set<Position>>,
    partial: Seq<Set<Position>>,
    shape: Set<Position>,
    region: Set<Position>,
)
    requires
        shape.subset_of(region),
        completes(found, partial.push(shape), region.difference(shape)),
    ensures
        completes(found, partial, region),
{
    let n = partial.len() as int;
    assert(found.subrange(0, n + 1)[n] == shape);
    assert(found.subrange(0, n) =~= found.subrange(0, n + 1).subrange(0, n));
    assert(found.subrange(0, n + 1).subrange(0, n) =~= partial.push(shape).subrange(0, n));
    assert(partial.push(shape).subrange(0, n) =~= partial);
    let tail = found.subrange(n, found.len() as int);
    assert(tail[0] == shape);
    assert(tail.drop_first() =~= found.subrange(n + 1, found.len() as int));
}

/// Appending to `after` keeps every earlier solution of `before`.
pub open spec fn keeps(before: Seq<Solution>, after: Seq<Solution>) -> bool {
    before.len() <= after.len() && after.subrange(0, before.len() as int) == before
}

/// `after` is `before` followed by solutions, each a sequence of pieces from
/// `supply` that fills `region` exactly.
pub open spec fn reports_tilings(
    before: Seq<Solution>,
    after: Seq<Solution>,
    region: Set<Position>,
    supply: Seq<Seq<Position>>,
) -> bool {
    &&& keeps(before, after)
    &&& forall|k: int| before.len() <= k < after.len() ==> covers(#[trigger] after[k].placed(), region)
    &&& forall|k: int, i: int|
        before.len() <= k < after.len() && 0 <= i < after[k].placed().len() ==> from_supply(
            #[trigger] after[k].placed()[i],
            supply,
        )
}

/// Fills `target` with pieces from `bag` in every possible way, and appends
/// each complete solution to `solutions`.
pub fn solve(target: &Target, bag: Bag, solutions: &mut Vec<Solution>)
    requires
        bag.wf(),
    ensures
        reports_tilings(old(solutions)@, final(solutions)@, target.cells(), bag.shapes()),
        forall|found: Seq<Set<Position>>|
            #[trigger] plan(target.cells(), found, bag.shapes(), bag.counts()) ==> exists|k: int|
                old(solutions)@.len() <= k < final(solutions)@.len()
                    && #[trigger] final(solutions)@[k].placed() == found,
        target.cells() == Set::<Position>::empty() ==> final(solutions)@.len() == old(
            solutions,
        )@.len() + 1 && final(solutions)@[old(solutions)@.len() as int].placed() == Seq::<
            Set<Position>,
        >::empty(),
{
    let ghost supply = bag.shapes();
    let partial = Solution::empty();
    let ghost empty_len = partial.placed().len();
    let ghost empty_shapes = partial.placed();
    let ghost counts = bag.counts();
    solve_with(target, bag, partial, solutions);
    proof {
        assert forall|k: int|
            old(solutions)@.len() <= k < solutions@.len() implies covers(
            #[trigger] solutions@[k].placed(),
            target.cells(),
        ) by {
            let found = solutions@[k].placed();
            assert(completes(found, Seq::<Set<Position>>::empty(), target.cells()));
            assert(found.subrange(0, found.len() as int) =~= found);
        }
        assert forall|k: int, i: int|
            old(solutions)@.len() <= k < solutions@.len() && 0 <= i < solutions@[k].placed().len()
                implies from_supply(#[trigger] solutions@[k].placed()[i], supply) by {
            assert(empty_len == 0);
        }
        assert forall|found: Seq<Set<Position>>|
            #[trigger] plan(target.cells(), found, supply, counts) implies exists|k: int|
                old(solutions)@.len() <= k < solutions@.len() && #[trigger] solutions@[k].placed() == found by {
            assert(reported(solutions@, old(solutions)@.len() as int, empty_shapes, found));
            assert(empty_shapes + found =~= found);
        }
    }
}

/// Variant of `solve` that starts from `partial`: every solution appended to
/// `solutions` is `partial` followed by pieces that fill `target`.
pub fn solve_with(target: &Target, bag: Bag, partial: Solution, solutions: &mut Vec<Solution>)
    requires
        bag.wf(),
    ensures
        keeps(old(solutions)@, final(solutions)@),
        forall|k: int|
            old(solutions)@.len() <= k < final(solutions)@.len() ==> completes(
                #[trigger] final(solutions)@[k].placed(),
                partial.placed(),
                target.cells(),
            ),
        forall|k: int, i: int|
            old(solutions)@.len() <= k < final(solutions)@.len() && partial.placed().len() <= i
                < final(solutions)@[k].placed().len() ==> from_supply(
                #[trigger] final(solutions)@[k].placed()[i],
                bag.shapes(),
            ),
        forall|found: Seq<Set<Position>>|
            #[trigger] plan(target.cells(), found, bag.shapes(), bag.counts()) ==> reported(
                final(solutions)@,
                old(solutions)@.len() as int,
                partial.placed(),
                found,
            ),
        target.cells() == Set::<Position>::empty() ==> final(solutions)@ == old(solutions)@.push(
            partial,
        ),
    decreases bag.total(),
{
    let ghost start = solutions@;
    if target.is_packed() {
        let ghost shapes_so_far = partial.placed();
        solutions.push(partial);
        proof {
            assert(solutions@.subrange(0, start.len() as int) =~= start);
            let found = solutions@[start.len() as int].placed();
            assert(found == shapes_so_far);
            assert(found.subrange(0, found.len() as int) =~= found);
            assert(found.subrange(found.len() as int, found.len() as int) =~= Seq::<
                Set<Position>,
            >::empty());
            assert forall|f: Seq<Set<Position>>|
                #[trigger] plan(target.cells(), f, bag.shapes(), bag.counts()) implies reported(
                solutions@,
                start.len() as int,
                shapes_so_far,
                f,
            ) by {
                if f.len() > 0 {
                    let j = choose|j: int| #[trigger] first_step(target.cells(), f, bag.shapes(), bag.counts(), j) && plan(
                        target.cells().difference(f[0]),
                        f.drop_first(),
                        bag.shapes(),
                        bag.counts().update(j, (bag.counts()[j] - 1) as usize),
                    );
                    let m = choose|m: Position| least(m, target.cells()) && #[trigger] f[0].contains(m);
                    assert(target.cells().contains(m));
                }
                assert(shapes_so_far + f =~= shapes_so_far);
                assert(solutions@[start.len() as int].placed() == shapes_so_far + f);
            }
        }
        return ;
    }
    let open = match target.minimum_position() {
        Some(m) => m,
        None => {
            proof {
                assert(solutions@.subrange(0, start.len() as int) =~= start);
            }
            return ;
        },
    };
    let mut i: usize = 0;
    proof {
        assert(solutions@.subrange(0, start.len() as int) =~= start);
    }
    while i < bag.counts.len()
        invariant
            bag.wf(),
            start == old(solutions)@,
            target.cells() != Set::<Position>::empty(),
            keeps(start, solutions@),
            forall|k: int|
                start.len() <= k < solutions@.len() ==> completes(
                    #[trigger] solutions@[k].placed(),
                    partial.placed(),
                    target.cells(),
                ),
            forall|k: int, n: int|
                start.len() <= k < solutions@.len() && partial.placed().len() <= n
                    < solutions@[k].placed().len() ==> from_supply(
                    #[trigger] solutions@[k].placed()[n],
                    bag.shapes(),
                ),
            least(open, target.cells()),
            i <= bag.counts@.len(),
            forall|f: Seq<Set<Position>>, jb: int|
                0 <= jb < i && #[trigger] plan_via(target.cells(), f, bag.shapes(), bag.counts(), jb)
                    ==> reported(solutions@, start.len() as int, partial.placed(), f),
        decreases bag.counts@.len() - i,
    {
        if bag.counts[i] > 0 {
            let pieces = bag.templates[i].orientations();
            proof {
                assert(bag.shapes()[i as int] == bag.templates()[i as int].shape());
            }
            let mut j: usize = 0;
            while j < pieces.len()
                invariant
                    bag.wf(),
                    i < bag.counts@.len(),
                    bag.counts@[i as int] > 0,
                    start == old(solutions)@,
                    target.cells() != Set::<Position>::empty(),
                    forall|k: int| 0 <= k < pieces@.len() ==> (#[trigger] pieces@[k]).wf(),
                    keeps(start, solutions@),
                    forall|k: int|
                        start.len() <= k < solutions@.len() ==> completes(
                            #[trigger] solutions@[k].placed(),
                            partial.placed(),
                            target.cells(),
                        ),
                    forall|k: int, n: int|
                        start.len() <= k < solutions@.len() && partial.placed().len() <= n
                            < solutions@[k].placed().len() ==> from_supply(
                            #[trigger] solutions@[k].placed()[n],
                            bag.shapes(),
                        ),
                    shapes(pieces@) == orientations(bag.shapes()[i as int]),
                    least(open, target.cells()),
                    j <= pieces@.len(),
                    forall|f: Seq<Set<Position>>, jb: int|
                        0 <= jb < i && #[trigger] plan_via(target.cells(), f, bag.shapes(), bag.counts(), jb)
                            ==> reported(solutions@, start.len() as int, partial.placed(), f),
                    forall|f: Seq<Set<Position>>, jj: int|
                        0 <= jj < j && #[trigger] plan_via(target.cells(), f, bag.shapes(), bag.counts(), i as int)
                            && f[0] == translate_set(#[trigger] shapes(pieces@)[jj], offset(origin(), open))
                            && all_fit(shapes(pieces@)[jj], offset(origin(), open))
                            ==> reported(solutions@, start.len() as int, partial.placed(), f),
                decreases pieces@.len() - j,
            {
                let piece = &pieces[j];
                if let Some(anchor) = piece.minimum_position() {
                    let shift_to_open = anchor.to(&open);
                    if let Some(moved) = piece.translated(&shift_to_open) {
                        proof {
                            let pc = piece.cells();
                            assert forall|q: Position| moved.cells().to_set().contains(q) <==> translate_set(pc.to_set(), shift_to_open).contains(q) by {
                                if moved.cells().contains(q) {
                                    let w = choose|w: int| 0 <= w < moved.cells().len() && moved.cells()[w] == q;
                                    assert(pc.contains(pc[w]));
                                }
                                if translate_set(pc.to_set(), shift_to_open).contains(q) {
                                    let p = choose|p: Position| pc.to_set().contains(p) && q == shift(p, shift_to_open);
                                    let w = choose|w: int| 0 <= w < pc.len() && pc[w] == p;
                                    assert(moved.cells()[w] == q);
                                }
                            }
                            assert(moved.cells().to_set() =~= translate_set(pc.to_set(), shift_to_open));
                        }
                        if target.fits(&moved) {
                            let remaining = target.place(&moved);
                            let candidate = partial.record(&moved);
                            let rest = bag.take(i);
                            let ghost mid = solutions@;
                            let ghost candidate_shapes = candidate.placed();
                            let ghost remaining_cells = remaining.cells();
                            let ghost rest_shapes = rest.shapes();
                            let ghost rest_counts = rest.counts();
                            solve_with(&remaining, rest, candidate, solutions);
                            proof {
                                assert forall|f: Seq<Set<Position>>, jb: int|
                                    0 <= jb < i && #[trigger] plan_via(target.cells(), f, bag.shapes(), bag.counts(), jb)
                                    implies reported(solutions@, start.len() as int, partial.placed(), f) by {
                                    lemma_reported_kept(mid, solutions@, start.len() as int, partial.placed(), f);
                                }
                                assert forall|f: Seq<Set<Position>>, jj: int|
                                    0 <= jj < j + 1 && #[trigger] plan_via(target.cells(), f, bag.shapes(), bag.counts(), i as int)
                                        && f[0] == translate_set(#[trigger] shapes(pieces@)[jj], offset(origin(), open))
                                        && all_fit(shapes(pieces@)[jj], offset(origin(), open))
                                    implies reported(solutions@, start.len() as int, partial.placed(), f) by {
                                    if jj < j {
                                        lemma_reported_kept(mid, solutions@, start.len() as int, partial.placed(), f);
                                    } else {
                                        lemma_match(target.cells(), f, bag.shapes(), bag.counts(), i as int, jj, open);
                                        assert(shapes(pieces@)[jj] == piece.cells().to_set());
                                        assert(piece.cells().to_set().contains(origin()));
                                        assert(piece.cells().contains(anchor));
                                        assert(lex_le(anchor, origin()));
                                        assert(piece.cells().to_set().contains(anchor));
                                        assert(anchor == origin());
                                        assert(shift_to_open == offset(origin(), open));
                                        assert(moved.cells().to_set() == f[0]);
                                        let f1 = f.drop_first();
                                        assert(plan(remaining_cells, f1, rest_shapes, rest_counts));
                                        assert(reported(solutions@, mid.len() as int, candidate_shapes, f1));
                                        let k = choose|k: int| mid.len() <= k < solutions@.len() && #[trigger] solutions@[k].placed() == candidate_shapes + f1;
                                        assert(candidate_shapes + f1 =~= partial.placed() + f);
                                        assert(solutions@[k].placed() == partial.placed() + f);
                                    }
                                }

                                let shape = moved.cells().to_set();
                                assert(solutions@.subrange(0, start.len() as int) =~= solutions@.subrange(0, mid.len() as int).subrange(0, start.len() as int));
                                assert forall|k: int|
                                    start.len() <= k < solutions@.len() implies completes(
                                    #[trigger] solutions@[k].placed(),
                                    partial.placed(),
                                    target.cells(),
                                ) by {
                                    if k < mid.len() {
                                        assert(solutions@[k] == solutions@.subrange(0, mid.len() as int)[k]);
                                        assert(solutions@[k] == mid[k]);
                                    } else {
                                        lemma_completes_step(
                                            solutions@[k].placed(),
                                            partial.placed(),
                                            shape,
                                            target.cells(),
                                        );
                                    }
                                }
                                let tpl = bag.shapes()[i as int];
                                lemma_upto_members(tpl, 24, j as int);
                                let si = choose|si: int| 0 <= si < 24 && orientations(tpl)[j as int] == orientation(tpl, #[trigger] all_symmetries()[si]);
                                let o = orientation(tpl, all_symmetries()[si]);
                                assert(shapes(pieces@)[j as int] == piece.cells().to_set());
                                assert(piece.cells().to_set() == o);
                                assert(all_fit(o, shift_to_open)) by {
                                    assert forall|p: Position| o.contains(p) implies crate::position::shift_fits(p, shift_to_open) by {
                                        assert(piece.cells().contains(p));
                                        let w = choose|w: int| 0 <= w < piece.cells().len() && piece.cells()[w] == p;
                                        assert(crate::position::shift_fits(piece.cells()[w], shift_to_open));
                                    }
                                }
                                assert forall|q: Position| shape.contains(q) <==> translate_set(o, shift_to_open).contains(q) by {
                                    if shape.contains(q) {
                                        let w = choose|w: int| 0 <= w < moved.cells().len() && moved.cells()[w] == q;
                                        assert(piece.cells().contains(piece.cells()[w]));
                                    }
                                    if translate_set(o, shift_to_open).contains(q) {
                                        let p = choose|p: Position| o.contains(p) && q == crate::position::shift(p, shift_to_open);
                                        assert(piece.cells().contains(p));
                                        let w = choose|w: int| 0 <= w < piece.cells().len() && piece.cells()[w] == p;
                                        assert(moved.cells()[w] == q);
                                    }
                                }
                                assert(shape =~= translate_set(o, shift_to_open));
                                assert(from_supply(shape, bag.shapes()));
                                assert forall|k: int, n: int|
                                    start.len() <= k < solutions@.len() && partial.placed().len() <= n
                                        < solutions@[k].placed().len() implies from_supply(
                                        #[trigger] solutions@[k].placed()[n],
                                        bag.shapes(),
                                    ) by {
                                    if k < mid.len() {
                                        assert(solutions@[k] == solutions@.subrange(0, mid.len() as int)[k]);
                                        assert(solutions@[k] == mid[k]);
                                    } else {
                                        let found = solutions@[k].placed();
                                        let pl = partial.placed().len() as int;
                                        assert(completes(found, candidate_shapes, remaining_cells));
                                        if n == pl {
                                            assert(found.subrange(0, pl + 1)[pl] == found[n]);
                                            assert(candidate_shapes[pl] == shape);
                                        }
                                    }
                                }
                            }
                        } else {
                            proof {
                                assert forall|f: Seq<Set<Position>>, jj: int|
                                    0 <= jj < j + 1 && #[trigger] plan_via(target.cells(), f, bag.shapes(), bag.counts(), i as int)
                                        && f[0] == translate_set(#[trigger] shapes(pieces@)[jj], offset(origin(), open))
                                        && all_fit(shapes(pieces@)[jj], offset(origin(), open))
                                    implies reported(solutions@, start.len() as int, partial.placed(), f) by {
                                    if jj == j {
                                        lemma_match(target.cells(), f, bag.shapes(), bag.counts(), i as int, jj, open);
                                        assert(shapes(pieces@)[jj] == piece.cells().to_set());
                                        assert(piece.cells().to_set().contains(origin()));
                                        assert(piece.cells().contains(anchor));
                                        assert(lex_le(anchor, origin()));
                                        assert(piece.cells().to_set().contains(anchor));
                                        assert(anchor == origin());
                                        assert(shift_to_open == offset(origin(), open));
                                        assert(moved.cells().to_set() == f[0]);
                                    }
                                }
                            }
                        }
                    } else {
                        proof {
                                assert forall|f: Seq<Set<Position>>, jj: int|
                                    0 <= jj < j + 1 && #[trigger] plan_via(target.cells(), f, bag.shapes(), bag.counts(), i as int)
                                        && f[0] == translate_set(#[trigger] shapes(pieces@)[jj], offset(origin(), open))
                                        && all_fit(shapes(pieces@)[jj], offset(origin(), open))
                                    implies reported(solutions@, start.len() as int, partial.placed(), f) by {
                                    if jj == j {
                                        lemma_match(target.cells(), f, bag.shapes(), bag.counts(), i as int, jj, open);
                                        assert(shapes(pieces@)[jj] == piece.cells().to_set());
                                        assert(piece.cells().to_set().contains(origin()));
                                        assert(piece.cells().contains(anchor));
                                        assert(lex_le(anchor, origin()));
                                        assert(piece.cells().to_set().contains(anchor));
                                        assert(anchor == origin());
                                        assert(shift_to_open == offset(origin(), open));
                                        assert forall|w: int| 0 <= w < piece.cells().len() implies crate::position::shift_fits(#[trigger] piece.cells()[w], shift_to_open) by {
                                            assert(piece.cells().to_set().contains(piece.cells()[w]));
                                        }
                                    }
                                }
                        }
                    }
                } else {
                    proof {
                                assert forall|f: Seq<Set<Position>>, jj: int|
                                    0 <= jj < j + 1 && #[trigger] plan_via(target.cells(), f, bag.shapes(), bag.counts(), i as int)
                                        && f[0] == translate_set(#[trigger] shapes(pieces@)[jj], offset(origin(), open))
                                        && all_fit(shapes(pieces@)[jj], offset(origin(), open))
                                    implies reported(solutions@, start.len() as int, partial.placed(), f) by {
                                    if jj == j {
                                        lemma_match(target.cells(), f, bag.shapes(), bag.counts(), i as int, jj, open);
                                        assert(shapes(pieces@)[jj] == piece.cells().to_set());
                                        assert(piece.cells().to_set().contains(origin()));
                                    }
                                }
                    }
                }
                j = j + 1;
            }
            proof {
                assert forall|f: Seq<Set<Position>>, jb: int|
                    0 <= jb < i + 1 && #[trigger] plan_via(target.cells(), f, bag.shapes(), bag.counts(), jb)
                    implies reported(solutions@, start.len() as int, partial.placed(), f) by {
                    if jb == i {
                        let t = bag.shapes()[i as int];
                        assert(t == bag.templates()[i as int].shape());
                        assert(bag.templates()[i as int].wf());
                        let m = choose|m: Position| least(m, target.cells()) && #[trigger] f[0].contains(m);
                        assert(m == open);
                        lemma_first_piece(target.cells(), f[0], t, open);
                        let jj = choose|jj: int|
                            0 <= jj < orientations(t).len() && f[0] == translate_set(
                                #[trigger] orientations(t)[jj],
                                offset(origin(), open),
                            ) && all_fit(orientations(t)[jj], offset(origin(), open));
                        assert(shapes(pieces@)[jj] == orientations(t)[jj]);
                    }
                }
            }
        } else {
            proof {
                assert forall|f: Seq<Set<Position>>, jb: int|
                    0 <= jb < i + 1 && #[trigger] plan_via(target.cells(), f, bag.shapes(), bag.counts(), jb)
                    implies reported(solutions@, start.len() as int, partial.placed(), f) by {
                }
            }
        }
        i = i + 1;
    }
    proof {
        assert forall|f: Seq<Set<Position>>|
            #[trigger] plan(target.cells(), f, bag.shapes(), bag.counts()) implies reported(
            solutions@,
            start.len() as int,
            partial.placed(),
            f,
        ) by {
            if f.len() == 0 {
                assert(false);
            }
            let jb = choose|jb: int| #[trigger] first_step(target.cells(), f, bag.shapes(), bag.counts(), jb) && plan(
                target.cells().difference(f[0]),
                f.drop_first(),
                bag.shapes(),
                bag.counts().update(jb, (bag.counts()[jb] - 1) as usize),
            );
            assert(plan_via(target.cells(), f, bag.shapes(), bag.counts(), jb));
        }
    }
}

/// What is left of `region` once `pieces` are placed one after the other.
pub open spec fn left_after(region: Set<Position>, pieces: Seq<Set<Position>>) -> Set<Position>
    decreases pieces.len(),
{
    if pieces.len() == 0 {
        region
    } else {
        left_after(region.difference(pieces[0]), pieces.drop_first())
    }
}

/// Each piece fits in what the earlier ones left of `region`.
pub open spec fn fits_in_turn(region: Set<Position>, pieces: Seq<Set<Position>>) -> bool
    decreases pieces.len(),
{
    if pieces.len() == 0 {
        true
    } else {
        pieces[0].subset_of(region) && fits_in_turn(
            region.difference(pieces[0]),
            pieces.drop_first(),
        )
    }
}

/// The number of cells of all pieces together, counted piece by piece.
pub open spec fn total_size(pieces: Seq<Set<Position>>) -> int
    decreases pieces.len(),
{
    if pieces.len() == 0 {
        0
    } else {
        pieces[0].len() + total_size(pieces.drop_first())
    }
}

/// The cells of all pieces together.
pub open spec fn union_of(pieces: Seq<Set<Position>>) -> Set<Position>
    decreases pieces.len(),
{
    if pieces.len() == 0 {
        Set::empty()
    } else {
        pieces[0].union(union_of(pieces.drop_first()))
    }
}

/// No two of `pieces` share a cell.
pub open spec fn pairwise_disjoint(pieces: Seq<Set<Position>>) -> bool {
    forall|i: int, j: int, q: Position|
        0 <= i < j < pieces.len() ==> !(#[trigger] pieces[i].contains(q) && #[trigger] pieces[j].contains(q))
}

/// Placing pieces one after the other, each where it fits, leaves a region
/// smaller by the pieces' cell counts; no cell is in two of the pieces, and
/// each lies within the given region.
pub proof fn lemma_packing(region: Set<Position>, pieces: Seq<Set<Position>>)
    requires
        region.finite(),
        fits_in_turn(region, pieces),
    ensures
        left_after(region, pieces).finite(),
        left_after(region, pieces).len() == region.len() - total_size(pieces),
        pairwise_disjoint(pieces),
        forall|i: int| 0 <= i < pieces.len() ==> (#[trigger] pieces[i]).subset_of(region),
    decreases pieces.len(),
{
    if pieces.len() > 0 {
        let p0 = pieces[0];
        let rest = pieces.drop_first();
        let r1 = region.difference(p0);
        vstd::set_lib::lemma_len_subset(p0, region);
        vstd::set_lib::lemma_set_difference_len(region, p0);
        assert(region.intersect(p0) =~= p0);
        lemma_packing(r1, rest);
        assert forall|i: int, j: int, q: Position|
            0 <= i < j < pieces.len() implies !(#[trigger] pieces[i].contains(q) && #[trigger] pieces[j].contains(q)) by {
            assert(pieces[j] == rest[j - 1]);
            if i > 0 {
                assert(pieces[i] == rest[i - 1]);
            } else {
                assert(rest[j - 1].subset_of(r1));
            }
        }
        assert forall|i: int| 0 <= i < pieces.len() implies (#[trigger] pieces[i]).subset_of(region) by {
            if i > 0 {
                assert(pieces[i] == rest[i - 1]);
                assert(rest[i - 1].subset_of(r1));
            }
        }
    }
}

/// The pieces of a reported solution tile the region: each fits where it was
/// placed, no cell is in two of them, and together they hold exactly the
/// region's cells.
pub proof fn lemma_covers_tiles(region: Set<Position>, pieces: Seq<Set<Position>>)
    requires
        region.finite(),
        covers(pieces, region),
    ensures
        fits_in_turn(region, pieces),
        left_after(region, pieces) == Set::<Position>::empty(),
        pairwise_disjoint(pieces),
        union_of(pieces) == region,
    decreases pieces.len(),
{
    if pieces.len() > 0 {
        let p0 = pieces[0];
        let rest = pieces.drop_first();
        lemma_covers_tiles(region.difference(p0), rest);
        assert(p0.union(region.difference(p0)) =~= region);
    }
    lemma_packing(region, pieces);
}

/// A region covered by pieces of `k` cells each holds a multiple of `k`
/// cells: where its size is no such multiple, no cover of such pieces exists.
pub proof fn lemma_cover_size(region: Set<Position>, pieces: Seq<Set<Position>>, k: nat)
    requires
        region.finite(),
        covers(pieces, region),
        forall|i: int| 0 <= i < pieces.len() ==> (#[trigger] pieces[i]).len() == k,
    ensures
        region.len() == pieces.len() * k,
{
    lemma_covers_tiles(region, pieces);
    lemma_packing(region, pieces);
    lemma_total_size_uniform(pieces, k);
}

proof fn lemma_total_size_uniform(pieces: Seq<Set<Position>>, k: nat)
    requires
        forall|i: int| 0 <= i < pieces.len() ==> (#[trigger] pieces[i]).len() == k,
    ensures
        total_size(pieces) == pieces.len() * k,
    decreases pieces.len(),
{
    if pieces.len() > 0 {
        let rest = pieces.drop_first();
        assert forall|i: int| 0 <= i < rest.len() implies (#[trigger] rest[i]).len() == k by {
            assert(rest[i] == pieces[i + 1]);
        }
        lemma_total_size_uniform(rest, k);
        assert(pieces.len() * k == k + rest.len() * k) by (nonlinear_arith)
            requires
                pieces.len() == rest.len() + 1,
        ;
    }
}

/// Every piece taken from a supply whose shapes all have `k` distinct cells
/// has `k` cells.
proof fn lemma_supply_piece_len(shape: Set<Position>, supply: Seq<Seq<Position>>, k: nat)
    requires
        from_supply(shape, supply),
        forall|j: int, i: int|
            0 <= j < supply.len() && 0 <= i < supply[j].len() ==> in_grid(#[trigger] supply[j][i]),
        forall|j: int| 0 <= j < supply.len() ==> (#[trigger] supply[j]).to_set().len() == k,
    ensures
        shape.len() == k,
{
    let (j, i, t) = choose|j: int, i: int, t: Translation|
        0 <= j < supply.len() && 0 <= i < 24 && all_fit(orientation(supply[j], all_symmetries()[i]), t)
            && shape == #[trigger] translate_set(orientation(supply[j], all_symmetries()[i]), t);
    let o = orientation(supply[j], all_symmetries()[i]);
    assert forall|n: int| 0 <= n < supply[j].len() implies in_grid(#[trigger] supply[j][n]) by {}
    lemma_orientation_len(supply[j], all_symmetries()[i]);
    lemma_translate_set_len(o, t);
}

/// Where every shape of the supply has `k` distinct cells and the region's
/// size is no multiple of `k`, a search that reports only tilings of pieces
/// from the supply reports none.
pub proof fn lemma_unsolvable(
    before: Seq<Solution>,
    after: Seq<Solution>,
    region: Set<Position>,
    supply: Seq<Seq<Position>>,
    k: nat,
)
    requires
        reports_tilings(before, after, region, supply),
        region.finite(),
        k > 0,
        region.len() % k != 0,
        forall|j: int, i: int|
            0 <= j < supply.len() && 0 <= i < supply[j].len() ==> in_grid(#[trigger] supply[j][i]),
        forall|j: int| 0 <= j < supply.len() ==> (#[trigger] supply[j]).to_set().len() == k,
    ensures
        after == before,
{
    if after.len() > before.len() {
        let found = after[before.len() as int].placed();
        assert(covers(found, region));
        assert forall|i: int| 0 <= i < found.len() implies (#[trigger] found[i]).len() == k by {
            assert(from_supply(after[before.len() as int].placed()[i], supply));
            lemma_supply_piece_len(found[i], supply, k);
        }
        lemma_cover_size(region, found, k);
        assert((found.len() * k) % k == 0) by (nonlinear_arith)
            requires
                k > 0,
        ;
    }
    assert(after =~= before);
}

} // verus!
