//! Plain-text rendering of positions, pieces and solutions.

use vstd::prelude::*;
use vstd::string::StringExecFns;
use crate::piece::Piece;
use crate::position::Position;
use crate::solver::Solution;

verus! {

/// The decimal digits of `n`, without leading zeros.
pub open spec fn digits(n: nat) -> Seq<char>
    decreases n,
{
    let d = seq!['0', '1', '2', '3', '4', '5', '6', '7', '8', '9'];
    if n < 10 {
        seq![d[n as int]]
    } else {
        digits(n / 10) + seq![d[(n % 10) as int]]
    }
}

/// The decimal text of `n`, with a leading `-` when it is negative.
pub open spec fn decimal(n: int) -> Seq<char> {
    if n < 0 {
        seq!['-'] + digits((-n) as nat)
    } else {
        digits(n as nat)
    }
}

/// A position as `(x, y, z)`.
pub open spec fn position_text(p: Position) -> Seq<char> {
    seq!['('] + decimal(p.x as int) + seq![',', ' '] + decimal(p.y as int) + seq![',', ' ']
        + decimal(p.z as int) + seq![')']
}

/// The positions, one after the other.
pub open spec fn positions_text(s: Seq<Position>) -> Seq<char>
    decreases s.len(),
{
    if s.len() == 0 {
        Seq::empty()
    } else {
        positions_text(s.drop_last()) + position_text(s.last())
    }
}

/// A piece as `[`, its name if any, its cells in order, `]`.
pub open spec fn piece_text(p: Piece) -> Seq<char> {
    let name = match p.label() {
        Some(n) => n@,
        None => Seq::empty(),
    };
    seq!['['] + name + positions_text(p.cells()) + seq![']']
}

/// The pieces, one after the other.
pub open spec fn pieces_text(s: Seq<Piece>) -> Seq<char>
    decreases s.len(),
{
    if s.len() == 0 {
        Seq::empty()
    } else {
        pieces_text(s.drop_last()) + piece_text(s.last())
    }
}

/// A solution as `<`, its pieces in the order placed, `>`.
pub open spec fn solution_text(s: Solution) -> Seq<char> {
    seq!['<'] + pieces_text(s.pieces()) + seq!['>']
}

/// Relies on the `Display` of `i32` (through `format!`): the decimal text of
/// `n`.
#[verifier::external_body]
fn decimal_text(n: i32) -> (r: String)
    ensures
        r@ == decimal(n as int),
{
    format!("{}", n)
}

impl Position {
    /// The position as `(x, y, z)`.
    pub fn to_text(&self) -> (r: String)
        ensures
            r@ == position_text(*self),
    {
        proof {
            reveal_strlit("(");
            reveal_strlit(", ");
            reveal_strlit(")");
        }
        let mut s = String::from_str("(");
        s.append(decimal_text(self.x).as_str());
        s.append(", ");
        s.append(decimal_text(self.y).as_str());
        s.append(", ");
        s.append(decimal_text(self.z).as_str());
        s.append(")");
        assert(s@ =~= position_text(*self));
        s
    }
}

impl Piece {
    /// The piece as `[`, its name if any, its cells in order, `]`.
    pub fn to_text(&self) -> (r: String)
        ensures
            r@ == piece_text(*self),
    {
        proof {
            reveal_strlit("[");
            reveal_strlit("]");
        }
        let mut s = String::from_str("[");
        match self.name() {
            Some(n) => s.append(n.as_str()),
            None => {},
        }
        let ghost head = s@;
        let mut walk = self.iter();
        let ghost all = self.cells();
        let ghost mut seen: nat = 0;
        loop
            invariant
                all == self.cells(),
                seen <= all.len(),
                walk.rest() == all.subrange(seen as int, all.len() as int),
                s@ == head + positions_text(all.subrange(0, seen as int)),
            ensures
                all == self.cells(),
                seen == all.len(),
                s@ == head + positions_text(all.subrange(0, seen as int)),
            decreases all.len() - seen,
        {
            match walk.next() {
                None => {
                    break;
                },
                Some(p) => {
                    s.append(p.to_text().as_str());
                    proof {
                        assert(p == all[seen as int]);
                        assert(all.subrange(0, seen as int + 1).drop_last() =~= all.subrange(0, seen as int));
                        seen = seen + 1;
                        assert(walk.rest() =~= all.subrange(seen as int, all.len() as int));
                    }
                },
            }
        }
        s.append("]");
        proof {
            assert(all.subrange(0, seen as int) =~= all);
            assert(s@ =~= piece_text(*self));
        }
        s
    }
}

impl Solution {
    /// The solution as `<`, its pieces in the order placed, `>`.
    pub fn to_text(&self) -> (r: String)
        ensures
            r@ == solution_text(*self),
    {
        proof {
            reveal_strlit("<");
            reveal_strlit(">");
        }
        let mut s = String::from_str("<");
        let mut i: usize = 0;
        while i < self.count()
            invariant
                0 <= i <= self.pieces().len(),
                s@ == seq!['<'] + pieces_text(self.pieces().subrange(0, i as int)),
            decreases self.pieces().len() - i,
        {
            s.append(self.piece(i).to_text().as_str());
            proof {
                assert(self.pieces().subrange(0, i + 1).drop_last() =~= self.pieces().subrange(0, i as int));
            }
            i = i + 1;
        }
        s.append(">");
        proof {
            assert(self.pieces().subrange(0, i as int) =~= self.pieces());
            assert(s@ =~= solution_text(*self));
        }
        s
    }
}

} // verus!
