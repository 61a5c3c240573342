//! Candidate routes: sequences of step attempts, and their random edits.
use crate::random::below;
use vstd::prelude::*;

verus! {

/// One step attempt in a compass direction.
#[derive(Clone, Copy, Debug, PartialEq, Eq, Structural)]
pub enum Move {
    North,
    East,
    South,
    West,
}

/// A candidate route: step attempts taken in order from a fixed start;
/// `None` stands for a step that stays in place.
#[derive(Clone, Debug)]
pub struct Path {
    pub moves: Vec<Option<Move>>,
}

/// One local edit of a move sequence.
#[derive(Clone, Copy, Debug, PartialEq, Eq, Structural)]
pub enum Edit {
    /// Replace the move at an index.
    Substitute(usize, Option<Move>),
    /// Add a move at the end.
    Append(Option<Move>),
    /// Drop the last move, if any.
    Truncate,
    /// Swap the moves at two indices.
    Transpose(usize, usize),
}

/// The move chosen by draw `k` of `0..5`.
pub open spec fn move_for(k: int) -> Option<Move> {
    if k == 0 {
        Some(Move::North)
    } else if k == 1 {
        Some(Move::East)
    } else if k == 2 {
        Some(Move::South)
    } else if k == 3 {
        Some(Move::West)
    } else {
        None
    }
}

/// The edit chosen by draw `kind` of `0..4` on a sequence of length `len`,
/// with drawn indices `i`, `j` and drawn move `m`: 0 replaces the move at
/// `i` by `m`, 1 appends `m`, 2 drops the last move, 3 swaps the moves at
/// `i` and `j`. On an empty sequence only appending changes anything.
pub open spec fn edit_of(kind: int, len: int, i: usize, j: usize, m: Option<Move>) -> Edit {
    if kind == 1 {
        Edit::Append(m)
    } else if kind == 2 || len == 0 {
        Edit::Truncate
    } else if kind == 0 {
        Edit::Substitute(i, m)
    } else {
        Edit::Transpose(i, j)
    }
}

/// The indices of an edit lie within a sequence of length `len`.
pub open spec fn edit_fits(e: Edit, len: nat) -> bool {
    match e {
        Edit::Substitute(i, _) => i < len,
        Edit::Transpose(i, j) => i < len && j < len,
        _ => true,
    }
}

/// The sequence that an edit makes of `a`.
pub open spec fn apply_edit(a: Seq<Option<Move>>, e: Edit) -> Seq<Option<Move>> {
    match e {
        Edit::Substitute(i, m) => a.update(i as int, m),
        Edit::Append(m) => a.push(m),
        Edit::Truncate => if a.len() > 0 { a.drop_last() } else { a },
        Edit::Transpose(i, j) => a.update(i as int, a[j as int]).update(j as int, a[i as int]),
    }
}

/// `b` arises from `a` by one local edit: one move replaced, one move
/// appended, the last move dropped, or two moves swapped. On an empty
/// sequence an edit other than appending leaves it as it is.
pub open spec fn is_one_edit(a: Seq<Option<Move>>, b: Seq<Option<Move>>) -> bool {
    ||| exists|i: int, m: Option<Move>| 0 <= i < a.len() && b == a.update(i, m)
    ||| exists|m: Option<Move>| b == a.push(m)
    ||| a.len() > 0 && b == a.drop_last()
    ||| exists|i: int, j: int| 0 <= i < a.len() && 0 <= j < a.len() && b == a.update(i, a[j]).update(j, a[i])
    ||| a.len() == 0 && b == a
}

/// A source of candidates for the sampler: each value proposes a nearby
/// value of the same type. The sampler treats the proposal as symmetric,
/// which for routes is an approximation: appending and dropping a move are
/// not drawn with mirrored probabilities.
pub trait ErgodicAndSymmetric: Sized {
    /// The values that `self` may propose.
    spec fn proposes(&self, candidate: Self) -> bool;

    fn candidate(&self, rng: &mut rand::rngs::SmallRng) -> (r: Self)
        ensures
            self.proposes(r),
    ;
}

impl Move {
    /// A uniformly random direction, or `None` (each with probability 1/5).
    pub fn arbitrary(rng: &mut rand::rngs::SmallRng) -> (r: Option<Move>)
        ensures
            exists|k: int| 0 <= k < 5 && r == move_for(k),
    {
        let k = below(rng, 5);
        Move::from_draw(k)
    }

    /// The outcome of draw `k` of `0..5`: North, East, South, West, `None`.
    pub fn from_draw(k: usize) -> (r: Option<Move>)
        requires
            k < 5,
        ensures
            r == move_for(k as int),
    {
        if k == 0 {
            Some(Move::North)
        } else if k == 1 {
            Some(Move::East)
        } else if k == 2 {
            Some(Move::South)
        } else if k == 3 {
            Some(Move::West)
        } else {
            None
        }
    }
}

impl Path {
    /// The route of no steps.
    pub fn empty() -> (r: Path)
        ensures
            r.moves@ == Seq::<Option<Move>>::empty(),
    {
        Path { moves: Vec::new() }
    }

    /// A copy of the move sequence.
    fn copy_moves(&self) -> (r: Vec<Option<Move>>)
        ensures
            r@ == self.moves@,
    {
        let mut out: Vec<Option<Move>> = Vec::new();
        let mut i: usize = 0;
        while i < self.moves.len()
            invariant
                i <= self.moves@.len(),
                out@ == self.moves@.take(i as int),
            decreases self.moves@.len() - i,
        {
            out.push(self.moves[i]);
            i += 1;
            assert(out@ == self.moves@.take(i as int));
        }
        assert(self.moves@.take(i as int) == self.moves@);
        out
    }

    /// This route with one edit applied.
    pub fn edited(&self, e: Edit) -> (r: Path)
        requires
            edit_fits(e, self.moves@.len()),
        ensures
            r.moves@ == apply_edit(self.moves@, e),
    {
        let mut moves = self.copy_moves();
        match e {
            Edit::Substitute(i, m) => {
                moves.set(i, m);
            },
            Edit::Append(m) => {
                moves.push(m);
            },
            Edit::Truncate => {
                if moves.len() > 0 {
                    moves.pop();
                }
            },
            Edit::Transpose(i, j) => {
                let x = moves[i];
                let y = moves[j];
                moves.set(i, y);
                moves.set(j, x);
            },
        }
        Path { moves }
    }

    /// A new route that differs from this one by one local edit, its kind
    /// drawn uniformly among: replace a random move by a random move or
    /// `None`; append a random move or `None`; drop the last move; swap two
    /// moves at random positions (drawn with replacement). On an empty route
    /// only appending changes anything.
    pub fn mutated(&self, rng: &mut rand::rngs::SmallRng) -> (r: Path)
        ensures
            is_one_edit(self.moves@, r.moves@),
            exists|kind: int, i: usize, j: usize, m: Option<Move>|
                0 <= kind < 4 && (self.moves@.len() == 0 || (i < self.moves@.len() && j < self.moves@.len()))
                && r.moves@ == apply_edit(self.moves@, #[trigger] edit_of(kind, self.moves@.len() as int, i, j, m)),
    {
        let ghost a = self.moves@;
        let len = self.moves.len();
        let kind = below(rng, 4);
        let mut i: usize = 0;
        let mut j: usize = 0;
        let mut m: Option<Move> = None;
        if kind == 1 {
            m = Move::arbitrary(rng);
        } else if kind == 0 && len > 0 {
            i = below(rng, len);
            m = Move::arbitrary(rng);
        } else if kind == 3 && len > 0 {
            i = below(rng, len);
            j = below(rng, len);
        }
        let e = Path::edit_for(kind, len, i, j, m);
        let r = self.edited(e);
        proof {
            lemma_edit_is_one_edit(a, e);
        }
        r
    }

    /// The edit chosen by the draws `kind`, `i`, `j` and `m` on a route of
    /// `len` moves (see `edit_of`).
    pub fn edit_for(kind: usize, len: usize, i: usize, j: usize, m: Option<Move>) -> (r: Edit)
        requires
            kind < 4,
            len == 0 || (i < len && j < len),
        ensures
            r == edit_of(kind as int, len as int, i, j, m),
            edit_fits(r, len as nat),
    {
        if kind == 1 {
            Edit::Append(m)
        } else if kind == 2 || len == 0 {
            Edit::Truncate
        } else if kind == 0 {
            Edit::Substitute(i, m)
        } else {
            Edit::Transpose(i, j)
        }
    }
}

/// Applying a fitting edit is one local edit.
pub proof fn lemma_edit_is_one_edit(a: Seq<Option<Move>>, e: Edit)
    requires
        edit_fits(e, a.len()),
    ensures
        is_one_edit(a, apply_edit(a, e)),
{
    match e {
        Edit::Substitute(i, m) => {
            assert(apply_edit(a, e) == a.update(i as int, m));
        },
        Edit::Append(m) => {
            assert(apply_edit(a, e) == a.push(m));
        },
        Edit::Truncate => {},
        Edit::Transpose(i, j) => {
            assert(0 <= i < a.len() && 0 <= j < a.len());
        },
    }
}

impl ErgodicAndSymmetric for Path {
    open spec fn proposes(&self, candidate: Path) -> bool {
        is_one_edit(self.moves@, candidate.moves@)
    }

    fn candidate(&self, rng: &mut rand::rngs::SmallRng) -> (r: Path) {
        self.mutated(rng)
    }
}

/// A single edit changes the length of a route by at most one: appending
/// adds a move at the end, dropping removes the last one, and the other
/// edits keep the length.
pub proof fn lemma_one_edit_length(a: Seq<Option<Move>>, b: Seq<Option<Move>>)
    requires
        is_one_edit(a, b),
    ensures
        b.len() == a.len() + 1 ==> b.take(a.len() as int) == a,
        b.len() + 1 == a.len() ==> b == a.take(b.len() as int),
        b.len() == a.len() || b.len() == a.len() + 1 || b.len() + 1 == a.len(),
{
    if b.len() == a.len() + 1 {
        let m = choose|m: Option<Move>| b == a.push(m);
        assert(b.take(a.len() as int) == a);
    }
    if b.len() + 1 == a.len() {
        assert(b == a.drop_last());
    }
}

} // verus!
