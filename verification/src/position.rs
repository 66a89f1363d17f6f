//! The abstract game: what a board is, independent of how it is stored.
//!
//! A position is seven stacks of pieces, one per column and each growing
//! upwards, together with the side to move. Gravity is built into the shape:
//! a stack has no holes.

use vstd::prelude::*;
use crate::board::{Color, Move};

verus! {

/// A rule of `n` dashes.
pub open spec fn rule(n: nat) -> Seq<char> {
    Seq::new(n, |i: int| '-')
}

/// What follows the rows of a picture: a rule as wide as the board, and the
/// side to move.
pub open spec fn footer(turn: Color) -> Seq<char> {
    rule(7).push('\n') + seq!['T', 'u', 'r', 'n', ':', ' '].push(turn.letter()).push('\n')
}

/// The owner of an occupied square.
pub open spec fn owner(square: Option<Color>) -> Color {
    match square {
        Some(color) => color,
        None => Color::Red,
    }
}

/// A position of the game.
pub ghost struct Position {
    /// `columns[c][r]` is the owner of the piece in column `c`, row `r`.
    pub columns: Seq<Seq<Color>>,
    /// The side to move.
    pub turn: Color,
}

impl Position {
    /// The board before the first move.
    pub open spec fn empty() -> Position {
        Position { columns: Seq::new(7, |c: int| Seq::<Color>::empty()), turn: Color::Red }
    }

    /// Seven columns, none higher than six.
    pub open spec fn wf(self) -> bool {
        &&& self.columns.len() == 7
        &&& forall|c: int| 0 <= c < 7 ==> (#[trigger] self.columns[c]).len() <= 6
    }

    /// Number of pieces in column `c`.
    pub open spec fn height(self, c: int) -> nat {
        self.columns[c].len()
    }

    /// The fill heights of the seven columns.
    pub open spec fn heights(self) -> Seq<nat> {
        Seq::new(7, |c: int| self.columns[c].len())
    }

    /// Number of pieces on the board.
    pub open spec fn count(self) -> nat {
        self.height(0) + self.height(1) + self.height(2) + self.height(3) + self.height(4)
            + self.height(5) + self.height(6)
    }

    /// What is in column `c`, row `r`; nothing outside the board.
    pub open spec fn cell(self, c: int, r: int) -> Option<Color> {
        if 0 <= c < 7 && 0 <= r < self.columns[c].len() {
            Some(self.columns[c][r])
        } else {
            None
        }
    }

    /// Whether a piece may be dropped into column `c`.
    pub open spec fn legal(self, c: int) -> bool {
        0 <= c < 7 && self.height(c) < 6
    }

    /// The position after the side to move drops a piece into column `c`.
    pub open spec fn apply(self, c: int) -> Position {
        Position {
            columns: self.columns.update(c, self.columns[c].push(self.turn)),
            turn: self.turn.not(),
        }
    }

    /// Whether the top piece of column `c` can be the move made last: the
    /// column holds a piece and its top piece belongs to the side that is not
    /// to move.
    pub open spec fn undoable(self, c: int) -> bool {
        &&& 0 <= c < 7
        &&& self.height(c) > 0
        &&& self.columns[c].last() == self.turn.not()
    }

    /// The position before the piece on top of column `c` was dropped.
    pub open spec fn undo(self, c: int) -> Position {
        Position {
            columns: self.columns.update(c, self.columns[c].drop_last()),
            turn: self.turn.not(),
        }
    }

    /// Four pieces of `color` in a row, starting at `(c, r)` and stepping by
    /// `(dc, dr)`.
    pub open spec fn line(self, color: Color, c: int, r: int, dc: int, dr: int) -> bool {
        &&& self.cell(c, r) == Some(color)
        &&& self.cell(c + dc, r + dr) == Some(color)
        &&& self.cell(c + 2 * dc, r + 2 * dr) == Some(color)
        &&& self.cell(c + 3 * dc, r + 3 * dr) == Some(color)
    }

    /// Whether a line of four of `color` starts at `(c, r)`: to the right,
    /// upwards, up and to the right, or up and to the left.
    pub open spec fn four_at(self, color: Color, c: int, r: int) -> bool {
        ||| self.line(color, c, r, 1, 0)
        ||| self.line(color, c, r, 0, 1)
        ||| self.line(color, c, r, 1, 1)
        ||| self.line(color, c, r, -1, 1)
    }

    /// A line of four lies on the board: where one starts, there is room for
    /// the other three squares in its direction.
    pub proof fn lemma_four_in_bounds(self, color: Color, c: int, r: int)
        requires
            self.wf(),
        ensures
            self.line(color, c, r, 1, 0) ==> 0 <= c < 4 && 0 <= r < 6,
            self.line(color, c, r, 0, 1) ==> 0 <= c < 7 && 0 <= r < 3,
            self.line(color, c, r, 1, 1) ==> 0 <= c < 4 && 0 <= r < 3,
            self.line(color, c, r, -1, 1) ==> 3 <= c < 7 && 0 <= r < 3,
    {
    }

    /// Whether `color` has four in a row anywhere.
    pub open spec fn has_four(self, color: Color) -> bool {
        exists|c: int, r: int| 0 <= c < 7 && 0 <= r < 6 && #[trigger] self.four_at(color, c, r)
    }

    /// The terminal test of the game: the side to move already owns four in a
    /// row.
    pub open spec fn is_terminal(self) -> bool {
        self.has_four(self.turn)
    }

    /// The legal moves among the columns below `n`, in increasing order.
    pub open spec fn legal_moves_below(self, n: int) -> Seq<Move>
        decreases n,
    {
        if n <= 0 {
            Seq::empty()
        } else if self.legal(n - 1) {
            self.legal_moves_below(n - 1).push(Move { col: (n - 1) as usize })
        } else {
            self.legal_moves_below(n - 1)
        }
    }

    /// All legal moves, in increasing column order.
    pub open spec fn legal_moves(self) -> Seq<Move> {
        self.legal_moves_below(7)
    }

    /// The character that shows column `c`, row `r`: the owner's letter, or a
    /// blank.
    pub open spec fn glyph(self, c: int, r: int) -> char {
        match self.cell(c, r) {
            Some(color) => color.letter(),
            None => ' ',
        }
    }

    /// The first `n` characters of row `r`, from left to right.
    pub open spec fn row_start(self, r: int, n: nat) -> Seq<char> {
        Seq::new(n, |c: int| self.glyph(c, r))
    }

    /// One line of the picture: row `r` from left to right.
    pub open spec fn row_text(self, r: int) -> Seq<char> {
        self.row_start(r, 7).push('\n')
    }

    /// The lines of the rows from the top one down to row `r`.
    pub open spec fn rows_text(self, r: int) -> Seq<char>
        decreases 6 - r,
    {
        if r >= 6 {
            Seq::empty()
        } else {
            self.rows_text(r + 1) + self.row_text(r)
        }
    }

    /// The picture of the position: the six rows from the top one down, a
    /// rule, and the side to move, each on a line of its own.
    pub open spec fn text(self) -> Seq<char> {
        self.rows_text(0) + footer(self.turn)
    }

    /// The position after the columns `moves` were played one after the other.
    pub open spec fn replay(self, moves: Seq<int>) -> Position
        decreases moves.len(),
    {
        if moves.len() == 0 {
            self
        } else {
            self.replay(moves.drop_last()).apply(moves.last())
        }
    }

    /// Whether the columns `moves` can be played one after the other: each is
    /// legal when its turn comes.
    pub open spec fn playable(self, moves: Seq<int>) -> bool
        decreases moves.len(),
    {
        moves.len() > 0 ==> self.playable(moves.drop_last()) && self.replay(
            moves.drop_last(),
        ).legal(moves.last())
    }
}

/// A legal move leaves a well-formed position with one piece more, and can be
/// taken back.
pub proof fn lemma_apply(p: Position, c: int)
    requires
        p.wf(),
        p.legal(c),
    ensures
        p.apply(c).wf(),
        p.apply(c).count() == p.count() + 1,
        p.apply(c).height(c) == p.height(c) + 1,
        forall|d: int| 0 <= d < 7 && d != c ==> p.apply(c).height(d) == p.height(d),
        p.apply(c).undoable(c),
        p.apply(c).undo(c) == p,
{
    let q = p.apply(c);
    assert(q.columns[c].drop_last() =~= p.columns[c]);
    assert(q.undo(c).columns =~= p.columns);
}

/// Taking back a move leaves a well-formed position in which the same move is
/// legal and leads back.
pub proof fn lemma_undo(p: Position, c: int)
    requires
        p.wf(),
        p.undoable(c),
    ensures
        p.undo(c).wf(),
        p.undo(c).count() + 1 == p.count(),
        p.undo(c).legal(c),
        p.undo(c).apply(c) == p,
{
    let q = p.undo(c);
    assert(q.columns[c].push(q.turn) =~= p.columns[c]);
    assert(q.apply(c).columns =~= p.columns);
}

/// A well-formed position holds at most 42 pieces.
pub proof fn lemma_count_bound(p: Position)
    requires
        p.wf(),
    ensures
        p.count() <= 42,
        forall|c: int| p.legal(c) ==> p.count() < 42,
{
}

/// What the legal moves are: the columns that are not full, each once, in
/// increasing order.
pub proof fn lemma_legal_moves(p: Position, n: int)
    requires
        0 <= n <= 7,
    ensures
        p.legal_moves_below(n).len() <= n,
        forall|i: int|
            0 <= i < p.legal_moves_below(n).len() ==> (#[trigger] p.legal_moves_below(n)[i]).col
                < n && p.legal(p.legal_moves_below(n)[i].col as int),
        forall|i: int, j: int|
            0 <= i < j < p.legal_moves_below(n).len() ==> p.legal_moves_below(n)[i].col
                < p.legal_moves_below(n)[j].col,
        forall|c: int|
            0 <= c < n && p.legal(c) ==> p.legal_moves_below(n).contains(
                Move { col: c as usize },
            ),
    decreases n,
{
    if n > 0 {
        lemma_legal_moves(p, n - 1);
        let prev = p.legal_moves_below(n - 1);
        let cur = p.legal_moves_below(n);
        if p.legal(n - 1) {
            let m = Move { col: (n - 1) as usize };
            assert(cur == prev.push(m));
            assert(cur[prev.len() as int] == m);
            assert forall|c: int| 0 <= c < n && p.legal(c) implies cur.contains(
                Move { col: c as usize },
            ) by {
                if c < n - 1 {
                    let i = choose|i: int|
                        0 <= i < prev.len() && prev[i] == (Move { col: c as usize });
                    assert(cur[i] == Move { col: c as usize });
                }
            }
        }
    }
}


/// Playing a sequence of legal moves leaves a well-formed position.
pub proof fn lemma_replay_wf(p: Position, moves: Seq<int>)
    requires
        p.wf(),
        p.playable(moves),
    ensures
        p.replay(moves).wf(),
        p.replay(moves).count() == p.count() + moves.len(),
    decreases moves.len(),
{
    if moves.len() > 0 {
        lemma_replay_wf(p, moves.drop_last());
        lemma_apply(p.replay(moves.drop_last()), moves.last());
    }
}

/// Moves only add pieces: playing on never lowers a column.
pub proof fn lemma_replay_grows(p: Position, moves: Seq<int>, c: int)
    requires
        p.wf(),
        p.playable(moves),
        0 <= c < 7,
    ensures
        p.replay(moves).height(c) >= p.height(c),
    decreases moves.len(),
{
    if moves.len() > 0 {
        lemma_replay_grows(p, moves.drop_last(), c);
        lemma_replay_wf(p, moves.drop_last());
        lemma_apply(p.replay(moves.drop_last()), moves.last());
    }
}

/// No legal move goes into a full column, and a column that is full stays
/// out of the legal moves however play goes on from there.
pub proof fn lemma_full_column_stays_out(p: Position, moves: Seq<int>, c: int)
    requires
        p.wf(),
        p.playable(moves),
        0 <= c < 7,
        p.height(c) == 6,
    ensures
        forall|i: int|
            0 <= i < p.legal_moves().len() ==> p.height(
                (#[trigger] p.legal_moves()[i]).col as int,
            ) < 6,
        !p.legal_moves().contains(Move { col: c as usize }),
        !p.replay(moves).legal_moves().contains(Move { col: c as usize }),
{
    let q = p.replay(moves);
    lemma_replay_grows(p, moves, c);
    lemma_replay_wf(p, moves);
    lemma_legal_moves(p, 7);
    lemma_legal_moves(q, 7);
    if p.legal_moves().contains(Move { col: c as usize }) {
        let i = choose|i: int|
            0 <= i < p.legal_moves().len() && p.legal_moves()[i] == (Move { col: c as usize });
        assert(p.legal(p.legal_moves()[i].col as int));
    }
    if q.legal_moves().contains(Move { col: c as usize }) {
        let i = choose|i: int|
            0 <= i < q.legal_moves().len() && q.legal_moves()[i] == (Move { col: c as usize });
        assert(q.legal(q.legal_moves()[i].col as int));
    }
}

} // verus!
