//! The packed encoding: one 64-bit mask per side. The square in column `c`,
//! row `r` is bit `7 * c + r`; the seventh bit of each column's lane is never
//! set, so that a shifted mask cannot carry a piece into the next column.

use vstd::prelude::*;
use crate::bits::{
    bit, lemma_bit_nonzero, lemma_probe, lemma_run, lemma_same_bits, lemma_some_bit,
    lemma_toggle, lemma_xor_bit, run,
};
use crate::board::{
    push_footer, push_newline, push_square, Color, Move, Representation, HEIGHT, WIDTH,
};
use crate::position::{owner, Position};

verus! {

/// For each column, the index of the guard bit above its top square.
pub const TOPS: [u8; WIDTH] = [6, 13, 20, 27, 34, 41, 48];

/// The lowest `h` bits of column `c`'s lane.
pub open spec fn lane(c: u64, h: u64) -> u64 {
    (!(0xffff_ffff_ffff_ffffu64 << h)) << ((7 * c) as u64)
}

/// The mask of all occupied squares of a board whose columns are filled to
/// `heights`.
pub open spec fn occupancy(heights: Seq<nat>) -> u64 {
    lane(0, heights[0] as u64) | lane(1, heights[1] as u64) | lane(2, heights[2] as u64) | lane(
        3,
        heights[3] as u64,
    ) | lane(4, heights[4] as u64) | lane(5, heights[5] as u64) | lane(6, heights[6] as u64)
}

proof fn lemma_lanes(h0: u64, h1: u64, h2: u64, h3: u64, h4: u64, h5: u64, h6: u64, c: u64, r: u64)
    by (bit_vector)
    requires
        h0 <= 6,
        h1 <= 6,
        h2 <= 6,
        h3 <= 6,
        h4 <= 6,
        h5 <= 6,
        h6 <= 6,
        c < 7,
        r < 7,
    ensures
        (((lane(0, h0) | lane(1, h1) | lane(2, h2) | lane(3, h3) | lane(4, h4) | lane(5, h5)
            | lane(6, h6)) >> ((7 * c + r) as u64)) & 1 == 1) == (r < (if c == 0 {
            h0
        } else if c == 1 {
            h1
        } else if c == 2 {
            h2
        } else if c == 3 {
            h3
        } else if c == 4 {
            h4
        } else if c == 5 {
            h5
        } else {
            h6
        })),
{
}

proof fn lemma_lanes_end(h0: u64, h1: u64, h2: u64, h3: u64, h4: u64, h5: u64, h6: u64, i: u64)
    by (bit_vector)
    requires
        h0 <= 6,
        h1 <= 6,
        h2 <= 6,
        h3 <= 6,
        h4 <= 6,
        h5 <= 6,
        h6 <= 6,
        49 <= i < 64,
    ensures
        ((lane(0, h0) | lane(1, h1) | lane(2, h2) | lane(3, h3) | lane(4, h4) | lane(5, h5)
            | lane(6, h6)) >> i) & 1 != 1,
{
}

/// Which bits the occupancy mask holds: bit `7 * c + r` where row `r` is below
/// the fill height of column `c`, and no other.
pub proof fn lemma_occupancy(heights: Seq<nat>, i: int)
    requires
        heights.len() == 7,
        forall|c: int| 0 <= c < 7 ==> heights[c] <= 6,
        0 <= i < 64,
    ensures
        bit(occupancy(heights), i) == (i < 49 && i % 7 < heights[i / 7]),
{
    let h0 = heights[0] as u64;
    let h1 = heights[1] as u64;
    let h2 = heights[2] as u64;
    let h3 = heights[3] as u64;
    let h4 = heights[4] as u64;
    let h5 = heights[5] as u64;
    let h6 = heights[6] as u64;
    if i < 49 {
        let c = (i / 7) as u64;
        let r = (i % 7) as u64;
        assert(7 * c + r == i);
        lemma_lanes(h0, h1, h2, h3, h4, h5, h6, c, r);
    } else {
        lemma_lanes_end(h0, h1, h2, h3, h4, h5, h6, i as u64);
    }
}

/// The occupancy mask tells the fill heights: boards that differ in which
/// squares are occupied differ in their masks.
pub proof fn lemma_occupancy_tells_heights(a: Seq<nat>, b: Seq<nat>)
    requires
        a.len() == 7,
        b.len() == 7,
        forall|c: int| 0 <= c < 7 ==> a[c] <= 6 && b[c] <= 6,
        occupancy(a) == occupancy(b),
    ensures
        a == b,
{
    assert forall|c: int| 0 <= c < 7 implies a[c] == b[c] by {
        if a[c] < b[c] {
            lemma_occupancy(a, 7 * c + a[c]);
            lemma_occupancy(b, 7 * c + a[c]);
        } else if b[c] < a[c] {
            lemma_occupancy(a, 7 * c + b[c]);
            lemma_occupancy(b, 7 * c + b[c]);
        }
    }
    assert(a =~= b);
}

/// The packed board: the mask of each side's pieces, for each column the
/// index of the bit that the next piece will take, and the side to move.
#[derive(Debug, PartialEq)]
pub struct Bitboard {
    turn: Color,
    red: u64,
    yellow: u64,
    empties: [u8; WIDTH],
}

impl Clone for Bitboard {
    fn clone(&self) -> (copy: Bitboard)
        ensures
            copy == *self,
    {
        Bitboard { turn: self.turn, red: self.red, yellow: self.yellow, empties: self.empties }
    }
}

impl Bitboard {
    /// What the two masks say of bit `i`.
    closed spec fn square(&self, i: int) -> Option<Color> {
        if bit(self.red, i) {
            Some(Color::Red)
        } else if bit(self.yellow, i) {
            Some(Color::Yellow)
        } else {
            None
        }
    }

    /// Whether bit `i` is a square below the fill counter of its column.
    closed spec fn filled(&self, i: int) -> bool {
        0 <= i < 49 && i < self.empties[i / 7]
    }

    /// The mask of the pieces of `color`.
    closed spec fn mask(&self, color: Color) -> u64 {
        match color {
            Color::Red => self.red,
            Color::Yellow => self.yellow,
        }
    }

    /// Under the invariant, the bits of the masks are the cells of the
    /// position, the guard row included.
    proof fn lemma_cells(&self)
        requires
            self.wf(),
        ensures
            forall|c: int, r: int|
                0 <= c < 7 && 0 <= r < 7 ==> #[trigger] self.position().cell(c, r) == self.square(
                    7 * c + r,
                ),
            forall|c: int| 0 <= c < 7 ==> #[trigger] self.position().height(c) == self.empties[c] - 7 * c,
            forall|color: Color, i: int|
                #[trigger] bit(self.mask(color), i) <==> self.square(i) == Some(color),
            forall|i: int| self.square(i) is Some ==> 0 <= i < 49 && i % 7 < 6,
    {
        assert forall|c: int, r: int| 0 <= c < 7 && 0 <= r < 7 implies #[trigger] self.position().cell(
            c,
            r,
        ) == self.square(7 * c + r) by {
            let i = 7 * c + r;
            assert(i / 7 == c);
            assert(self.square(i) is Some == self.filled(i));
        }
        assert forall|color: Color, i: int| #[trigger]
            bit(self.mask(color), i) <==> self.square(i) == Some(color) by {
            if 0 <= i < 64 {
                assert(self.square(i) is Some == self.filled(i));
            }
        }
        assert forall|i: int| self.square(i) is Some implies 0 <= i < 49 && i % 7 < 6 by {
            assert(self.square(i) is Some == self.filled(i));
        }
    }
}

impl Bitboard {
    /// The picture of the board: the rows from the top one down, a rule, and
    /// the side to move.
    pub fn to_string(&self) -> (text: String)
        requires
            self.wf(),
        ensures
            text@ == self.position().text(),
    {
        let ghost p = self.position();
        let mut text = String::new();
        let mut row = HEIGHT;
        while row > 0
            invariant
                self.wf(),
                p == self.position(),
                row <= 6,
                text@ == p.rows_text(row as int),
            decreases row,
        {
            row -= 1;
            let ghost above = text@;
            assert(text@ =~= above + p.row_start(row as int, 0));
            for col in 0..WIDTH
                invariant
                    self.wf(),
                    p == self.position(),
                    row < 6,
                    text@ == above + p.row_start(row as int, col as nat),
            {
                let index = row + col * 7;
                proof {
                    self.lemma_cells();
                    lemma_probe(self.red, index as int);
                    lemma_probe(self.yellow, index as int);
                    assert(p.cell(col as int, row as int) == self.square(7 * col + row));
                }
                let square = if self.red & 1u64 << index != 0 {
                    Some(Color::Red)
                } else if self.yellow & 1u64 << index != 0 {
                    Some(Color::Yellow)
                } else {
                    None
                };
                push_square(&mut text, square);
                assert(text@ =~= above + p.row_start(row as int, (col + 1) as nat));
            }
            push_newline(&mut text);
            assert(text@ =~= p.rows_text(row as int));
        }
        push_footer(&mut text, self.turn);
        text
    }
}

impl Representation for Bitboard {
    closed spec fn position(&self) -> Position {
        Position {
            columns: Seq::new(
                7,
                |c: int|
                    Seq::new(
                        (self.empties[c] - 7 * c) as nat,
                        |r: int| owner(self.square(7 * c + r)),
                    ),
            ),
            turn: self.turn,
        }
    }

    closed spec fn wf(&self) -> bool {
        &&& forall|c: int| 0 <= c < 7 ==> 7 * c <= #[trigger] self.empties[c] <= 7 * c + 6
        &&& forall|i: int|
            0 <= i < 64 ==> (#[trigger] self.square(i) is Some) == self.filled(i) && !(bit(
                self.red,
                i,
            ) && bit(self.yellow, i))
    }

    open spec fn key(heights: Seq<nat>) -> u64 {
        occupancy(heights)
    }

    proof fn lemma_position_wf(&self) {
    }

    proof fn lemma_position_determines(&self, other: &Self) {
        self.lemma_cells();
        other.lemma_cells();
        assert(self.empties =~= other.empties) by {
            assert forall|c: int| 0 <= c < 7 implies self.empties[c] == other.empties[c] by {
                assert(self.position().columns[c].len() == self.empties[c] - 7 * c);
                assert(other.position().columns[c].len() == other.empties[c] - 7 * c);
            }
        }
        assert forall|i: int| 0 <= i < 64 implies self.square(i) == other.square(i) by {
            assert(self.square(i) is Some == self.filled(i));
            assert(other.square(i) is Some == other.filled(i));
            if self.filled(i) {
                let c = i / 7;
                let r = i % 7;
                assert(self.position().cell(c, r) == self.square(7 * c + r));
                assert(other.position().cell(c, r) == other.square(7 * c + r));
            }
        }
        assert forall|i: int| 0 <= i < 64 implies bit(self.red, i) == bit(other.red, i) by {
            assert(self.square(i) == other.square(i));
        }
        assert forall|i: int| 0 <= i < 64 implies bit(self.yellow, i) == bit(other.yellow, i) by {
            assert(self.square(i) == other.square(i));
            assert(self.square(i) is Some == self.filled(i));
            assert(other.square(i) is Some == other.filled(i));
        }
        lemma_same_bits(self.red, other.red);
        lemma_same_bits(self.yellow, other.yellow);
    }

    fn empty() -> (board: Self) {
        let board = Bitboard {
            turn: Color::Red,
            red: 0,
            yellow: 0,
            empties: [0, 7, 14, 21, 28, 35, 42],
        };
        proof {
            assert forall|i: int| 0 <= i < 64 implies !bit(0u64, i) by {
                let j = i as u64;
                assert((0u64 >> j) & 1 != 1) by (bit_vector);
            }
            assert(board.position().columns =~= Position::empty().columns) by {
                assert forall|c: int| 0 <= c < 7 implies board.position().columns[c]
                    =~= Position::empty().columns[c] by {}
            }
        }
        board
    }

    fn make_move(&mut self, mv: Move) {
        let ghost e = self.empties[mv.col as int] as int;
        proof {
            assert(self.square(e) is Some == self.filled(e));
            assert(e / 7 == mv.col);
        }
        match self.turn {
            Color::Red => {
                self.red ^= 1u64 << self.empties[mv.col];
            },
            Color::Yellow => {
                self.yellow ^= 1u64 << self.empties[mv.col];
            },
        }
        self.empties[mv.col] += 1;
        self.turn = self.turn.not();
        proof {
            let before = old(self);
            assert forall|i: int| 0 <= i < 64 implies self.square(i) == (if i == e {
                Some(before.turn)
            } else {
                before.square(i)
            }) && self.filled(i) == (before.filled(i) || i == e) by {
                lemma_toggle(before.red, e, i);
                lemma_toggle(before.yellow, e, i);
                assert(before.square(i) is Some == before.filled(i));
            }
            assert forall|i: int| 0 <= i < 64 implies (#[trigger] self.square(i) is Some)
                == self.filled(i) && !(bit(self.red, i) && bit(self.yellow, i)) by {
                lemma_toggle(before.red, e, i);
                lemma_toggle(before.yellow, e, i);
                assert(before.square(i) is Some == before.filled(i));
            }
            let target = before.position().apply(mv.col as int);
            assert(self.position().columns =~= target.columns) by {
                assert forall|c: int| 0 <= c < 7 implies self.position().columns[c]
                    =~= target.columns[c] by {
                    assert forall|r: int| 0 <= r < self.position().columns[c].len() implies self.position().columns[c][r]
                        == target.columns[c][r] by {
                        let i = 7 * c + r;
                        assert(i / 7 == c);
                        assert(self.square(i) == (if i == e {
                            Some(before.turn)
                        } else {
                            before.square(i)
                        }));
                    }
                }
            }
        }
    }

    fn unmake_move(&mut self, mv: Move) {
        proof {
            self.lemma_cells();
        }
        self.turn = self.turn.not();
        self.empties[mv.col] -= 1;
        let ghost e = self.empties[mv.col as int] as int;
        proof {
            let c = mv.col as int;
            assert(e / 7 == c);
            assert(old(self).position().cell(c, e - 7 * c) == old(self).square(7 * c + (e - 7 * c)));
            assert(old(self).square(e) == Some(self.turn));
        }
        match self.turn {
            Color::Red => {
                self.red ^= 1u64 << self.empties[mv.col];
            },
            Color::Yellow => {
                self.yellow ^= 1u64 << self.empties[mv.col];
            },
        }
        proof {
            let before = old(self);
            assert forall|i: int| 0 <= i < 64 implies self.square(i) == (if i == e {
                None
            } else {
                before.square(i)
            }) && self.filled(i) == (before.filled(i) && i != e) by {
                lemma_toggle(before.red, e, i);
                lemma_toggle(before.yellow, e, i);
                assert(before.square(i) is Some == before.filled(i));
            }
            assert forall|i: int| 0 <= i < 64 implies (#[trigger] self.square(i) is Some)
                == self.filled(i) && !(bit(self.red, i) && bit(self.yellow, i)) by {
                lemma_toggle(before.red, e, i);
                lemma_toggle(before.yellow, e, i);
                assert(before.square(i) is Some == before.filled(i));
            }
            let target = before.position().undo(mv.col as int);
            assert(self.position().columns =~= target.columns) by {
                assert forall|c: int| 0 <= c < 7 implies self.position().columns[c]
                    =~= target.columns[c] by {
                    assert forall|r: int| 0 <= r < self.position().columns[c].len() implies self.position().columns[c][r]
                        == target.columns[c][r] by {
                        let i = 7 * c + r;
                        assert(i / 7 == c);
                        assert(self.square(i) == (if i == e {
                            None
                        } else {
                            before.square(i)
                        }));
                    }
                }
            }
        }
    }

    fn turn(&self) -> (c: Color) {
        self.turn
    }

    fn zobrist(&self) -> (k: u64) {
        proof {
            let heights = self.position().heights();
            assert forall|i: int| 0 <= i < 64 implies bit(self.red ^ self.yellow, i) == bit(
                occupancy(heights),
                i,
            ) by {
                lemma_xor_bit(self.red, self.yellow, i);
                lemma_occupancy(heights, i);
                assert(self.square(i) is Some == self.filled(i));
            }
            lemma_same_bits(self.red ^ self.yellow, occupancy(heights));
        }
        self.red ^ self.yellow
    }

    fn generate_moves(&self) -> (moves: Vec<Move>) {
        let mut moves: Vec<Move> = Vec::new();
        for col in 0..WIDTH
            invariant
                self.wf(),
                moves@ == self.position().legal_moves_below(col as int),
        {
            if self.empties[col] < TOPS[col] {
                moves.push(Move { col })
            }
        }
        moves
    }

    fn is_terminal(&self) -> (t: bool) {
        let bitboard = match self.turn {
            Color::Red => self.red,
            Color::Yellow => self.yellow,
        };
        proof {
            assert(bitboard == self.mask(self.turn));
            assert(bitboard & (bitboard >> 6) & (bitboard >> 12) & (bitboard >> 18) == run(bitboard, 6));
            assert(bitboard & (bitboard >> 8) & (bitboard >> 16) & (bitboard >> 24) == run(bitboard, 8));
            assert(bitboard & (bitboard >> 7) & (bitboard >> 14) & (bitboard >> 21) == run(bitboard, 7));
            assert(bitboard & (bitboard >> 1) & (bitboard >> 2) & (bitboard >> 3) == run(bitboard, 1));
            self.lemma_runs(self.turn);
        }
        if bitboard & (bitboard >> 6) & (bitboard >> 12) & (bitboard >> 18) != 0 {
            return true
        };
        if bitboard & (bitboard >> 8) & (bitboard >> 16) & (bitboard >> 24) != 0 {
            return true
        };
        if bitboard & (bitboard >> 7) & (bitboard >> 14) & (bitboard >> 21) != 0 {
            return true
        };
        if bitboard & (bitboard >> 1) & (bitboard >> 2) & (bitboard >> 3) != 0 {
            return true
        };
        false
    }
}

impl Bitboard {
    /// Four bits of one side's mask, each `k` above the last, are four of its
    /// pieces in a row: upwards for 1, to the right for 7, up and to the right
    /// for 8, down and to the right for 6.
    proof fn lemma_run_is_line(&self, color: Color, k: u64, i: int)
        requires
            self.wf(),
            k == 1 || k == 6 || k == 7 || k == 8,
            bit(run(self.mask(color), k), i),
        ensures
            self.position().has_four(color),
    {
        let p = self.position();
        let b = self.mask(color);
        self.lemma_cells();
        lemma_run(b, k, i);
        let c = i / 7;
        let r = i % 7;
        assert(self.square(i) == Some(color));
        assert(self.square(i + k) == Some(color));
        assert(self.square(i + 2 * k) == Some(color));
        assert(self.square(i + 3 * k) == Some(color));
        if k == 1 {
            assert(p.cell(c, r) == self.square(7 * c + r));
            assert(p.cell(c, r + 1) == self.square(7 * c + (r + 1)));
            assert(p.cell(c, r + 2) == self.square(7 * c + (r + 2)));
            assert(p.cell(c, r + 3) == self.square(7 * c + (r + 3)));
            assert(p.line(color, c, r, 0, 1));
            assert(p.four_at(color, c, r));
        } else if k == 7 {
            assert(p.cell(c, r) == self.square(7 * c + r));
            assert(p.cell(c + 1, r) == self.square(7 * (c + 1) + r));
            assert(p.cell(c + 2, r) == self.square(7 * (c + 2) + r));
            assert(p.cell(c + 3, r) == self.square(7 * (c + 3) + r));
            assert(p.line(color, c, r, 1, 0));
            assert(p.four_at(color, c, r));
        } else if k == 8 {
            assert(p.cell(c, r) == self.square(7 * c + r));
            assert(p.cell(c + 1, r + 1) == self.square(7 * (c + 1) + (r + 1)));
            assert(p.cell(c + 2, r + 2) == self.square(7 * (c + 2) + (r + 2)));
            assert(p.cell(c + 3, r + 3) == self.square(7 * (c + 3) + (r + 3)));
            assert(p.line(color, c, r, 1, 1));
            assert(p.four_at(color, c, r));
        } else {
            assert((i + 6) % 7 < 6);
            assert((i + 12) % 7 < 6);
            assert((i + 18) % 7 < 6);
            assert(r >= 3);
            assert(p.cell(c, r) == self.square(7 * c + r));
            assert(p.cell(c + 1, r - 1) == self.square(7 * (c + 1) + (r - 1)));
            assert(p.cell(c + 2, r - 2) == self.square(7 * (c + 2) + (r - 2)));
            assert(p.cell(c + 3, r - 3) == self.square(7 * (c + 3) + (r - 3)));
            assert(p.line(color, c + 3, r - 3, -1, 1));
            assert(p.four_at(color, c + 3, r - 3));
        }
    }

    /// One side has four in a row exactly where one of the four shifted
    /// products of its mask is not zero.
    proof fn lemma_runs(&self, color: Color)
        requires
            self.wf(),
        ensures
            self.position().has_four(color) <==> run(self.mask(color), 6) != 0 || run(
                self.mask(color),
                8,
            ) != 0 || run(self.mask(color), 7) != 0 || run(self.mask(color), 1) != 0,
    {
        let p = self.position();
        let b = self.mask(color);
        self.lemma_cells();
        if run(b, 6) != 0 {
            lemma_some_bit(run(b, 6));
            self.lemma_run_is_line(color, 6, choose|i: int| bit(run(b, 6), i));
        }
        if run(b, 8) != 0 {
            lemma_some_bit(run(b, 8));
            self.lemma_run_is_line(color, 8, choose|i: int| bit(run(b, 8), i));
        }
        if run(b, 7) != 0 {
            lemma_some_bit(run(b, 7));
            self.lemma_run_is_line(color, 7, choose|i: int| bit(run(b, 7), i));
        }
        if run(b, 1) != 0 {
            lemma_some_bit(run(b, 1));
            self.lemma_run_is_line(color, 1, choose|i: int| bit(run(b, 1), i));
        }
        if p.has_four(color) {
            let (c, r) = choose|c: int, r: int|
                0 <= c < 7 && 0 <= r < 6 && #[trigger] p.four_at(color, c, r);
            p.lemma_four_in_bounds(color, c, r);
            if p.line(color, c, r, 1, 0) {
                let i = 7 * c + r;
                assert(p.cell(c, r) == self.square(7 * c + r));
                assert(p.cell(c + 1, r) == self.square(7 * (c + 1) + r));
                assert(p.cell(c + 2, r) == self.square(7 * (c + 2) + r));
                assert(p.cell(c + 3, r) == self.square(7 * (c + 3) + r));
                lemma_run(b, 7, i);
                lemma_bit_nonzero(run(b, 7), i);
            } else if p.line(color, c, r, 0, 1) {
                let i = 7 * c + r;
                assert(p.cell(c, r) == self.square(7 * c + r));
                assert(p.cell(c, r + 1) == self.square(7 * c + (r + 1)));
                assert(p.cell(c, r + 2) == self.square(7 * c + (r + 2)));
                assert(p.cell(c, r + 3) == self.square(7 * c + (r + 3)));
                lemma_run(b, 1, i);
                lemma_bit_nonzero(run(b, 1), i);
            } else if p.line(color, c, r, 1, 1) {
                let i = 7 * c + r;
                assert(p.cell(c, r) == self.square(7 * c + r));
                assert(p.cell(c + 1, r + 1) == self.square(7 * (c + 1) + (r + 1)));
                assert(p.cell(c + 2, r + 2) == self.square(7 * (c + 2) + (r + 2)));
                assert(p.cell(c + 3, r + 3) == self.square(7 * (c + 3) + (r + 3)));
                lemma_run(b, 8, i);
                lemma_bit_nonzero(run(b, 8), i);
            } else {
                let i = 7 * (c - 3) + (r + 3);
                assert(p.cell(c, r) == self.square(7 * c + r));
                assert(p.cell(c - 1, r + 1) == self.square(7 * (c - 1) + (r + 1)));
                assert(p.cell(c - 2, r + 2) == self.square(7 * (c - 2) + (r + 2)));
                assert(p.cell(c - 3, r + 3) == self.square(7 * (c - 3) + (r + 3)));
                lemma_run(b, 6, i);
                lemma_bit_nonzero(run(b, 6), i);
            }
        }
    }
}

} // verus!
