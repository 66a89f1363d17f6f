//! The game's primitives, the contract that every board encoding has to
//! meet, and the move notation.

use vstd::prelude::*;
use crate::position::{footer, lemma_apply, lemma_replay_wf, rule, Position};

verus! {

/// Number of rows of the board.
pub const HEIGHT: usize = 6;

/// Number of columns of the board.
pub const WIDTH: usize = 7;

/// The side that owns a piece, or that is about to move.
#[derive(Debug, Copy, Clone, PartialEq, Eq, PartialOrd, Structural)]
pub enum Color {
    Red,
    Yellow,
}

impl Color {
    /// `+1` for the first player, `-1` for the second.
    pub open spec fn spec_magnitude(self) -> i8 {
        match self {
            Color::Red => 1i8,
            Color::Yellow => -1i8,
        }
    }

    /// The other side.
    pub open spec fn spec_not(self) -> Color {
        match self {
            Color::Red => Color::Yellow,
            Color::Yellow => Color::Red,
        }
    }

    /// The letter that stands for this side in a rendered board.
    pub open spec fn letter(self) -> char {
        match self {
            Color::Red => 'R',
            Color::Yellow => 'Y',
        }
    }

    #[verifier::when_used_as_spec(spec_magnitude)]
    pub fn magnitude(self) -> (m: i8)
        ensures
            m == self.spec_magnitude(),
    {
        match self {
            Color::Red => 1,
            Color::Yellow => -1,
        }
    }

    #[verifier::when_used_as_spec(spec_not)]
    pub fn not(self) -> (c: Color)
        ensures
            c == self.spec_not(),
    {
        match self {
            Color::Red => Color::Yellow,
            Color::Yellow => Color::Red,
        }
    }

    /// The side's letter as a string of its own.
    pub fn to_string(self) -> (s: String)
        ensures
            s@ == seq![self.letter()],
    {
        match self {
            Color::Red => {
                proof {
                    reveal_strlit("R");
                }
                "R".to_string()
            },
            Color::Yellow => {
                proof {
                    reveal_strlit("Y");
                }
                "Y".to_string()
            },
        }
    }
}

/// Appends the character that shows `square` to `text`.
pub(crate) fn push_square(text: &mut String, square: Option<Color>)
    ensures
        final(text)@ == old(text)@.push(
            match square {
                Some(color) => color.letter(),
                None => ' ',
            },
        ),
{
    proof {
        reveal_strlit("R");
        reveal_strlit("Y");
        reveal_strlit(" ");
    }
    let ghost before = text@;
    match square {
        Some(Color::Red) => {
            text.append("R");
            assert("R"@ =~= seq!['R']);
            assert(text@ =~= before.push('R'));
        },
        Some(Color::Yellow) => {
            text.append("Y");
            assert("Y"@ =~= seq!['Y']);
            assert(text@ =~= before.push('Y'));
        },
        None => {
            text.append(" ");
            assert(" "@ =~= seq![' ']);
            assert(text@ =~= before.push(' '));
        },
    }
}

/// Ends a line of `text`.
pub(crate) fn push_newline(text: &mut String)
    ensures
        final(text)@ == old(text)@.push('\n'),
{
    proof {
        reveal_strlit("\n");
    }
    let ghost before = text@;
    text.append("\n");
    assert("\n"@ =~= seq!['\n']);
    assert(text@ =~= before.push('\n'));
}

/// Appends what follows the rows of a picture to `text`: the rule and the
/// side to move.
pub(crate) fn push_footer(text: &mut String, turn: Color)
    ensures
        final(text)@ == old(text)@ + footer(turn),
{
    proof {
        reveal_strlit("Turn: ");
    }
    let ghost before = text@;
    assert(text@ =~= before + rule(0));
    for i in 0..WIDTH
        invariant
            text@ == before + rule(i as nat),
    {
        text.append("-");
        proof {
            reveal_strlit("-");
        }
        assert("-"@ =~= seq!['-']);
        assert(text@ =~= before + rule((i + 1) as nat));
    }
    push_newline(text);
    text.append("Turn: ");
    assert("Turn: "@ =~= seq!['T', 'u', 'r', 'n', ':', ' ']);
    push_square(text, Some(turn));
    push_newline(text);
    assert(text@ =~= before + footer(turn));
}

/// A move: the column that receives the piece, counted from 0.
#[derive(Debug, Copy, Clone, PartialEq, Eq, PartialOrd, Structural)]
pub struct Move {
    pub col: usize,
}

/// The column that a character of the move notation names, if it names one.
pub open spec fn column_of(c: char) -> Option<int> {
    if '1' <= c <= '7' {
        Some(c as int - '1' as int)
    } else {
        None
    }
}

/// Whether every character of `s` names a column.
pub open spec fn recognized(s: Seq<char>) -> bool {
    forall|i: int| 0 <= i < s.len() ==> column_of(#[trigger] s[i]) is Some
}

/// The columns that the characters of `s` name, where each names one.
pub open spec fn columns_of(s: Seq<char>) -> Seq<int> {
    Seq::new(s.len(), |i: int| s[i] as int - '1' as int)
}

/// The text of the error for a character that names no column.
pub open spec fn unrecognized() -> Seq<char> {
    "unrecognized move"@
}

impl Move {
    /// Reads one character of the move notation: `'1'` to `'7'` name the
    /// columns 0 to 6, and nothing else is a move.
    pub fn parse(mv: char) -> (r: Result<Move, String>)
        ensures
            match r {
                Ok(m) => column_of(mv) == Some(m.col as int),
                Err(e) => column_of(mv) is None && e@ == unrecognized(),
            },
    {
        match mv {
            '1' => Ok(Move { col: 0 }),
            '2' => Ok(Move { col: 1 }),
            '3' => Ok(Move { col: 2 }),
            '4' => Ok(Move { col: 3 }),
            '5' => Ok(Move { col: 4 }),
            '6' => Ok(Move { col: 5 }),
            '7' => Ok(Move { col: 6 }),
            _ => Err("unrecognized move".to_string()),
        }
    }
}

/// What every encoding of the board offers. An encoding stands for a
/// [`Position`], and each operation is stated over that position, so that
/// code written against this contract runs unchanged on any encoding.
pub trait Representation: Sized {
    /// The position that this board stands for.
    spec fn position(&self) -> Position;

    /// The encoding's own invariant.
    spec fn wf(&self) -> bool;

    /// The fingerprint that this encoding gives to a board whose columns are
    /// filled to `heights`.
    spec fn key(heights: Seq<nat>) -> u64;

    /// A well-formed board stands for a well-formed position.
    proof fn lemma_position_wf(&self)
        requires
            self.wf(),
        ensures
            self.position().wf(),
    ;

    /// Two well-formed boards that stand for the same position are equal in
    /// every field.
    proof fn lemma_position_determines(&self, other: &Self)
        requires
            self.wf(),
            other.wf(),
            self.position() == other.position(),
        ensures
            *self == *other,
    ;

    /// The board before the first move.
    fn empty() -> (board: Self)
        ensures
            board.wf(),
            board.position() == Position::empty(),
    ;

    /// Drops a piece of the side to move into column `mv.col`, which must not
    /// be full.
    fn make_move(&mut self, mv: Move)
        requires
            old(self).wf(),
            old(self).position().legal(mv.col as int),
        ensures
            final(self).wf(),
            final(self).position() == old(self).position().apply(mv.col as int),
    ;

    /// Takes back the move `mv`, which must be the one made last: removes the
    /// top piece of column `mv.col`, a piece of the side that is not to move.
    fn unmake_move(&mut self, mv: Move)
        requires
            old(self).wf(),
            old(self).position().undoable(mv.col as int),
        ensures
            final(self).wf(),
            final(self).position() == old(self).position().undo(mv.col as int),
    ;

    /// A fingerprint of which cells are occupied. It depends on nothing but
    /// the fill heights: neither on the side to move nor on who owns a piece.
    fn zobrist(&self) -> (k: u64)
        requires
            self.wf(),
        ensures
            k == Self::key(self.position().heights()),
    ;

    /// The side to move.
    fn turn(&self) -> (c: Color)
        requires
            self.wf(),
        ensures
            c == self.position().turn,
    ;

    /// The columns that are not full, in increasing order.
    fn generate_moves(&self) -> (moves: Vec<Move>)
        requires
            self.wf(),
        ensures
            moves@ == self.position().legal_moves(),
    ;

    /// Whether the side to move already owns four in a row.
    fn is_terminal(&self) -> (t: bool)
        requires
            self.wf(),
        ensures
            t == self.position().is_terminal(),
    ;
}

/// Whether the moves that `s` names can be played from the empty board as
/// far as `s` is read: up to its first character that names no column, no
/// move goes into a full column.
pub open spec fn replayable(s: Seq<char>) -> bool {
    forall|n: int|
        0 <= n <= s.len() && recognized(#[trigger] s.take(n)) ==> Position::empty().playable(
            columns_of(s.take(n)),
        )
}

/// Tells whether `input` can be handed to [`parse`].
pub fn playable(input: &str) -> (ok: bool)
    ensures
        ok == replayable(input@),
{
    let mut heights: [usize; WIDTH] = [0; WIDTH];
    let ghost start = Position::empty();
    proof {
        assert(columns_of(input@.take(0)) =~= Seq::<int>::empty());
    }
    for c in it: input.chars()
        invariant
            it.seq() == input@,
            recognized(input@.take(it.index() as int)),
            start == Position::empty(),
            forall|c: int|
                0 <= c < 7 ==> #[trigger] heights[c] == start.replay(
                    columns_of(input@.take(it.index() as int)),
                ).height(c),
            forall|k: int|
                0 <= k <= it.index() ==> start.playable(columns_of(#[trigger] input@.take(k))),
    {
        let ghost i = it.index() as int;
        let ghost read = input@.take(i);
        let ghost next = input@.take(i + 1);
        proof {
            assert(next.drop_last() =~= read);
            assert(columns_of(next).drop_last() =~= columns_of(read));
            lemma_replay_wf(start, columns_of(read));
        }
        match Move::parse(c) {
            Ok(mv) => {
                proof {
                    assert(columns_of(next).last() == mv.col as int);
                    lemma_recognized_push(next);
                }
                if heights[mv.col] >= HEIGHT {
                    assert(!start.playable(columns_of(next)));
                    return false;
                }
                proof {
                    lemma_apply(start.replay(columns_of(read)), mv.col as int);
                }
                heights[mv.col] += 1;
            },
            Err(_) => {
                proof {
                    assert forall|k: int|
                        0 <= k <= input@.len() && recognized(
                            #[trigger] input@.take(k),
                        ) implies start.playable(columns_of(input@.take(k))) by {
                        if k > i {
                            assert(input@.take(k)[i] == input@[i]);
                        }
                    }
                }
                return true;
            },
        }
    }
    true
}

/// A text is recognized where all but its last character are, and its last.
proof fn lemma_recognized_push(s: Seq<char>)
    requires
        s.len() > 0,
        recognized(s.drop_last()),
        column_of(s.last()) is Some,
    ensures
        recognized(s),
{
    assert forall|j: int| 0 <= j < s.len() implies column_of(#[trigger] s[j]) is Some by {
        if j < s.len() - 1 {
            assert(s[j] == s.drop_last()[j]);
        }
    }
}

/// Builds a board from move notation: every character is read as a move and
/// played, from the empty board on. The first character that names no column
/// ends the reading with its error.
///
/// Every move that is read has to be legal when it is played: the part of the
/// text before the first unrecognized character must not overfill a column.
pub fn parse<R: Representation>(input: &str) -> (r: Result<R, String>)
    requires
        replayable(input@),
    ensures
        match r {
            Ok(board) => recognized(input@) && board.wf() && board.position()
                == Position::empty().replay(columns_of(input@)),
            Err(e) => !recognized(input@) && e@ == unrecognized(),
        },
{
    let mut board = R::empty();
    proof {
        assert(columns_of(input@.take(0)) =~= Seq::<int>::empty());
    }
    for c in it: input.chars()
        invariant
            it.seq() == input@,
            board.wf(),
            recognized(input@.take(it.index() as int)),
            board.position() == Position::empty().replay(
                columns_of(input@.take(it.index() as int)),
            ),
            replayable(input@),
    {
        let ghost i = it.index() as int;
        let ghost read = input@.take(i);
        let ghost next = input@.take(i + 1);
        match Move::parse(c) {
            Ok(mv) => {
                proof {
                    assert(next.drop_last() =~= read);
                    assert(columns_of(next).drop_last() =~= columns_of(read));
                    assert(columns_of(next).last() == mv.col as int);
                    lemma_recognized_push(next);
                    assert(Position::empty().playable(columns_of(next)));
                }
                board.make_move(mv);
            },
            Err(e) => {
                assert(column_of(input@[i]) is None);
                return Err(e);
            },
        }
    }
    assert(input@.take(input@.len() as int) =~= input@);
    Ok(board)
}

/// Making a legal move and taking it back restores the board in every
/// field: `made` is any board that `make_move` may leave, `after` any that
/// `unmake_move` may leave then.
pub proof fn lemma_unmake_restores<R: Representation>(before: &R, made: &R, after: &R, mv: Move)
    requires
        before.wf(),
        before.position().legal(mv.col as int),
        made.wf(),
        made.position() == before.position().apply(mv.col as int),
        after.wf(),
        after.position() == made.position().undo(mv.col as int),
    ensures
        made.position().undoable(mv.col as int),
        *after == *before,
{
    before.lemma_position_wf();
    lemma_apply(before.position(), mv.col as int);
    after.lemma_position_determines(before);
}

/// The fingerprint is stable: two boards reached by the same moves have the
/// same fingerprint, and so have a board and what a move and its undoing
/// make of it.
pub proof fn lemma_fingerprint_stable<R: Representation>(
    a: &R,
    b: &R,
    moves: Seq<int>,
    c: int,
)
    requires
        a.wf(),
        b.wf(),
        a.position() == Position::empty().replay(moves),
        b.position() == Position::empty().replay(moves),
        a.position().legal(c),
    ensures
        R::key(a.position().heights()) == R::key(b.position().heights()),
        R::key(a.position().apply(c).undo(c).heights()) == R::key(a.position().heights()),
{
    a.lemma_position_wf();
    lemma_apply(a.position(), c);
}

/// The fingerprint tells nothing but which squares are occupied: boards
/// with the same fill heights have the same fingerprint, whoever owns the
/// pieces and whoever is to move.
pub proof fn lemma_fingerprint_of_occupancy<R: Representation>(a: &R, b: &R)
    requires
        a.wf(),
        b.wf(),
        forall|c: int| 0 <= c < 7 ==> a.position().height(c) == b.position().height(c),
    ensures
        R::key(a.position().heights()) == R::key(b.position().heights()),
{
    assert forall|c: int| 0 <= c < 7 implies a.position().heights()[c]
        == b.position().heights()[c] by {
        assert(a.position().height(c) == b.position().height(c));
    }
    assert(a.position().heights() =~= b.position().heights());
}

} // verus!
