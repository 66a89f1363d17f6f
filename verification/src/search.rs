//! Game-tree search over any board encoding: plain negamax, alpha-beta
//! pruning, and the driver that picks a move.

use vstd::prelude::*;
use crate::board::{Move, Representation};
use crate::position::{lemma_apply, lemma_legal_moves, Position};

verus! {

/// The score of a won position, larger than any heuristic score.
pub const WIN_SCORE: i8 = 100;

/// The heuristic score of a position: neutral for all of them.
pub open spec fn evaluation(p: Position) -> int {
    0
}

/// The larger of two scores.
pub open spec fn larger(a: int, b: int) -> int {
    if a >= b {
        a
    } else {
        b
    }
}

/// The negamax score of `p`, searched `depth` plies deep.
pub open spec fn negamax_value(p: Position, depth: nat) -> int
    decreases depth, p.legal_moves().len() + 1,
{
    if p.is_terminal() {
        p.turn.magnitude() * 100
    } else if depth == 0 {
        p.turn.magnitude() * evaluation(p)
    } else {
        best_reply(p, depth, p.legal_moves().len())
    }
}

/// The best negated score among the first `n` legal moves of `p`, and -100
/// where there is none.
pub open spec fn best_reply(p: Position, depth: nat, n: nat) -> int
    decreases depth, n,
{
    if depth == 0 || n == 0 || n > p.legal_moves().len() {
        -100
    } else {
        larger(
            best_reply(p, depth, (n - 1) as nat),
            -negamax_value(p.apply(p.legal_moves()[n - 1].col as int), (depth - 1) as nat),
        )
    }
}

/// The score that alpha-beta search gives `p` at `depth` plies, with the
/// window `alpha` to `beta` and the sign `color`.
pub open spec fn alphabeta_value(p: Position, depth: nat, alpha: int, beta: int, color: int) -> int
    decreases depth, p.legal_moves().len() + 1,
{
    if p.is_terminal() {
        color * 100
    } else if depth == 0 {
        color * evaluation(p)
    } else {
        alphabeta_scan(p, depth, alpha, beta, color, 0, -100)
    }
}

/// The rest of an alpha-beta scan of the legal moves of `p`: the moves before
/// the `i`-th are done, `value` is the best negated score so far, and `alpha`
/// has been raised to it. The scan stops as soon as `alpha` reaches `beta`.
pub open spec fn alphabeta_scan(
    p: Position,
    depth: nat,
    alpha: int,
    beta: int,
    color: int,
    i: nat,
    value: int,
) -> int
    decreases depth, p.legal_moves().len() - i,
{
    if depth == 0 || i >= p.legal_moves().len() {
        value
    } else {
        let reply = -alphabeta_value(
            p.apply(p.legal_moves()[i as int].col as int),
            (depth - 1) as nat,
            -beta,
            -alpha,
            -color,
        );
        let best = larger(value, reply);
        let raised = larger(alpha, best);
        if raised >= beta {
            best
        } else {
            alphabeta_scan(p, depth, raised, beta, color, i + 1, best)
        }
    }
}

/// The score that the root of a search gives to the move into column `c`: the
/// negated alpha-beta score of the position after it, one ply less deep.
pub open spec fn root_reply(p: Position, depth: nat, c: int) -> int {
    -alphabeta_value(
        p.apply(c),
        (depth - 1) as nat,
        100,
        -100,
        p.apply(c).turn.magnitude() as int,
    )
}

/// Whether `mv` with `score` is what a search of `p` chooses: the legal move
/// with the greatest score, and among several of them the one in the highest
/// column. Where no move is legal it is column 0 with the score -100.
pub open spec fn is_choice(p: Position, depth: nat, mv: Move, score: int) -> bool {
    if exists|c: int| p.legal(c) {
        &&& p.legal(mv.col as int)
        &&& score == root_reply(p, depth, mv.col as int)
        &&& forall|c: int| p.legal(c) ==> #[trigger] root_reply(p, depth, c) <= score
        &&& forall|c: int| p.legal(c) && c > mv.col ==> #[trigger] root_reply(p, depth, c) < score
    } else {
        mv.col == 0 && score == -100
    }
}

/// The heuristic score of a board: neutral for all of them.
pub fn evaluate<R: Representation>(board: &R) -> (score: i8)
    ensures
        score == evaluation(board.position()),
{
    0
}

/// Scores the board by negamax, `depth` plies deep, and leaves it as it was.
pub fn negamax<R: Representation>(board: &mut R, depth: usize) -> (value: i8)
    requires
        old(board).wf(),
    ensures
        *final(board) == *old(board),
        value == negamax_value(old(board).position(), depth as nat),
        -100 <= value <= 100,
    decreases depth,
{
    let ghost p = board.position();
    proof {
        board.lemma_position_wf();
    }
    let mag = board.turn().magnitude();
    if board.is_terminal() {
        return mag * WIN_SCORE;
    }
    if depth == 0 {
        return mag * evaluate(board);
    }
    let mut value: i8 = -WIN_SCORE;
    let moves = board.generate_moves();
    proof {
        lemma_legal_moves(p, 7);
    }
    for i in 0..moves.len()
        invariant
            board.wf(),
            p.wf(),
            *board == *old(board),
            board.position() == p,
            moves@ == p.legal_moves(),
            depth > 0,
            !p.is_terminal(),
            value == best_reply(p, depth as nat, i as nat),
            -100 <= value <= 100,
            forall|j: int| 0 <= j < moves.len() ==> p.legal((#[trigger] moves@[j]).col as int),
    {
        let mv = moves[i];
        proof {
            lemma_apply(p, mv.col as int);
        }
        board.make_move(mv);
        let reply = -negamax(board, depth - 1);
        if reply > value {
            value = reply;
        }
        board.unmake_move(mv);
        proof {
            board.lemma_position_determines(old(board));
        }
    }
    value
}

/// Scores the board by alpha-beta search, `depth` plies deep, and leaves it
/// as it was. `color` is the sign of the side to move, +1 or -1. The search
/// is fail-soft: outside the window the score is a bound.
pub fn alphabeta<R: Representation>(
    board: &mut R,
    depth: usize,
    mut alpha: i8,
    beta: i8,
    color: i8,
) -> (value: i8)
    requires
        old(board).wf(),
        color == 1 || color == -1,
        alpha > i8::MIN,
        beta > i8::MIN,
    ensures
        *final(board) == *old(board),
        value == alphabeta_value(
            old(board).position(),
            depth as nat,
            alpha as int,
            beta as int,
            color as int,
        ),
        -100 <= value <= 100,
    decreases depth,
{
    let ghost p = board.position();
    let ghost first_alpha = alpha as int;
    proof {
        board.lemma_position_wf();
    }
    if board.is_terminal() {
        return color * WIN_SCORE;
    }
    if depth == 0 {
        return color * evaluate(board);
    }
    let mut value: i8 = -WIN_SCORE;
    let moves = board.generate_moves();
    proof {
        lemma_legal_moves(p, 7);
    }
    let mut i: usize = 0;
    while i < moves.len()
        invariant_except_break
            alphabeta_scan(
                p,
                depth as nat,
                alpha as int,
                beta as int,
                color as int,
                i as nat,
                value as int,
            ) == alphabeta_scan(p, depth as nat, first_alpha, beta as int, color as int, 0, -100),
        invariant
            i <= moves.len(),
            board.wf(),
            p.wf(),
            *board == *old(board),
            board.position() == p,
            moves@ == p.legal_moves(),
            depth > 0,
            color == 1 || color == -1,
            alpha > i8::MIN,
            beta > i8::MIN,
            -100 <= value <= 100,
            forall|j: int| 0 <= j < moves.len() ==> p.legal((#[trigger] moves@[j]).col as int),
        ensures
            value == alphabeta_scan(
                p,
                depth as nat,
                first_alpha,
                beta as int,
                color as int,
                0,
                -100,
            ),
        decreases moves.len() - i,
    {
        let mv = moves[i];
        proof {
            lemma_apply(p, mv.col as int);
        }
        board.make_move(mv);
        let reply = -alphabeta(board, depth - 1, -beta, -alpha, -color);
        if reply > value {
            value = reply;
        }
        if value > alpha {
            alpha = value;
        }
        board.unmake_move(mv);
        proof {
            board.lemma_position_determines(old(board));
        }
        if alpha >= beta {
            break ;
        }
        i += 1;
    }
    value
}

/// Picks a move for the side to move by searching `depth` plies deep, and
/// leaves the board as it was. The board must not be terminal, and the depth
/// at least one.
pub fn search<R: Representation>(board: &mut R, depth: usize) -> (choice: (Move, i8))
    requires
        old(board).wf(),
        !old(board).position().is_terminal(),
        depth > 0,
    ensures
        *final(board) == *old(board),
        is_choice(old(board).position(), depth as nat, choice.0, choice.1 as int),
        -100 <= choice.1 <= 100,
{
    let ghost p = board.position();
    proof {
        board.lemma_position_wf();
    }
    let mut best_move = Move { col: 0 };
    let mut best_value: i8 = -WIN_SCORE;
    let moves = board.generate_moves();
    let ghost mut best: int = 0;
    proof {
        lemma_legal_moves(p, 7);
    }
    for i in 0..moves.len()
        invariant
            board.wf(),
            p.wf(),
            *board == *old(board),
            board.position() == p,
            moves@ == p.legal_moves(),
            depth > 0,
            -100 <= best_value <= 100,
            forall|j: int| 0 <= j < moves.len() ==> p.legal((#[trigger] moves@[j]).col as int),
            i == 0 ==> best_move.col == 0 && best_value == -100,
            i > 0 ==> 0 <= best < i && best_move == moves@[best] && best_value == root_reply(
                p,
                depth as nat,
                best_move.col as int,
            ),
            forall|j: int|
                0 <= j < i ==> root_reply(p, depth as nat, (#[trigger] moves@[j]).col as int)
                    <= best_value,
            forall|j: int|
                best < j < i ==> root_reply(p, depth as nat, (#[trigger] moves@[j]).col as int)
                    < best_value,
    {
        let mv = moves[i];
        proof {
            lemma_apply(p, mv.col as int);
        }
        board.make_move(mv);
        let value = -alphabeta(
            board,
            depth - 1,
            WIN_SCORE,
            -WIN_SCORE,
            board.turn().magnitude(),
        );
        board.unmake_move(mv);
        proof {
            board.lemma_position_determines(old(board));
        }
        if value >= best_value {
            best_value = value;
            best_move = mv;
            proof {
                best = i as int;
            }
        }
    }
    proof {
        if moves.len() == 0 {
            assert forall|c: int| !p.legal(c) by {
                if p.legal(c) {
                    assert(moves@.contains(Move { col: c as usize }));
                }
            }
        } else {
            assert(p.legal(best_move.col as int));
            assert forall|c: int| p.legal(c) implies #[trigger] root_reply(p, depth as nat, c)
                <= best_value && (c > best_move.col ==> root_reply(p, depth as nat, c)
                < best_value) by {
                let m = Move { col: c as usize };
                assert(moves@.contains(m));
                let j = choose|j: int| 0 <= j < moves@.len() && moves@[j] == m;
                assert(moves@[j].col == c);
                if c > best_move.col {
                    assert(j > best) by {
                        if j < best {
                            assert(moves@[j].col < moves@[best].col);
                        }
                    }
                }
            }
        }
    }
    (best_move, best_value)
}

/// A negamax score lies between -100 and 100.
pub proof fn lemma_negamax_bound(p: Position, depth: nat)
    ensures
        -100 <= negamax_value(p, depth) <= 100,
    decreases depth, p.legal_moves().len() + 1,
{
    if !p.is_terminal() && depth > 0 {
        lemma_best_reply_bound(p, depth, p.legal_moves().len());
    }
}

/// The best of the first `n` replies lies between -100 and 100.
pub proof fn lemma_best_reply_bound(p: Position, depth: nat, n: nat)
    ensures
        -100 <= best_reply(p, depth, n) <= 100,
    decreases depth, n,
{
    if depth > 0 && 0 < n <= p.legal_moves().len() {
        lemma_best_reply_bound(p, depth, (n - 1) as nat);
        lemma_negamax_bound(p.apply(p.legal_moves()[n - 1].col as int), (depth - 1) as nat);
    }
}

/// An alpha-beta score lies between -100 and 100, whatever the window.
pub proof fn lemma_alphabeta_bound(p: Position, depth: nat, alpha: int, beta: int, color: int)
    requires
        color == 1 || color == -1,
    ensures
        -100 <= alphabeta_value(p, depth, alpha, beta, color) <= 100,
    decreases depth, p.legal_moves().len() + 1,
{
    if !p.is_terminal() && depth > 0 {
        lemma_alphabeta_scan_bound(p, depth, alpha, beta, color, 0, -100);
    }
}

/// The rest of a scan that starts from a score between -100 and 100 ends
/// with one.
pub proof fn lemma_alphabeta_scan_bound(
    p: Position,
    depth: nat,
    alpha: int,
    beta: int,
    color: int,
    i: nat,
    value: int,
)
    requires
        color == 1 || color == -1,
        -100 <= value <= 100,
    ensures
        -100 <= alphabeta_scan(p, depth, alpha, beta, color, i, value) <= 100,
    decreases depth, p.legal_moves().len() - i,
{
    if depth > 0 && i < p.legal_moves().len() {
        let q = p.apply(p.legal_moves()[i as int].col as int);
        lemma_alphabeta_bound(q, (depth - 1) as nat, -beta, -alpha, -color);
        let reply = -alphabeta_value(q, (depth - 1) as nat, -beta, -alpha, -color);
        let best = larger(value, reply);
        let raised = larger(alpha, best);
        if raised < beta {
            lemma_alphabeta_scan_bound(p, depth, raised, beta, color, i + 1, best);
        }
    }
}

/// What a search chooses lies between -100 and 100.
pub proof fn lemma_choice_bound(p: Position, depth: nat, mv: Move, score: int)
    requires
        is_choice(p, depth, mv, score),
    ensures
        -100 <= score <= 100,
{
    if exists|c: int| p.legal(c) {
        let q = p.apply(mv.col as int);
        lemma_alphabeta_bound(q, (depth - 1) as nat, 100, -100, q.turn.magnitude() as int);
    }
}

/// A search is a function of the position and the depth: two choices for the
/// same position at the same depth are the same move with the same score.
pub proof fn lemma_choice_unique(
    p: Position,
    depth: nat,
    mv: Move,
    score: int,
    other_mv: Move,
    other_score: int,
)
    requires
        is_choice(p, depth, mv, score),
        is_choice(p, depth, other_mv, other_score),
    ensures
        mv == other_mv,
        score == other_score,
{
    if exists|c: int| p.legal(c) {
        assert(root_reply(p, depth, mv.col as int) <= other_score);
        assert(root_reply(p, depth, other_mv.col as int) <= score);
        if mv.col < other_mv.col {
            assert(root_reply(p, depth, other_mv.col as int) < score);
        } else if other_mv.col < mv.col {
            assert(root_reply(p, depth, mv.col as int) < other_score);
        }
    }
}

/// The best of the first replies is no better than the best of all.
pub proof fn lemma_best_reply_grows(p: Position, depth: nat, n: nat, m: nat)
    requires
        n <= m <= p.legal_moves().len(),
    ensures
        best_reply(p, depth, n) <= best_reply(p, depth, m),
    decreases m,
{
    if n < m {
        lemma_best_reply_grows(p, depth, n, (m - 1) as nat);
    }
}

/// How a score relates to the negamax score `exact` when it was searched
/// with the window `alpha` to `beta`: inside the window it is exact, at or
/// below `alpha` it is an upper bound, at or above `beta` a lower bound.
pub open spec fn within_window(score: int, exact: int, alpha: int, beta: int) -> bool {
    &&& score <= alpha ==> exact <= score
    &&& alpha < score < beta ==> exact == score
    &&& score >= beta ==> exact >= score
}

/// Alpha-beta search with a window that is not empty, and with the sign of
/// the side to move, finds the negamax score wherever that lies inside the
/// window, and a bound on it on the side where it lies outside.
pub proof fn lemma_alphabeta_is_negamax(p: Position, depth: nat, alpha: int, beta: int)
    requires
        alpha < beta,
    ensures
        within_window(
            alphabeta_value(p, depth, alpha, beta, p.turn.magnitude() as int),
            negamax_value(p, depth),
            alpha,
            beta,
        ),
    decreases depth, p.legal_moves().len() + 1,
{
    if !p.is_terminal() && depth > 0 {
        lemma_alphabeta_scan_is_negamax(p, depth, alpha, beta, 0, -100, alpha);
    }
}

/// The rest of a scan finds the best reply in the same sense, where the
/// scan so far has found the best of the replies it has seen.
pub proof fn lemma_alphabeta_scan_is_negamax(
    p: Position,
    depth: nat,
    first_alpha: int,
    beta: int,
    i: nat,
    value: int,
    alpha: int,
)
    requires
        depth > 0,
        i <= p.legal_moves().len(),
        -100 <= value <= 100,
        alpha < beta,
        alpha == larger(first_alpha, value) || (value == -100 && alpha == first_alpha),
        value <= first_alpha ==> best_reply(p, depth, i) <= value,
        value > first_alpha ==> best_reply(p, depth, i) == value,
    ensures
        within_window(
            alphabeta_scan(p, depth, alpha, beta, p.turn.magnitude() as int, i, value),
            best_reply(p, depth, p.legal_moves().len()),
            first_alpha,
            beta,
        ),
    decreases depth, p.legal_moves().len() - i,
{
    let color = p.turn.magnitude() as int;
    if i < p.legal_moves().len() {
        let q = p.apply(p.legal_moves()[i as int].col as int);
        let below = (depth - 1) as nat;
        lemma_alphabeta_is_negamax(q, below, -beta, -alpha);
        lemma_alphabeta_bound(q, below, -beta, -alpha, -color);
        let reply = -alphabeta_value(q, below, -beta, -alpha, -color);
        let exact = -negamax_value(q, below);
        let best = larger(value, reply);
        let raised = larger(alpha, best);
        assert(best_reply(p, depth, i + 1) == larger(best_reply(p, depth, i), exact));
        if raised >= beta {
            lemma_best_reply_grows(p, depth, i + 1, p.legal_moves().len());
        } else {
            lemma_alphabeta_scan_is_negamax(p, depth, first_alpha, beta, i + 1, best, raised);
        }
    }
}

/// With a window that is empty from the start the scan ends after the first
/// legal move: the score is that move's negated score, whatever the other
/// moves would bring. The root of [`search`] hands such a window down, so
/// below the root it follows the lowest legal column at every ply.
pub proof fn lemma_empty_window_takes_first_move(
    p: Position,
    depth: nat,
    alpha: int,
    beta: int,
    color: int,
)
    requires
        color == 1 || color == -1,
        alpha >= beta,
        !p.is_terminal(),
        depth > 0,
        p.legal_moves().len() > 0,
    ensures
        alphabeta_value(p, depth, alpha, beta, color) == -alphabeta_value(
            p.apply(p.legal_moves()[0].col as int),
            (depth - 1) as nat,
            -beta,
            -alpha,
            -color,
        ),
{
    let q = p.apply(p.legal_moves()[0].col as int);
    lemma_alphabeta_bound(q, (depth - 1) as nat, -beta, -alpha, -color);
}

} // verus!
