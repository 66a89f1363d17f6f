//! Counting the positions that can be reached from a board. The count is a
//! function of the position alone, so it must come out the same on every
//! encoding: that makes it a cross-check between them.

use vstd::prelude::*;
use crate::board::Representation;
use crate::position::{lemma_apply, lemma_count_bound, lemma_legal_moves, Position};

verus! {

/// Number of positions visited from `p` when every continuation is played
/// until the side to move has four in a row, no move is left, or `budget`
/// moves were made: `p` itself and all that follow it.
pub open spec fn nodes(p: Position, budget: nat) -> nat
    decreases budget, p.legal_moves().len() + 1,
{
    if p.is_terminal() || budget == 0 {
        1
    } else {
        1 + nodes_among(p, budget, p.legal_moves().len())
    }
}

/// The positions visited through the first `n` legal moves of `p`.
pub open spec fn nodes_among(p: Position, budget: nat, n: nat) -> nat
    decreases budget, n,
{
    if budget == 0 || n == 0 || n > p.legal_moves().len() {
        0
    } else {
        nodes_among(p, budget, (n - 1) as nat) + nodes(
            p.apply(p.legal_moves()[n - 1].col as int),
            (budget - 1) as nat,
        )
    }
}

/// Number of empty squares of `p`: the most moves that can still be made.
pub open spec fn room(p: Position) -> nat {
    (42 - p.count()) as nat
}

/// Size of the full tree with seven moves at every position, `budget` deep.
pub open spec fn full_tree(budget: nat) -> nat
    decreases budget,
{
    if budget == 0 {
        1
    } else {
        1 + 7 * full_tree((budget - 1) as nat)
    }
}

/// The first moves lead to no more positions than all of them.
pub proof fn lemma_nodes_among_grows(p: Position, budget: nat, n: nat, m: nat)
    requires
        n <= m <= p.legal_moves().len(),
    ensures
        nodes_among(p, budget, n) <= nodes_among(p, budget, m),
    decreases m,
{
    if n < m {
        lemma_nodes_among_grows(p, budget, n, (m - 1) as nat);
    }
}

/// No tree of positions is larger than the full tree of its depth.
pub proof fn lemma_nodes_bound(p: Position, budget: nat)
    ensures
        nodes(p, budget) <= full_tree(budget),
    decreases budget, p.legal_moves().len() + 1,
{
    if !p.is_terminal() && budget > 0 {
        let n = p.legal_moves().len();
        let below = full_tree((budget - 1) as nat);
        lemma_legal_moves(p, 7);
        lemma_nodes_among_bound(p, budget, n);
        assert(n * below <= 7 * below) by (nonlinear_arith)
            requires
                n <= 7,
        ;
    }
}

/// The first `n` moves lead to no more positions than `n` full trees.
pub proof fn lemma_nodes_among_bound(p: Position, budget: nat, n: nat)
    requires
        budget > 0,
        n <= p.legal_moves().len(),
    ensures
        nodes_among(p, budget, n) <= n * full_tree((budget - 1) as nat),
    decreases budget, n,
{
    if n > 0 {
        lemma_nodes_among_bound(p, budget, (n - 1) as nat);
        lemma_nodes_bound(p.apply(p.legal_moves()[n - 1].col as int), (budget - 1) as nat);
        assert(n * full_tree((budget - 1) as nat) == (n - 1) * full_tree((budget - 1) as nat)
            + full_tree((budget - 1) as nat)) by (nonlinear_arith);
    }
}

/// With at most 22 empty squares the count fits into 64 bits.
pub proof fn lemma_nodes_fit(p: Position)
    requires
        p.wf(),
        room(p) <= 22,
    ensures
        nodes(p, room(p)) <= u64::MAX,
{
    lemma_nodes_bound(p, room(p));
    lemma_full_tree_grows(room(p), 22);
    reveal_with_fuel(full_tree, 23);
    assert(full_tree(22) == 4561457890013486057);
}

/// A deeper full tree is no smaller.
pub proof fn lemma_full_tree_grows(a: nat, b: nat)
    requires
        a <= b,
    ensures
        full_tree(a) <= full_tree(b),
    decreases b,
{
    if a < b {
        lemma_full_tree_grows(a, (b - 1) as nat);
    }
}

/// Counts the positions that can be reached from the board, the board's own
/// included, and leaves the board as it was. Play ends where the side to move
/// has four in a row or no move is left.
pub fn perft<R: Representation>(board: &mut R) -> (count: u64)
    requires
        old(board).wf(),
        nodes(old(board).position(), room(old(board).position())) <= u64::MAX,
    ensures
        *final(board) == *old(board),
        count == nodes(old(board).position(), room(old(board).position())),
    decreases room(old(board).position()),
{
    let ghost p = board.position();
    let ghost budget = room(p);
    proof {
        board.lemma_position_wf();
        lemma_count_bound(p);
    }
    let mut sum: u64 = 1;
    if board.is_terminal() {
        return sum;
    }
    let moves = board.generate_moves();
    proof {
        lemma_legal_moves(p, 7);
        if budget == 0 {
            if moves@.len() > 0 {
                assert(p.legal(moves@[0].col as int));
            }
        }
    }
    for i in 0..moves.len()
        invariant
            board.wf(),
            p.wf(),
            *board == *old(board),
            board.position() == p,
            budget == room(p),
            moves@ == p.legal_moves(),
            !p.is_terminal(),
            moves.len() > 0 ==> budget > 0,
            nodes(p, budget) <= u64::MAX,
            sum == 1 + nodes_among(p, budget, i as nat),
            forall|j: int| 0 <= j < moves.len() ==> p.legal((#[trigger] moves@[j]).col as int),
    {
        let mv = moves[i];
        proof {
            lemma_apply(p, mv.col as int);
            lemma_nodes_among_grows(p, budget, (i + 1) as nat, moves@.len());
        }
        board.make_move(mv);
        sum += perft(board);
        board.unmake_move(mv);
        proof {
            board.lemma_position_determines(old(board));
        }
    }
    sum
}

/// Two boards that stand for the same position, in whatever encoding, agree
/// on whether the game is over and lead to the same number of positions.
pub proof fn lemma_encodings_agree<A: Representation, B: Representation>(a: &A, b: &B, budget: nat)
    requires
        a.wf(),
        b.wf(),
        a.position() == b.position(),
    ensures
        a.position().is_terminal() == b.position().is_terminal(),
        a.position().legal_moves() == b.position().legal_moves(),
        nodes(a.position(), budget) == nodes(b.position(), budget),
{
}

} // verus!
