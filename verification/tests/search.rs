use connect_four::bitboard::Bitboard;
use connect_four::board::{parse, Move, Representation};
use connect_four::perft::perft;
use connect_four::piece_list::PieceList;
use connect_four::search::{alphabeta, evaluate, negamax, search, WIN_SCORE};

#[test]
fn win_score_is_one_hundred() {
    assert_eq!(WIN_SCORE, 100);
}

#[test]
fn evaluate_is_neutral() {
    assert_eq!(evaluate(&PieceList::empty()), 0);
    assert_eq!(evaluate(&parse::<Bitboard>("12121213").unwrap()), 0);
}

#[test]
fn negamax_of_a_terminal_board_is_the_signed_win_score() {
    // Red to move, Red owns a line
    assert_eq!(negamax(&mut parse::<PieceList>("12121213").unwrap(), 5), 100);
    assert_eq!(negamax(&mut parse::<Bitboard>("12121213").unwrap(), 0), 100);
    // Yellow to move, Yellow owns a line
    assert_eq!(negamax(&mut parse::<PieceList>("712121214").unwrap(), 3), -100);
    assert_eq!(negamax(&mut parse::<Bitboard>("712121214").unwrap(), 3), -100);
}

#[test]
fn negamax_at_depth_zero_is_neutral() {
    assert_eq!(negamax(&mut PieceList::empty(), 0), 0);
    assert_eq!(negamax(&mut parse::<Bitboard>("1212121").unwrap(), 0), 0);
}

#[test]
fn negamax_exact_values() {
    assert_eq!(negamax(&mut PieceList::empty(), 3), 0);
    assert_eq!(negamax(&mut parse::<PieceList>("1212121").unwrap(), 1), -100);
    assert_eq!(negamax(&mut parse::<PieceList>("121212").unwrap(), 1), 0);
    assert_eq!(negamax(&mut parse::<PieceList>("121212").unwrap(), 2), 100);
    assert_eq!(negamax(&mut parse::<Bitboard>("1212121").unwrap(), 1), -100);
    assert_eq!(negamax(&mut parse::<Bitboard>("121212").unwrap(), 2), 100);
    assert_eq!(negamax(&mut parse::<Bitboard>("722335").unwrap(), 4), 0);
}

#[test]
fn negamax_of_a_full_board_is_the_floor() {
    let notation = "111222111222333444333444555666555666777777";
    let mut dense = parse::<PieceList>(notation).unwrap();
    if !dense.is_terminal() {
        assert_eq!(negamax(&mut dense, 2), -100);
    }
}

#[test]
fn alphabeta_exact_values() {
    assert_eq!(alphabeta(&mut PieceList::empty(), 3, -100, 100, 1), 0);
    assert_eq!(alphabeta(&mut parse::<PieceList>("1212121").unwrap(), 1, -100, 100, -1), -100);
    assert_eq!(alphabeta(&mut parse::<PieceList>("121212").unwrap(), 2, -100, 100, 1), 100);
    assert_eq!(alphabeta(&mut parse::<Bitboard>("121212").unwrap(), 2, -100, 100, 1), 100);
    assert_eq!(alphabeta(&mut parse::<Bitboard>("12121213").unwrap(), 4, -100, 100, 1), 100);
    // the sign is the caller's, not the board's
    assert_eq!(alphabeta(&mut parse::<Bitboard>("12121213").unwrap(), 4, -100, 100, -1), -100);
    assert_eq!(alphabeta(&mut parse::<PieceList>("722335").unwrap(), 0, -100, 100, 1), 0);
}

#[test]
fn alphabeta_with_an_empty_window_stops_after_one_move() {
    // the move into column 7 wins, but only the move into column 1 is tried
    assert_eq!(alphabeta(&mut parse::<PieceList>("767676").unwrap(), 2, 100, -100, 1), 0);
    assert_eq!(alphabeta(&mut parse::<Bitboard>("767676").unwrap(), 2, 100, -100, 1), 0);
    assert_eq!(negamax(&mut parse::<PieceList>("767676").unwrap(), 2), 100);
}

#[test]
fn alphabeta_agrees_with_negamax_on_the_full_window() {
    for notation in ["", "4", "444", "722335", "121212", "1212121", "4455367", "34343536"] {
        for depth in 0..5 {
            let mut dense = parse::<PieceList>(notation).unwrap();
            let mut packed = parse::<Bitboard>(notation).unwrap();
            let color = dense.turn().magnitude();
            let exact = negamax(&mut dense, depth);
            assert_eq!(alphabeta(&mut dense, depth, -101, 101, color), exact);
            assert_eq!(negamax(&mut packed, depth), exact);
            assert_eq!(alphabeta(&mut packed, depth, -101, 101, color), exact);
        }
    }
}

#[test]
fn searches_leave_the_board_as_it_was() {
    let mut dense = parse::<PieceList>("722335").unwrap();
    let mut packed = parse::<Bitboard>("722335").unwrap();
    let dense_before = dense.clone();
    let packed_before = packed.clone();
    negamax(&mut dense, 3);
    negamax(&mut packed, 3);
    alphabeta(&mut dense, 4, -100, 100, 1);
    alphabeta(&mut packed, 4, -100, 100, 1);
    search(&mut dense, 5);
    search(&mut packed, 5);
    assert_eq!(dense, dense_before);
    assert_eq!(packed, packed_before);
}

#[test]
fn search_exact_choices() {
    assert_eq!(search(&mut PieceList::empty(), 1), (Move { col: 6 }, 0));
    assert_eq!(search(&mut Bitboard::empty(), 1), (Move { col: 6 }, 0));
    assert_eq!(search(&mut parse::<PieceList>("121212").unwrap(), 2), (Move { col: 0 }, 100));
    assert_eq!(search(&mut parse::<Bitboard>("121212").unwrap(), 2), (Move { col: 0 }, 100));
    assert_eq!(search(&mut parse::<PieceList>("121212").unwrap(), 1), (Move { col: 6 }, 0));
    assert_eq!(search(&mut parse::<PieceList>("1212121").unwrap(), 1), (Move { col: 6 }, -100));
}

#[test]
fn search_breaks_ties_towards_the_highest_column() {
    // column 7 is full, so the last move examined is column 6
    assert_eq!(search(&mut parse::<PieceList>("777777").unwrap(), 1), (Move { col: 5 }, 0));
    assert_eq!(search(&mut parse::<Bitboard>("777777").unwrap(), 1), (Move { col: 5 }, 0));
}

#[test]
fn search_of_a_full_board_is_column_one_with_the_floor() {
    let notation = "111222111222333444333444555666555666777777";
    let mut dense = parse::<PieceList>(notation).unwrap();
    if !dense.is_terminal() {
        assert_eq!(search(&mut dense, 1), (Move { col: 0 }, -100));
    }
}

#[test]
fn scenario_722335_search_at_depth_eleven() {
    let mut dense = parse::<PieceList>("722335").unwrap();
    assert!(!dense.is_terminal());
    let (mv, score) = search(&mut dense, 11);
    assert!(mv.col < 7);
    assert!(-100 <= score && score <= 100);
    assert_eq!((mv, score), (Move { col: 6 }, 0));
    let mut packed = parse::<Bitboard>("722335").unwrap();
    assert!(!packed.is_terminal());
    assert_eq!(search(&mut packed, 11), (mv, score));
}

#[test]
fn search_is_deterministic_and_bounded() {
    for notation in ["", "4", "722335", "121212", "1212121", "4455367"] {
        for depth in 1..6 {
            let mut dense = parse::<PieceList>(notation).unwrap();
            let first = search(&mut dense, depth);
            let second = search(&mut dense, depth);
            assert_eq!(first, second);
            assert!(-100 <= first.1 && first.1 <= 100);
            let mut packed = parse::<Bitboard>(notation).unwrap();
            assert_eq!(search(&mut packed, depth), first);
        }
    }
}

#[test]
fn perft_exact_counts() {
    assert_eq!(perft(&mut parse::<PieceList>("1471116462531526523152622637576544").unwrap()), 530);
    assert_eq!(perft(&mut parse::<Bitboard>("1471116462531526523152622637576544").unwrap()), 530);
    assert_eq!(perft(&mut parse::<PieceList>("455155137133342477531351477744").unwrap()), 336);
    assert_eq!(perft(&mut parse::<Bitboard>("455155137133342477531351477744").unwrap()), 336);
    assert_eq!(perft(&mut parse::<PieceList>("61134124344226244271352657663").unwrap()), 92442);
    assert_eq!(perft(&mut parse::<Bitboard>("61134124344226244271352657663").unwrap()), 92442);
}

#[test]
fn perft_of_a_terminal_board_is_one() {
    assert_eq!(perft(&mut parse::<PieceList>("12121213").unwrap()), 1);
    assert_eq!(perft(&mut parse::<Bitboard>("12121213").unwrap()), 1);
}

#[test]
fn perft_of_a_full_board_is_one() {
    let notation = "111222111222333444333444555666555666777777";
    assert_eq!(perft(&mut parse::<PieceList>(notation).unwrap()), 1);
    assert_eq!(perft(&mut parse::<Bitboard>(notation).unwrap()), 1);
}
