use connect_four::bitboard::Bitboard;
use connect_four::board::{parse, playable, Color, Move, Representation, HEIGHT, WIDTH};
use connect_four::piece_list::{PieceList, ZOBRIST_KEYS};

fn columns(moves: &Vec<Move>) -> Vec<usize> {
    let mut out = Vec::new();
    for mv in moves {
        out.push(mv.col);
    }
    out
}

fn terminal_on_both(notation: &str) -> bool {
    let dense = parse::<PieceList>(notation).unwrap();
    let packed = parse::<Bitboard>(notation).unwrap();
    assert_eq!(dense.is_terminal(), packed.is_terminal());
    dense.is_terminal()
}

#[test]
fn board_dimensions() {
    assert_eq!(WIDTH, 7);
    assert_eq!(HEIGHT, 6);
}

#[test]
fn color_magnitude_and_complement() {
    assert_eq!(Color::Red.magnitude(), 1);
    assert_eq!(Color::Yellow.magnitude(), -1);
    assert_eq!(Color::Red.not(), Color::Yellow);
    assert_eq!(Color::Yellow.not(), Color::Red);
    assert_eq!(Color::Red.not().not(), Color::Red);
    assert_eq!(Color::Red.to_string(), "R");
    assert_eq!(Color::Yellow.to_string(), "Y");
}

#[test]
fn move_parse_reads_the_seven_digits() {
    assert_eq!(Move::parse('1'), Ok(Move { col: 0 }));
    assert_eq!(Move::parse('2'), Ok(Move { col: 1 }));
    assert_eq!(Move::parse('3'), Ok(Move { col: 2 }));
    assert_eq!(Move::parse('4'), Ok(Move { col: 3 }));
    assert_eq!(Move::parse('5'), Ok(Move { col: 4 }));
    assert_eq!(Move::parse('6'), Ok(Move { col: 5 }));
    assert_eq!(Move::parse('7'), Ok(Move { col: 6 }));
}

#[test]
fn move_parse_rejects_everything_else() {
    for c in ['0', '8', '9', 'a', ' ', '-', '\n', '\u{661}'] {
        assert_eq!(Move::parse(c), Err("unrecognized move".to_string()));
    }
}

#[test]
fn parse_stops_at_the_first_unrecognized_character() {
    assert_eq!(parse::<PieceList>("12x4").err(), Some("unrecognized move".to_string()));
    assert_eq!(parse::<Bitboard>("12x4").err(), Some("unrecognized move".to_string()));
    assert_eq!(parse::<Bitboard>("8").err(), Some("unrecognized move".to_string()));
    assert!(parse::<PieceList>("").is_ok());
}

#[test]
fn parse_replays_the_moves_in_order() {
    let mut by_hand = PieceList::empty();
    for col in [6, 1, 1, 2, 2, 4] {
        by_hand.make_move(Move { col });
    }
    assert_eq!(parse::<PieceList>("722335").unwrap(), by_hand);
    let mut packed = Bitboard::empty();
    for col in [6, 1, 1, 2, 2, 4] {
        packed.make_move(Move { col });
    }
    assert_eq!(parse::<Bitboard>("722335").unwrap(), packed);
}

#[test]
fn playable_tells_when_a_column_overflows() {
    assert!(playable(""));
    assert!(playable("111111"));
    assert!(!playable("1111111"));
    assert!(playable("12121211"));
    assert!(!playable("1212121111"));
    assert!(playable("111111222222333333444444555555666666777777"));
    assert!(!playable("1111112222223333334444445555556666667777771"));
    // what follows the first unrecognized character is never played
    assert!(playable("111111x1"));
    assert!(!playable("1111111x"));
    assert!(playable("x1111111"));
}

#[test]
fn empty_board_has_red_to_move_and_fingerprint_zero() {
    let dense = PieceList::empty();
    let packed = Bitboard::empty();
    assert_eq!(dense.turn(), Color::Red);
    assert_eq!(packed.turn(), Color::Red);
    assert_eq!(dense.zobrist(), 0);
    assert_eq!(packed.zobrist(), 0);
    assert!(!dense.is_terminal());
    assert!(!packed.is_terminal());
    assert_eq!(columns(&dense.generate_moves()), vec![0, 1, 2, 3, 4, 5, 6]);
    assert_eq!(columns(&packed.generate_moves()), vec![0, 1, 2, 3, 4, 5, 6]);
}

#[test]
fn moves_flip_the_turn() {
    let mut dense = PieceList::empty();
    let mut packed = Bitboard::empty();
    dense.make_move(Move { col: 3 });
    packed.make_move(Move { col: 3 });
    assert_eq!(dense.turn(), Color::Yellow);
    assert_eq!(packed.turn(), Color::Yellow);
    dense.make_move(Move { col: 3 });
    packed.make_move(Move { col: 3 });
    assert_eq!(dense.turn(), Color::Red);
    assert_eq!(packed.turn(), Color::Red);
}

#[test]
fn dense_fingerprint_combines_the_keys_of_occupied_squares() {
    assert_eq!(parse::<PieceList>("1").unwrap().zobrist(), 7266447313870364031);
    assert_eq!(parse::<PieceList>("1").unwrap().zobrist(), ZOBRIST_KEYS[0][0]);
    assert_eq!(parse::<PieceList>("12").unwrap().zobrist(), 3174772663209716228);
    assert_eq!(
        parse::<PieceList>("121").unwrap().zobrist(),
        ZOBRIST_KEYS[0][0] ^ ZOBRIST_KEYS[1][0] ^ ZOBRIST_KEYS[0][1]
    );
    assert_eq!(parse::<PieceList>("121").unwrap().zobrist(), 7541977470939072580);
    assert_eq!(parse::<PieceList>("722335").unwrap().zobrist(), 8937592117774968753);
}

#[test]
fn packed_fingerprint_is_the_mask_of_occupied_squares() {
    assert_eq!(parse::<Bitboard>("1").unwrap().zobrist(), 1);
    assert_eq!(parse::<Bitboard>("12").unwrap().zobrist(), 129);
    assert_eq!(parse::<Bitboard>("121").unwrap().zobrist(), 131);
    assert_eq!(parse::<Bitboard>("722335").unwrap().zobrist(), 4398314996096);
    assert_eq!(parse::<Bitboard>("12121213").unwrap().zobrist(), 17295);
}

#[test]
fn fingerprint_ignores_owners_and_turn() {
    // the same squares are occupied, by other owners and with another side to move
    let a = parse::<PieceList>("1213").unwrap();
    let b = parse::<PieceList>("3121").unwrap();
    assert_eq!(a.zobrist(), b.zobrist());
    assert_ne!(a, b);
    let c = parse::<Bitboard>("1213").unwrap();
    let d = parse::<Bitboard>("3121").unwrap();
    assert_eq!(c.zobrist(), d.zobrist());
    assert_ne!(c, d);
}

#[test]
fn fingerprint_is_stable_under_replay_and_undo() {
    let notation = "4455367";
    assert_eq!(
        parse::<PieceList>(notation).unwrap().zobrist(),
        parse::<PieceList>(notation).unwrap().zobrist()
    );
    assert_eq!(
        parse::<Bitboard>(notation).unwrap().zobrist(),
        parse::<Bitboard>(notation).unwrap().zobrist()
    );
    let mut dense = parse::<PieceList>(notation).unwrap();
    let mut packed = parse::<Bitboard>(notation).unwrap();
    let dense_key = dense.zobrist();
    let packed_key = packed.zobrist();
    for col in 0..WIDTH {
        dense.make_move(Move { col });
        packed.make_move(Move { col });
        assert_ne!(dense.zobrist(), dense_key);
        assert_ne!(packed.zobrist(), packed_key);
        dense.unmake_move(Move { col });
        packed.unmake_move(Move { col });
        assert_eq!(dense.zobrist(), dense_key);
        assert_eq!(packed.zobrist(), packed_key);
    }
}

#[test]
fn unmake_restores_every_field() {
    for notation in ["", "4", "722335", "111111", "1212121", "61134124344226244271352657663"] {
        let mut dense = parse::<PieceList>(notation).unwrap();
        let mut packed = parse::<Bitboard>(notation).unwrap();
        let dense_before = dense.clone();
        let packed_before = packed.clone();
        for mv in dense.generate_moves() {
            dense.make_move(mv);
            assert_ne!(dense, dense_before);
            dense.unmake_move(mv);
            assert_eq!(dense, dense_before);
        }
        for mv in packed.generate_moves() {
            packed.make_move(mv);
            assert_ne!(packed, packed_before);
            packed.unmake_move(mv);
            assert_eq!(packed, packed_before);
        }
    }
}

#[test]
fn unmake_takes_back_several_moves_in_reverse_order() {
    let mut dense = PieceList::empty();
    let mut packed = Bitboard::empty();
    let line = [3, 3, 4, 2, 3, 3, 3, 3, 0, 6];
    for col in line {
        dense.make_move(Move { col });
        packed.make_move(Move { col });
    }
    for col in line.iter().rev() {
        dense.unmake_move(Move { col: *col });
        packed.unmake_move(Move { col: *col });
    }
    assert_eq!(dense, PieceList::empty());
    assert_eq!(packed, Bitboard::empty());
}

#[test]
fn full_column_is_no_legal_move() {
    let mut dense = parse::<PieceList>("333333").unwrap();
    let mut packed = parse::<Bitboard>("333333").unwrap();
    assert_eq!(columns(&dense.generate_moves()), vec![0, 1, 3, 4, 5, 6]);
    assert_eq!(columns(&packed.generate_moves()), vec![0, 1, 3, 4, 5, 6]);
    // it stays out while play goes on
    dense.make_move(Move { col: 0 });
    packed.make_move(Move { col: 0 });
    assert_eq!(columns(&dense.generate_moves()), vec![0, 1, 3, 4, 5, 6]);
    assert_eq!(columns(&packed.generate_moves()), vec![0, 1, 3, 4, 5, 6]);
    dense.unmake_move(Move { col: 0 });
    packed.unmake_move(Move { col: 0 });
    // and comes back when its top piece is taken back
    dense.unmake_move(Move { col: 2 });
    packed.unmake_move(Move { col: 2 });
    assert_eq!(columns(&dense.generate_moves()), vec![0, 1, 2, 3, 4, 5, 6]);
    assert_eq!(columns(&packed.generate_moves()), vec![0, 1, 2, 3, 4, 5, 6]);
}

#[test]
fn column_one_short_of_full_is_still_legal() {
    let dense = parse::<PieceList>("77777").unwrap();
    let packed = parse::<Bitboard>("77777").unwrap();
    assert_eq!(columns(&dense.generate_moves()), vec![0, 1, 2, 3, 4, 5, 6]);
    assert_eq!(columns(&packed.generate_moves()), vec![0, 1, 2, 3, 4, 5, 6]);
}

#[test]
fn full_board_has_no_legal_move() {
    let notation = "111111222222333333444444555555666666777777";
    let dense = parse::<PieceList>(notation).unwrap();
    let packed = parse::<Bitboard>(notation).unwrap();
    assert!(dense.generate_moves().is_empty());
    assert!(packed.generate_moves().is_empty());
    assert_eq!(packed.zobrist(), 0x0000_fdfb_f7ef_dfbf);
}

#[test]
fn scenario_722335_is_not_terminal() {
    assert!(!terminal_on_both("722335"));
}

#[test]
fn terminal_test_looks_at_the_side_to_move() {
    // Red completes a column with the seventh move; Yellow is then to move and
    // owns no line, so the board is not terminal yet.
    assert!(!terminal_on_both("1212121"));
    // One move later Red is to move again and owns the line.
    assert!(terminal_on_both("12121213"));
    // The same with a row.
    assert!(!terminal_on_both("1122334"));
    assert!(terminal_on_both("11223344"));
}

#[test]
fn terminal_test_finds_each_direction() {
    // upwards
    assert!(terminal_on_both("34343536"));
    // to the right
    assert!(terminal_on_both("36265747"));
    // up and to the right
    assert!(terminal_on_both("775647715662"));
    // up and to the left
    assert!(terminal_on_both("644574655144"));
}

#[test]
fn three_in_a_row_is_not_terminal() {
    assert!(!terminal_on_both("121212"));
    assert!(!terminal_on_both("112233"));
    assert!(!terminal_on_both("12"));
}

#[test]
fn line_does_not_wrap_into_the_next_column() {
    // the side to move owns the three top squares of column 6 and the bottom
    // square of column 7: no line
    assert!(!terminal_on_both("6676646162"));
}

#[test]
fn both_encodings_render_alike() {
    let expected = "       \n       \n       \n       \n RR    \n YY Y R\n-------\nTurn: R\n";
    assert_eq!(parse::<PieceList>("722335").unwrap().to_string(), expected);
    assert_eq!(parse::<Bitboard>("722335").unwrap().to_string(), expected);
}

#[test]
fn empty_board_renders_blank() {
    let expected = "       \n       \n       \n       \n       \n       \n-------\nTurn: R\n";
    assert_eq!(PieceList::empty().to_string(), expected);
    assert_eq!(Bitboard::empty().to_string(), expected);
}

#[test]
fn full_column_renders_top_to_bottom() {
    let expected = "Y      \nR      \nY      \nR      \nY      \nRR     \n-------\nTurn: Y\n";
    assert_eq!(parse::<PieceList>("1111112").unwrap().to_string(), expected);
    assert_eq!(parse::<Bitboard>("1111112").unwrap().to_string(), expected);
}
