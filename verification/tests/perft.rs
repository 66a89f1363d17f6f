use connect_four::bitboard::Bitboard;
use connect_four::board::parse;
use connect_four::perft::perft;
use connect_four::piece_list::PieceList;

fn perft_unit(notation: &str) {
    let mut piece_list = parse::<PieceList>(notation).unwrap();
    let piece_list_clone = piece_list.clone();
    let mut bitboard = parse::<Bitboard>(notation).unwrap();
    let bitboard_clone = bitboard.clone();
    assert_eq!(perft(&mut piece_list), perft(&mut bitboard));
    assert_eq!(piece_list, piece_list_clone);
    assert_eq!(bitboard, bitboard_clone);
}

#[test]
fn perft_unit_1() {
    perft_unit("1471116462531526523152622637576544");
}

#[test]
fn perft_unit_2() {
    perft_unit("455155137133342477531351477744");
}

#[test]
fn perft_unit_3() {
    perft_unit("61134124344226244271352657663");
}
