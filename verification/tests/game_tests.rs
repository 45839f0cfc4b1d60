use chess::utilities::StackVector;
use chess::{
    color_string, get_other_color, unit_symbol, Board, Color, File, Game, Rank, Square, Unit, UnitKind,
    ALL_FILES, ALL_RANKS,
};

fn unit(kind: UnitKind, color: Color) -> Option<Unit> {
    Some(Unit { kind, color })
}

#[test]
fn other_color_swaps_sides() {
    assert_eq!(get_other_color(Color::White), Color::Black);
    assert_eq!(get_other_color(Color::Black), Color::White);
    assert_eq!(get_other_color(get_other_color(Color::White)), Color::White);
}

#[test]
fn new_game_is_the_starting_position() {
    let game = Game::new();
    assert_eq!(game.next_move, Color::White);
    assert!(game.white_can_king_side_castle);
    assert!(game.black_can_king_side_castle);
    assert!(game.white_can_queen_side_castle);
    assert!(game.black_can_queen_side_castle);
    assert_eq!(game.en_passant_square, None);
    assert_eq!(game.white_king_position, Square(File::E, Rank::One));
    assert_eq!(game.black_king_position, Square(File::E, Rank::Eight));
    let back = [
        UnitKind::Rook,
        UnitKind::Knight,
        UnitKind::Bishop,
        UnitKind::Queen,
        UnitKind::King,
        UnitKind::Bishop,
        UnitKind::Knight,
        UnitKind::Rook,
    ];
    for (i, file) in ALL_FILES.iter().enumerate() {
        assert_eq!(game.board.get(Square(*file, Rank::One)), unit(back[i], Color::White));
        assert_eq!(game.board.get(Square(*file, Rank::Two)), unit(UnitKind::Pawn, Color::White));
        for rank in [Rank::Three, Rank::Four, Rank::Five, Rank::Six] {
            assert_eq!(game.board.get(Square(*file, rank)), None);
        }
        assert_eq!(game.board.get(Square(*file, Rank::Seven)), unit(UnitKind::Pawn, Color::Black));
        assert_eq!(game.board.get(Square(*file, Rank::Eight)), unit(back[i], Color::Black));
    }
}

#[test]
fn board_is_stored_rank_major() {
    let mut board = Board { squares: [None; 64] };
    board.set(Square(File::C, Rank::Two), unit(UnitKind::Queen, Color::Black));
    assert_eq!(board.squares[1 * 8 + 2], unit(UnitKind::Queen, Color::Black));
    assert_eq!(board.get(Square(File::C, Rank::Two)), unit(UnitKind::Queen, Color::Black));
    assert_eq!(Square(File::H, Rank::Eight).idx(), 63);
    assert_eq!(Square(File::A, Rank::One).idx(), 0);
    assert_eq!(Square(File::B, Rank::Three).idx(), 17);
}

#[test]
fn files_and_ranks_are_numbered_in_order() {
    for i in 0..8 {
        assert_eq!(ALL_FILES[i].idx(), i);
        assert_eq!(ALL_RANKS[i].idx(), i);
        assert_eq!(File::from_index(i), ALL_FILES[i]);
        assert_eq!(Rank::from_index(i), ALL_RANKS[i]);
    }
}

#[test]
fn names_are_displayed() {
    assert_eq!(Color::White.to_string(), "White");
    assert_eq!(Color::Black.to_string(), "Black");
    assert_eq!(File::A.to_string(), "A");
    assert_eq!(File::H.to_string(), "H");
    assert_eq!(Rank::One.to_string(), "1");
    assert_eq!(Rank::Eight.to_string(), "8");
    assert_eq!(color_string(Color::White), "white");
    assert_eq!(color_string(Color::Black), "black");
}

#[test]
fn unit_symbols_are_figurines() {
    assert_eq!(unit_symbol(None), " ");
    assert_eq!(unit_symbol(unit(UnitKind::King, Color::White)), "\u{2654}");
    assert_eq!(unit_symbol(unit(UnitKind::Pawn, Color::White)), "\u{2659}");
    assert_eq!(unit_symbol(unit(UnitKind::Queen, Color::Black)), "\u{265B}");
    assert_eq!(unit_symbol(unit(UnitKind::Knight, Color::Black)), "\u{265E}");
}

#[test]
fn stack_vector_keeps_pushed_items() {
    let mut v: StackVector<u32, 3> = StackVector::new(7);
    assert_eq!(v.len(), 0);
    assert_eq!(v.to_slice(), &[] as &[u32]);
    v.push(1);
    v.push(2);
    assert_eq!(v.len(), 2);
    assert_eq!(v.to_slice(), &[1, 2]);
    assert_eq!(*v.get(1), 2);
    // slots beyond the length hold the default value
    assert_eq!(*v.get(2), 7);
    v.push(3);
    assert_eq!(v.to_slice(), &[1, 2, 3]);
}
