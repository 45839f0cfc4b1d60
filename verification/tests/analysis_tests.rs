use chess::analysis::{can_choose_move, choose_move, choose_random, evaluate_board, Algorithm};
use chess::moves::{get_legal_moves, Move};
use chess::{Board, Color, File, Game, Rank, Square, Unit, UnitKind};

fn unit(kind: UnitKind, color: Color) -> Option<Unit> {
    Some(Unit { kind, color })
}

fn sq(file: File, rank: Rank) -> Square {
    Square(file, rank)
}

fn bare_game(next_move: Color) -> Game {
    let mut board = Board { squares: [None; 64] };
    board.set(sq(File::E, Rank::One), unit(UnitKind::King, Color::White));
    board.set(sq(File::E, Rank::Eight), unit(UnitKind::King, Color::Black));
    Game {
        board,
        next_move,
        white_can_king_side_castle: false,
        black_can_king_side_castle: false,
        white_can_queen_side_castle: false,
        black_can_queen_side_castle: false,
        en_passant_square: None,
        white_king_position: sq(File::E, Rank::One),
        black_king_position: sq(File::E, Rank::Eight),
    }
}

#[test]
fn starting_position_is_balanced() {
    let game = Game::new();
    assert_eq!(evaluate_board(&game.board), 0);
}

#[test]
fn score_counts_material() {
    let mut game = Game::new();
    game.board.set(sq(File::D, Rank::Eight), None);
    assert_eq!(evaluate_board(&game.board), 9);
    game.board.set(sq(File::A, Rank::One), None);
    assert_eq!(evaluate_board(&game.board), 4);
    let board = Board { squares: [None; 64] };
    assert_eq!(evaluate_board(&board), 0);
    let mut board = Board { squares: [None; 64] };
    board.set(sq(File::C, Rank::Three), unit(UnitKind::King, Color::Black));
    assert_eq!(evaluate_board(&board), -100);
}

#[test]
fn random_move_is_legal() {
    for _ in 0..20 {
        let mut game = Game::new();
        assert!(can_choose_move(&game));
        let m = choose_move(&mut game, Algorithm::Random);
        let mut again = Game::new();
        let legal = get_legal_moves(&mut again);
        assert!(legal.to_slice().contains(&m));
        assert_eq!(game.board.squares, Game::new().board.squares);
    }
}

#[test]
fn best_move_takes_the_most_material() {
    for _ in 0..10 {
        let mut game = bare_game(Color::White);
        game.board.set(sq(File::D, Rank::Four), unit(UnitKind::Rook, Color::White));
        game.board.set(sq(File::D, Rank::Seven), unit(UnitKind::Queen, Color::Black));
        game.board.set(sq(File::A, Rank::Four), unit(UnitKind::Knight, Color::Black));
        let m = choose_move(&mut game, Algorithm::NextBestMove);
        assert_eq!(
            m,
            Move::Normal { from: sq(File::D, Rank::Four), to: sq(File::D, Rank::Seven), captured_unit: Some(UnitKind::Queen) }
        );
        assert_eq!(game.board.get(sq(File::D, Rank::Seven)), unit(UnitKind::Queen, Color::Black));
    }
}

#[test]
fn black_aims_for_the_lowest_score() {
    let mut game = bare_game(Color::Black);
    game.board.set(sq(File::D, Rank::Five), unit(UnitKind::Rook, Color::Black));
    game.board.set(sq(File::D, Rank::Two), unit(UnitKind::Queen, Color::White));
    let m = choose_move(&mut game, Algorithm::NextBestMove);
    assert_eq!(
        m,
        Move::Normal { from: sq(File::D, Rank::Five), to: sq(File::D, Rank::Two), captured_unit: Some(UnitKind::Queen) }
    );
}

#[test]
fn no_move_to_choose_without_legal_moves() {
    // white king in a corner, held there by two rooks: every king move leaves its square attacked
    let mut board = Board { squares: [None; 64] };
    board.set(sq(File::A, Rank::One), unit(UnitKind::King, Color::White));
    board.set(sq(File::A, Rank::Eight), unit(UnitKind::Rook, Color::Black));
    board.set(sq(File::H, Rank::One), unit(UnitKind::Rook, Color::Black));
    board.set(sq(File::D, Rank::Five), unit(UnitKind::King, Color::Black));
    let game = Game {
        board,
        next_move: Color::White,
        white_can_king_side_castle: false,
        black_can_king_side_castle: false,
        white_can_queen_side_castle: false,
        black_can_queen_side_castle: false,
        en_passant_square: None,
        white_king_position: sq(File::A, Rank::One),
        black_king_position: sq(File::D, Rank::Five),
    };
    assert!(!can_choose_move(&game));
}

#[test]
fn random_choice_from_a_list() {
    let empty: Vec<u8> = Vec::new();
    assert_eq!(choose_random(&empty), None);
    let items = vec![3u8, 5, 7];
    for _ in 0..50 {
        let x = *choose_random(&items).unwrap();
        assert!(items.contains(&x));
    }
    let one = vec![42u8];
    assert_eq!(choose_random(&one), Some(&42));
}
