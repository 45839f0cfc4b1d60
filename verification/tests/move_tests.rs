use chess::moves::{
    apply_move_to_board, apply_move_to_game, compute_ray, count_pseudo_moves, format_move, get_legal_moves,
    is_king_in_check, is_legal_move, legal_moves_fit, populate_pseudo_legal_moves_for_source_square, Direction,
    Move, MoveList, RayLookup,
};
use chess::{Board, Color, File, Game, Rank, Square, Unit, UnitKind};

fn unit(kind: UnitKind, color: Color) -> Option<Unit> {
    Some(Unit { kind, color })
}

fn sq(file: File, rank: Rank) -> Square {
    Square(file, rank)
}

/// A game with only the two kings, on e1 and e8, and no castling rights.
fn bare_game(next_move: Color) -> Game {
    let mut board = Board { squares: [None; 64] };
    board.set(sq(File::E, Rank::One), unit(UnitKind::King, Color::White));
    board.set(sq(File::E, Rank::Eight), unit(UnitKind::King, Color::Black));
    Game {
        board,
        next_move,
        white_can_king_side_castle: false,
        black_can_king_side_castle: false,
        white_can_queen_side_castle: false,
        black_can_queen_side_castle: false,
        en_passant_square: None,
        white_king_position: sq(File::E, Rank::One),
        black_king_position: sq(File::E, Rank::Eight),
    }
}

fn moves_from(game: &Game, square: Square) -> Vec<Move> {
    let mut moves = MoveList::new(Move::KingSideCastle);
    populate_pseudo_legal_moves_for_source_square(game, square, &mut moves);
    moves.to_slice().to_vec()
}

fn normal(from: Square, to: Square) -> Move {
    Move::Normal { from, to, captured_unit: None }
}

#[test]
fn rays_run_to_the_edge() {
    let up = compute_ray(sq(File::A, Rank::One), Direction::Up);
    assert_eq!(up.len(), 7);
    assert_eq!(up.to_slice()[0], sq(File::A, Rank::Two));
    assert_eq!(up.to_slice()[6], sq(File::A, Rank::Eight));
    let right = compute_ray(sq(File::H, Rank::Four), Direction::Right);
    assert_eq!(right.len(), 0);
    let down_left = compute_ray(sq(File::D, Rank::Four), Direction::DownLeft);
    assert_eq!(
        down_left.to_slice(),
        &[sq(File::C, Rank::Three), sq(File::B, Rank::Two), sq(File::A, Rank::One)]
    );
}

#[test]
fn upleft_steps_right_and_down() {
    let r = compute_ray(sq(File::D, Rank::Four), Direction::Upleft);
    assert_eq!(
        r.to_slice(),
        &[sq(File::E, Rank::Three), sq(File::F, Rank::Two), sq(File::G, Rank::One)]
    );
}

#[test]
fn ray_lookup_holds_every_ray() {
    let lookup = RayLookup::new();
    assert_eq!(lookup.rays.len(), 512);
    let r = lookup.index(sq(File::C, Rank::Five), Direction::UpRight);
    assert_eq!(
        r.to_slice(),
        &[sq(File::D, Rank::Six), sq(File::E, Rank::Seven), sq(File::F, Rank::Eight)]
    );
    assert_eq!(lookup.index(sq(File::B, Rank::Two), Direction::Left).to_slice(), &[sq(File::A, Rank::Two)]);
}

#[test]
fn initial_legal_moves_in_order() {
    let mut game = Game::new();
    let moves = get_legal_moves(&mut game);
    let moves = moves.to_slice();
    assert_eq!(moves.len(), 20);
    // squares are visited file by file, each file from rank one up
    assert_eq!(moves[0], normal(sq(File::A, Rank::Two), sq(File::A, Rank::Three)));
    assert_eq!(moves[1], normal(sq(File::A, Rank::Two), sq(File::A, Rank::Four)));
    assert_eq!(moves[2], normal(sq(File::B, Rank::One), sq(File::A, Rank::Three)));
    assert_eq!(moves[3], normal(sq(File::B, Rank::One), sq(File::C, Rank::Three)));
    assert_eq!(moves[4], normal(sq(File::B, Rank::Two), sq(File::B, Rank::Three)));
    // the board is left as it was
    let fresh = Game::new();
    assert_eq!(game.board.squares, fresh.board.squares);
    assert_eq!(game.next_move, Color::White);
}

#[test]
fn legal_moves_fit_in_the_starting_position() {
    let game = Game::new();
    assert!(legal_moves_fit(&game));
    assert_eq!(count_pseudo_moves(&game, sq(File::B, Rank::One)), Some(2));
    assert_eq!(count_pseudo_moves(&game, sq(File::B, Rank::Eight)), Some(0));
    assert_eq!(count_pseudo_moves(&game, sq(File::D, Rank::Four)), Some(0));
}

#[test]
fn a_queen_in_the_corner_has_too_many_destinations() {
    let mut game = bare_game(Color::White);
    game.board.set(sq(File::A, Rank::Eight), unit(UnitKind::Queen, Color::White));
    game.board.set(sq(File::E, Rank::Eight), None);
    game.board.set(sq(File::H, Rank::One), unit(UnitKind::King, Color::Black));
    game.black_king_position = sq(File::H, Rank::One);
    assert_eq!(count_pseudo_moves(&game, sq(File::A, Rank::Eight)), None);
    assert!(!legal_moves_fit(&game));
}

#[test]
fn pawn_moves_one_or_two_from_start() {
    let game = Game::new();
    assert_eq!(
        moves_from(&game, sq(File::E, Rank::Two)),
        vec![normal(sq(File::E, Rank::Two), sq(File::E, Rank::Three)), normal(sq(File::E, Rank::Two), sq(File::E, Rank::Four))]
    );
    // black's pieces are not listed when white is to play
    assert_eq!(moves_from(&game, sq(File::E, Rank::Seven)), vec![]);
}

#[test]
fn pawn_captures_come_before_advances() {
    let mut game = bare_game(Color::White);
    game.board.set(sq(File::D, Rank::Four), unit(UnitKind::Pawn, Color::White));
    game.board.set(sq(File::C, Rank::Five), unit(UnitKind::Knight, Color::Black));
    game.board.set(sq(File::E, Rank::Five), unit(UnitKind::Pawn, Color::White));
    assert_eq!(
        moves_from(&game, sq(File::D, Rank::Four)),
        vec![
            Move::Normal {
                from: sq(File::D, Rank::Four),
                to: sq(File::C, Rank::Five),
                captured_unit: Some(UnitKind::Knight),
            },
            normal(sq(File::D, Rank::Four), sq(File::D, Rank::Five)),
        ]
    );
}

#[test]
fn promotions_are_listed_queen_knight_rook_bishop() {
    let mut game = bare_game(Color::White);
    game.board.set(sq(File::A, Rank::Seven), unit(UnitKind::Pawn, Color::White));
    game.board.set(sq(File::B, Rank::Eight), unit(UnitKind::Rook, Color::Black));
    let from = sq(File::A, Rank::Seven);
    let mut expected = Vec::new();
    for (to, captured) in [(sq(File::B, Rank::Eight), Some(UnitKind::Rook)), (sq(File::A, Rank::Eight), None)] {
        for promote_to in [UnitKind::Queen, UnitKind::Knight, UnitKind::Rook, UnitKind::Bishop] {
            expected.push(Move::Promotion { from, to, promote_to, captured_unit: captured });
        }
    }
    assert_eq!(moves_from(&game, from), expected);
}

#[test]
fn en_passant_is_listed_first_for_a_pawn() {
    let mut game = bare_game(Color::White);
    game.board.set(sq(File::E, Rank::Five), unit(UnitKind::Pawn, Color::White));
    game.board.set(sq(File::D, Rank::Five), unit(UnitKind::Pawn, Color::Black));
    game.en_passant_square = Some(sq(File::D, Rank::Five));
    let moves = moves_from(&game, sq(File::E, Rank::Five));
    assert_eq!(moves[0], Move::EnPassant { from: sq(File::E, Rank::Five), to: sq(File::D, Rank::Six) });
    assert_eq!(moves[1], normal(sq(File::E, Rank::Five), sq(File::E, Rank::Six)));
    assert_eq!(moves.len(), 2);
}

#[test]
fn castling_needs_rights_and_empty_squares() {
    let mut game = bare_game(Color::White);
    game.board.set(sq(File::H, Rank::One), unit(UnitKind::Rook, Color::White));
    game.board.set(sq(File::A, Rank::One), unit(UnitKind::Rook, Color::White));
    let king = sq(File::E, Rank::One);
    assert!(!moves_from(&game, king).contains(&Move::KingSideCastle));
    game.white_can_king_side_castle = true;
    game.white_can_queen_side_castle = true;
    let moves = moves_from(&game, king);
    assert_eq!(moves[0], Move::KingSideCastle);
    assert_eq!(moves[1], Move::QueenSideCastle);
    game.board.set(sq(File::B, Rank::One), unit(UnitKind::Knight, Color::White));
    let moves = moves_from(&game, king);
    assert_eq!(moves[0], Move::KingSideCastle);
    assert!(!moves.contains(&Move::QueenSideCastle));
}

#[test]
fn sliding_pieces_stop_at_the_first_unit() {
    let mut game = bare_game(Color::White);
    game.board.set(sq(File::A, Rank::One), unit(UnitKind::Rook, Color::White));
    game.board.set(sq(File::A, Rank::Three), unit(UnitKind::Pawn, Color::Black));
    game.board.set(sq(File::C, Rank::One), unit(UnitKind::Bishop, Color::White));
    let moves = moves_from(&game, sq(File::A, Rank::One));
    assert_eq!(
        moves,
        vec![
            normal(sq(File::A, Rank::One), sq(File::A, Rank::Two)),
            Move::Normal {
                from: sq(File::A, Rank::One),
                to: sq(File::A, Rank::Three),
                captured_unit: Some(UnitKind::Pawn),
            },
            normal(sq(File::A, Rank::One), sq(File::B, Rank::One)),
        ]
    );
}

#[test]
fn checking_a_move_restores_the_board() {
    let mut game = Game::new();
    let before = game.board.squares;
    let m = normal(sq(File::E, Rank::Two), sq(File::E, Rank::Four));
    assert!(is_legal_move(&mut game.board, sq(File::E, Rank::One), Color::White, m));
    assert_eq!(game.board.squares, before);
}

#[test]
fn a_pinned_piece_may_not_leave_the_line() {
    let mut game = bare_game(Color::White);
    game.board.set(sq(File::E, Rank::Two), unit(UnitKind::Knight, Color::White));
    game.board.set(sq(File::E, Rank::Seven), unit(UnitKind::Rook, Color::Black));
    let m = normal(sq(File::E, Rank::Two), sq(File::C, Rank::Three));
    assert!(!is_legal_move(&mut game.board, sq(File::E, Rank::One), Color::White, m));
    let legal = get_legal_moves(&mut game);
    assert!(legal.to_slice().iter().all(|m| match m {
        Move::Normal { from, .. } => *from != sq(File::E, Rank::Two),
        _ => true,
    }));
}

#[test]
fn king_in_check_is_detected() {
    let mut game = bare_game(Color::White);
    assert!(!is_king_in_check(&game, Color::White));
    game.board.set(sq(File::D, Rank::Two), unit(UnitKind::Pawn, Color::Black));
    assert!(is_king_in_check(&game, Color::White));
    game.board.set(sq(File::D, Rank::Two), None);
    game.board.set(sq(File::F, Rank::Three), unit(UnitKind::Knight, Color::Black));
    assert!(is_king_in_check(&game, Color::White));
    game.board.set(sq(File::F, Rank::Three), None);
    game.board.set(sq(File::H, Rank::Four), unit(UnitKind::Queen, Color::Black));
    assert!(is_king_in_check(&game, Color::White));
    game.board.set(sq(File::G, Rank::Three), unit(UnitKind::Pawn, Color::White));
    assert!(!is_king_in_check(&game, Color::White));
    game.board.set(sq(File::H, Rank::Four), None);
    // the up-left diagonal is not among the directions looked along
    game.board.set(sq(File::A, Rank::Five), unit(UnitKind::Queen, Color::Black));
    assert!(!is_king_in_check(&game, Color::White));
    game.board.set(sq(File::A, Rank::Five), None);
    game.board.set(sq(File::E, Rank::Five), unit(UnitKind::Rook, Color::Black));
    assert!(is_king_in_check(&game, Color::White));
}

#[test]
fn applying_moves_to_the_board() {
    let mut game = Game::new();
    apply_move_to_board(&mut game.board, Color::White, normal(sq(File::G, Rank::One), sq(File::F, Rank::Three)));
    assert_eq!(game.board.get(sq(File::F, Rank::Three)), unit(UnitKind::Knight, Color::White));
    assert_eq!(game.board.get(sq(File::G, Rank::One)), None);
    // king side castling on an emptied back rank
    game.board.set(sq(File::F, Rank::Eight), None);
    game.board.set(sq(File::G, Rank::Eight), None);
    apply_move_to_board(&mut game.board, Color::Black, Move::KingSideCastle);
    assert_eq!(game.board.get(sq(File::G, Rank::Eight)), unit(UnitKind::King, Color::Black));
    assert_eq!(game.board.get(sq(File::F, Rank::Eight)), unit(UnitKind::Rook, Color::Black));
    assert_eq!(game.board.get(sq(File::E, Rank::Eight)), None);
    assert_eq!(game.board.get(sq(File::H, Rank::Eight)), None);
}

#[test]
fn en_passant_removes_the_passed_pawn() {
    let mut board = Board { squares: [None; 64] };
    board.set(sq(File::E, Rank::Five), unit(UnitKind::Pawn, Color::White));
    board.set(sq(File::D, Rank::Five), unit(UnitKind::Pawn, Color::Black));
    apply_move_to_board(&mut board, Color::White, Move::EnPassant { from: sq(File::E, Rank::Five), to: sq(File::D, Rank::Six) });
    assert_eq!(board.get(sq(File::D, Rank::Six)), unit(UnitKind::Pawn, Color::White));
    assert_eq!(board.get(sq(File::D, Rank::Five)), None);
    assert_eq!(board.get(sq(File::E, Rank::Five)), None);
}

#[test]
fn promotion_puts_the_new_piece() {
    let mut board = Board { squares: [None; 64] };
    board.set(sq(File::B, Rank::Two), unit(UnitKind::Pawn, Color::Black));
    apply_move_to_board(
        &mut board,
        Color::Black,
        Move::Promotion {
            from: sq(File::B, Rank::Two),
            to: sq(File::B, Rank::One),
            promote_to: UnitKind::Knight,
            captured_unit: None,
        },
    );
    assert_eq!(board.get(sq(File::B, Rank::One)), unit(UnitKind::Knight, Color::Black));
    assert_eq!(board.get(sq(File::B, Rank::Two)), None);
}

#[test]
fn double_pawn_step_sets_en_passant_square() {
    let mut game = Game::new();
    apply_move_to_game(&mut game, normal(sq(File::E, Rank::Two), sq(File::E, Rank::Four)));
    assert_eq!(game.next_move, Color::Black);
    assert_eq!(game.en_passant_square, Some(sq(File::E, Rank::Four)));
    assert_eq!(game.board.get(sq(File::E, Rank::Four)), unit(UnitKind::Pawn, Color::White));
    apply_move_to_game(&mut game, normal(sq(File::G, Rank::Eight), sq(File::F, Rank::Six)));
    assert_eq!(game.next_move, Color::White);
    assert_eq!(game.en_passant_square, None);
}

#[test]
fn king_and_rook_moves_drop_castling_rights() {
    let mut game = Game::new();
    game.board.set(sq(File::E, Rank::Two), None);
    apply_move_to_game(&mut game, normal(sq(File::E, Rank::One), sq(File::E, Rank::Two)));
    assert_eq!(game.white_king_position, sq(File::E, Rank::Two));
    assert!(!game.white_can_king_side_castle);
    assert!(!game.white_can_queen_side_castle);
    assert!(game.black_can_king_side_castle);
    game.board.set(sq(File::H, Rank::Seven), None);
    apply_move_to_game(&mut game, normal(sq(File::H, Rank::Eight), sq(File::H, Rank::Seven)));
    assert!(!game.black_can_king_side_castle);
    assert!(game.black_can_queen_side_castle);
}

#[test]
fn castling_records_the_king_on_the_c_file() {
    let mut game = bare_game(Color::White);
    game.board.set(sq(File::H, Rank::One), unit(UnitKind::Rook, Color::White));
    game.white_can_king_side_castle = true;
    apply_move_to_game(&mut game, Move::KingSideCastle);
    assert_eq!(game.white_king_position, sq(File::C, Rank::One));
    assert_eq!(game.board.get(sq(File::G, Rank::One)), unit(UnitKind::King, Color::White));
    assert!(!game.white_can_king_side_castle);
    assert_eq!(game.next_move, Color::Black);
}

#[test]
fn moves_are_formatted_in_notation() {
    let game = Game::new();
    assert_eq!(format_move(&game.board, normal(sq(File::E, Rank::Two), sq(File::E, Rank::Four))), "e2e4");
    assert_eq!(format_move(&game.board, normal(sq(File::G, Rank::One), sq(File::F, Rank::Three))), "Ng1f3");
    assert_eq!(format_move(&game.board, Move::KingSideCastle), "o-o");
    assert_eq!(format_move(&game.board, Move::QueenSideCastle), "o-o-o");
    assert_eq!(
        format_move(
            &game.board,
            Move::Promotion {
                from: sq(File::E, Rank::Seven),
                to: sq(File::D, Rank::Eight),
                promote_to: UnitKind::Queen,
                captured_unit: Some(UnitKind::Queen),
            }
        ),
        "e7xd8=Q"
    );
    assert_eq!(
        format_move(&game.board, Move::EnPassant { from: sq(File::E, Rank::Five), to: sq(File::D, Rank::Six) }),
        "e5xd6"
    );
    assert_eq!(format_move(&game.board, normal(sq(File::E, Rank::Four), sq(File::E, Rank::Five))), "Cannot print move");
}
