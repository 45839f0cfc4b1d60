use chess::moves::commands::{
    can_parse_move, char_is_white_space, command_would_panic, match_move_text, parse_move, parse_move_command,
    MoveCaptures, MoveCommand,
};
use chess::moves::Move;
use chess::{Board, Color, File, Game, Rank, Square, Unit, UnitKind};
use regex::Regex;

fn unit(kind: UnitKind, color: Color) -> Option<Unit> {
    Some(Unit { kind, color })
}

fn sq(file: File, rank: Rank) -> Square {
    Square(file, rank)
}

fn bare_game(next_move: Color) -> Game {
    let mut board = Board { squares: [None; 64] };
    board.set(sq(File::E, Rank::One), unit(UnitKind::King, Color::White));
    board.set(sq(File::E, Rank::Eight), unit(UnitKind::King, Color::Black));
    Game {
        board,
        next_move,
        white_can_king_side_castle: false,
        black_can_king_side_castle: false,
        white_can_queen_side_castle: false,
        black_can_queen_side_castle: false,
        en_passant_square: None,
        white_king_position: sq(File::E, Rank::One),
        black_king_position: sq(File::E, Rank::Eight),
    }
}

fn parse(input: &str, game: &mut Game) -> Result<Move, String> {
    assert!(can_parse_move(input, game));
    parse_move(input, game)
}

#[test]
fn pawn_and_knight_moves_are_read() {
    let mut game = Game::new();
    assert_eq!(
        parse("e4", &mut game),
        Ok(Move::Normal { from: sq(File::E, Rank::Two), to: sq(File::E, Rank::Four), captured_unit: None })
    );
    assert_eq!(
        parse("  Nf3\n", &mut game),
        Ok(Move::Normal { from: sq(File::G, Rank::One), to: sq(File::F, Rank::Three), captured_unit: None })
    );
    assert_eq!(
        parse("ngf3", &mut game),
        Ok(Move::Normal { from: sq(File::G, Rank::One), to: sq(File::F, Rank::Three), captured_unit: None })
    );
    // reading a move leaves the game as it was
    let fresh = Game::new();
    assert_eq!(game.board.squares, fresh.board.squares);
    assert_eq!(game.next_move, Color::White);
}

#[test]
fn errors_are_reported() {
    let mut game = Game::new();
    assert_eq!(parse("xyz", &mut game), Err(String::from("Not a valid command")));
    assert_eq!(parse("e5", &mut game), Err(String::from("Not a legal move")));
    assert_eq!(parse("o-o", &mut game), Err(String::from("Not a legal move")));
    assert_eq!(parse("Ke2", &mut game), Err(String::from("Cannot capture own piece")));
    assert_eq!(parse("e4=Q", &mut game), Err(String::from("Cannot promote before the last rank")));
    assert_eq!(parse("Ne8=Q", &mut game), Err(String::from("Only pawns may promote")));
    assert_eq!(parse("\u{212A}e2", &mut game), Err(String::from("Invalid unit kind \u{212A}")));
}

#[test]
fn ambiguous_moves_need_a_source() {
    let mut game = bare_game(Color::White);
    game.board.set(sq(File::B, Rank::One), unit(UnitKind::Knight, Color::White));
    game.board.set(sq(File::F, Rank::One), unit(UnitKind::Knight, Color::White));
    assert_eq!(parse("Nd2", &mut game), Err(String::from("Ambiguous move, specify rank and/or file")));
    assert_eq!(
        parse("Nbd2", &mut game),
        Ok(Move::Normal { from: sq(File::B, Rank::One), to: sq(File::D, Rank::Two), captured_unit: None })
    );
}

#[test]
fn moves_leaving_the_king_attacked_are_refused() {
    let mut game = bare_game(Color::White);
    game.board.set(sq(File::E, Rank::Two), unit(UnitKind::Knight, Color::White));
    game.board.set(sq(File::E, Rank::Seven), unit(UnitKind::Rook, Color::Black));
    assert_eq!(parse("Nc3", &mut game), Err(String::from("Cannot leave own king in check")));
    assert_eq!(game.board.get(sq(File::E, Rank::Two)), unit(UnitKind::Knight, Color::White));
}

#[test]
fn castling_and_promotion_commands() {
    let mut game = bare_game(Color::White);
    game.board.set(sq(File::H, Rank::One), unit(UnitKind::Rook, Color::White));
    game.board.set(sq(File::A, Rank::Seven), unit(UnitKind::Pawn, Color::White));
    game.white_can_king_side_castle = true;
    assert_eq!(parse("O-O", &mut game), Ok(Move::KingSideCastle));
    assert_eq!(parse("o-o-o", &mut game), Err(String::from("Not a legal move")));
    assert_eq!(
        parse("a8=N", &mut game),
        Ok(Move::Promotion {
            from: sq(File::A, Rank::Seven),
            to: sq(File::A, Rank::Eight),
            promote_to: UnitKind::Knight,
            captured_unit: None,
        })
    );
}

#[test]
fn en_passant_command() {
    let mut game = bare_game(Color::White);
    game.board.set(sq(File::E, Rank::Five), unit(UnitKind::Pawn, Color::White));
    game.board.set(sq(File::D, Rank::Five), unit(UnitKind::Pawn, Color::Black));
    game.en_passant_square = Some(sq(File::D, Rank::Five));
    assert_eq!(
        parse("ed6", &mut game),
        Ok(Move::EnPassant { from: sq(File::E, Rank::Five), to: sq(File::D, Rank::Six) })
    );
}

#[test]
fn commands_are_read() {
    match parse_move_command(" Qa1b2=R ").unwrap() {
        MoveCommand::StandardMoveCommand { unit_kind, destination, source_rank, source_file, promotion } => {
            assert_eq!(unit_kind, UnitKind::Queen);
            assert_eq!(destination, sq(File::B, Rank::Two));
            assert_eq!(source_rank, Some(Rank::One));
            assert_eq!(source_file, Some(File::A));
            assert_eq!(promotion, Some(UnitKind::Rook));
        },
        other => panic!("unexpected {:?}", other),
    }
    // a leading letter that may name a piece names a piece
    match parse_move_command("bc4").unwrap() {
        MoveCommand::StandardMoveCommand { unit_kind, destination, source_file, .. } => {
            assert_eq!(unit_kind, UnitKind::Bishop);
            assert_eq!(destination, sq(File::C, Rank::Four));
            assert_eq!(source_file, None);
        },
        other => panic!("unexpected {:?}", other),
    }
    assert!(matches!(parse_move_command("\to-O\u{3000}"), Ok(MoveCommand::KingSideCastle)));
    assert!(matches!(parse_move_command("O-o-O"), Ok(MoveCommand::QueenSideCastle)));
    assert_eq!(parse_move_command("o-o-").unwrap_err(), "Not a valid command");
    assert_eq!(parse_move_command("").unwrap_err(), "Not a valid command");
}

#[test]
fn lower_case_promotion_letters_cannot_be_read() {
    assert!(command_would_panic("e8=q"));
    assert!(command_would_panic("e8=\u{212A}"));
    assert!(!command_would_panic("\u{212A}e8=q"));
    assert!(!command_would_panic("e8=Q"));
    assert!(!command_would_panic("o-o"));
    assert!(!can_parse_move("e8=q", &Game::new()));
}

#[test]
fn white_space_is_unicode_white_space() {
    for v in 0u32..=0x10FFFF {
        if let Some(c) = char::from_u32(v) {
            assert_eq!(char_is_white_space(c), c.is_whitespace(), "{:x}", v);
        }
    }
}

fn captures_by_regex(re: &Regex, text: &str) -> Option<MoveCaptures> {
    let caps = re.captures(text)?;
    let one = |name: &str| caps.name(name).map(|m| m.as_str().chars().next().unwrap());
    Some(MoveCaptures {
        piece: one("piece"),
        source_file: one("source_file"),
        source_rank: one("source_rank"),
        file: one("file").unwrap(),
        rank: one("rank").unwrap(),
        promotion: one("promotion"),
    })
}

fn same(a: &Option<MoveCaptures>, b: &Option<MoveCaptures>) -> bool {
    match (a, b) {
        (None, None) => true,
        (Some(x), Some(y)) => {
            x.piece == y.piece
                && x.source_file == y.source_file
                && x.source_rank == y.source_rank
                && x.file == y.file
                && x.rank == y.rank
                && x.promotion == y.promotion
        },
        _ => false,
    }
}

#[test]
fn move_text_splits_like_the_pattern() {
    let re = Regex::new(
        r"(?i)^(?<piece>[KQNBR])?(?<source_file>[a-h])?(?<source_rank>[1-8])?(?<file>[a-h])(?<rank>[1-8])(=(?<promotion>[KQNBR]))?$",
    )
    .unwrap();
    let alphabet = ['K', 'k', 'q', 'B', 'b', 'n', 'R', 'a', 'c', 'H', 'i', '1', '8', '9', '=', '\u{212A}', 'x'];
    let mut texts: Vec<String> = vec![String::new()];
    let mut frontier: Vec<String> = vec![String::new()];
    for _ in 0..4 {
        let mut next = Vec::new();
        for t in &frontier {
            for c in alphabet {
                let mut s = t.clone();
                s.push(c);
                next.push(s);
            }
        }
        texts.extend(next.iter().cloned());
        frontier = next;
    }
    let pieces = ["", "K", "q", "b", "\u{212A}", "x"];
    let files = ["", "a", "H", "b", "i"];
    let ranks = ["", "1", "8", "9"];
    let suffixes = ["", "=Q", "=k", "=", "=x", "=\u{212A}", "Q"];
    for p in pieces {
        for sf in files {
            for sr in ranks {
                for f in files {
                    for r in ranks {
                        for suffix in suffixes {
                            texts.push(format!("{}{}{}{}{}{}", p, sf, sr, f, r, suffix));
                        }
                    }
                }
            }
        }
    }
    for t in ["e8=Q", "Nbd2", "Qa1b2=R", "b2b4", "exd6", "e8=k", "a7a8=\u{212A}", "Bb2", "B1b2"] {
        texts.push(t.to_string());
    }
    for t in &texts {
        let chars: Vec<char> = t.chars().collect();
        let mine = match_move_text(&chars);
        let theirs = captures_by_regex(&re, t);
        assert!(same(&mine, &theirs), "{:?}: {:?} vs {:?}", t, mine, theirs);
    }
}

#[test]
fn kelvin_sign_upper_cases_to_itself() {
    // The pattern matches the Kelvin sign as a piece letter when case is ignored, and
    // upper-casing keeps it, so it names no piece.
    assert_eq!("\u{212A}".to_uppercase(), "\u{212A}");
    assert!(Regex::new(r"(?i)^[KQNBR]$").unwrap().is_match("\u{212A}"));
    let mut game = Game::new();
    assert_eq!(parse("\u{212A}c3", &mut game), Err(String::from("Invalid unit kind \u{212A}")));
}
