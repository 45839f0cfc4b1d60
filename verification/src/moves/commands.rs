//! Parsing of typed move commands.
use crate::moves::{
    all_pseudo_moves, en_passant_sound, legal_fold, lemma_legal_moves_keep_board, lemma_pseudo_move_listed,
    is_legal_move, king_square, move_is_legal, populate_pseudo_legal_moves_for_source_square,
    pseudo_moves, promotion_rank, revert_board, apply_board, same_but_board, source_ok, count_pseudo_moves,
    get_promotion_rank, kind_letter, file_letter, Move, MoveList,
};
use crate::{
    file_at, file_name, rank_at, rank_name, square_at, unit_at, Board, Color, File, Game, Rank, Square, Unit,
    UnitKind,
};
use vstd::prelude::*;
use vstd::string::{StrSliceExecFns, StringExecFns};

verus! {

/// What a typed move command asks for.
#[derive(Clone, Copy, Debug)]
pub enum MoveCommand {
    KingSideCastle,
    QueenSideCastle,
    StandardMoveCommand {
        unit_kind: UnitKind,
        destination: Square,
        source_rank: Option<Rank>,
        source_file: Option<File>,
        promotion: Option<UnitKind>,
    },
}

// ---------------------------------------------------------------------------------------------
// Characters

/// Whether `c` is a Unicode white-space character (the `White_Space` property).
pub open spec fn is_white_space(c: char) -> bool {
    let v = c as u32;
    (0x9 <= v <= 0xd) || v == 0x20 || v == 0x85 || v == 0xa0 || v == 0x1680 || (0x2000 <= v <= 0x200a)
        || v == 0x2028 || v == 0x2029 || v == 0x202f || v == 0x205f || v == 0x3000
}

/// Whether `c` is a Unicode white-space character.
pub fn char_is_white_space(c: char) -> (r: bool)
    ensures
        r == is_white_space(c),
{
    let v = c as u32;
    (0x9 <= v && v <= 0xd) || v == 0x20 || v == 0x85 || v == 0xa0 || v == 0x1680 || (0x2000 <= v && v
        <= 0x200a) || v == 0x2028 || v == 0x2029 || v == 0x202f || v == 0x205f || v == 0x3000
}

/// The characters without their leading white space.
pub open spec fn trim_start(s: Seq<char>) -> Seq<char>
    decreases s.len(),
{
    if s.len() > 0 && is_white_space(s[0]) {
        trim_start(s.drop_first())
    } else {
        s
    }
}

/// The characters without their trailing white space.
pub open spec fn trim_end(s: Seq<char>) -> Seq<char>
    decreases s.len(),
{
    if s.len() > 0 && is_white_space(s.last()) {
        trim_end(s.drop_last())
    } else {
        s
    }
}

/// The characters without leading and trailing white space.
pub open spec fn trim(s: Seq<char>) -> Seq<char> {
    trim_end(trim_start(s))
}

/// The KELVIN SIGN, which matches `k` and `K` when case is ignored.
pub open spec fn kelvin_sign() -> char {
    '\u{212A}'
}

/// The characters that name a piece, in either case: K, Q, N, B, R (and the Kelvin sign).
pub open spec fn is_piece_char(c: char) -> bool {
    c == 'K' || c == 'Q' || c == 'N' || c == 'B' || c == 'R' || c == 'k' || c == 'q' || c == 'n' || c == 'b'
        || c == 'r' || c == kelvin_sign()
}

/// The characters that name a file, in either case: a to h.
pub open spec fn is_file_char(c: char) -> bool {
    ('a' <= c <= 'h') || ('A' <= c <= 'H')
}

/// The characters that name a rank: 1 to 8.
pub open spec fn is_rank_char(c: char) -> bool {
    '1' <= c <= '8'
}

fn char_is_piece(c: char) -> (r: bool)
    ensures
        r == is_piece_char(c),
{
    c == 'K' || c == 'Q' || c == 'N' || c == 'B' || c == 'R' || c == 'k' || c == 'q' || c == 'n' || c == 'b'
        || c == 'r' || c == '\u{212A}'
}

fn char_is_file(c: char) -> (r: bool)
    ensures
        r == is_file_char(c),
{
    ('a' <= c && c <= 'h') || ('A' <= c && c <= 'H')
}

fn char_is_rank(c: char) -> (r: bool)
    ensures
        r == is_rank_char(c),
{
    '1' <= c && c <= '8'
}

/// The piece a character names when upper-cased: B, K, N, R, Q in either case.
pub open spec fn piece_of_upper(c: char) -> Option<UnitKind> {
    if c == 'B' || c == 'b' {
        Some(UnitKind::Bishop)
    } else if c == 'K' || c == 'k' {
        Some(UnitKind::King)
    } else if c == 'N' || c == 'n' {
        Some(UnitKind::Knight)
    } else if c == 'R' || c == 'r' {
        Some(UnitKind::Rook)
    } else if c == 'Q' || c == 'q' {
        Some(UnitKind::Queen)
    } else {
        None
    }
}

/// The piece an upper-case letter names: B, K, N, R, Q.
pub open spec fn piece_of(c: char) -> Option<UnitKind> {
    if c == 'B' {
        Some(UnitKind::Bishop)
    } else if c == 'K' {
        Some(UnitKind::King)
    } else if c == 'N' {
        Some(UnitKind::Knight)
    } else if c == 'R' {
        Some(UnitKind::Rook)
    } else if c == 'Q' {
        Some(UnitKind::Queen)
    } else {
        None
    }
}

/// The file a letter names, in either case.
pub open spec fn file_of(c: char) -> Option<File> {
    if c == 'a' || c == 'A' {
        Some(File::A)
    } else if c == 'b' || c == 'B' {
        Some(File::B)
    } else if c == 'c' || c == 'C' {
        Some(File::C)
    } else if c == 'd' || c == 'D' {
        Some(File::D)
    } else if c == 'e' || c == 'E' {
        Some(File::E)
    } else if c == 'f' || c == 'F' {
        Some(File::F)
    } else if c == 'g' || c == 'G' {
        Some(File::G)
    } else if c == 'h' || c == 'H' {
        Some(File::H)
    } else {
        None
    }
}

/// The rank a digit names.
pub open spec fn rank_of(c: char) -> Option<Rank> {
    if c == '1' {
        Some(Rank::One)
    } else if c == '2' {
        Some(Rank::Two)
    } else if c == '3' {
        Some(Rank::Three)
    } else if c == '4' {
        Some(Rank::Four)
    } else if c == '5' {
        Some(Rank::Five)
    } else if c == '6' {
        Some(Rank::Six)
    } else if c == '7' {
        Some(Rank::Seven)
    } else if c == '8' {
        Some(Rank::Eight)
    } else {
        None
    }
}

fn parse_rank(input: char) -> (r: Option<Rank>)
    ensures
        r == rank_of(input),
{
    match input {
        '1' => Some(Rank::One),
        '2' => Some(Rank::Two),
        '3' => Some(Rank::Three),
        '4' => Some(Rank::Four),
        '5' => Some(Rank::Five),
        '6' => Some(Rank::Six),
        '7' => Some(Rank::Seven),
        '8' => Some(Rank::Eight),
        _ => None,
    }
}

fn parse_file(input: char) -> (r: Option<File>)
    ensures
        r == file_of(input),
{
    match input {
        'a' | 'A' => Some(File::A),
        'b' | 'B' => Some(File::B),
        'c' | 'C' => Some(File::C),
        'd' | 'D' => Some(File::D),
        'e' | 'E' => Some(File::E),
        'f' | 'F' => Some(File::F),
        'g' | 'G' => Some(File::G),
        'h' | 'H' => Some(File::H),
        _ => None,
    }
}

fn parse_piece_kind(input: char) -> (r: Option<UnitKind>)
    ensures
        r == piece_of(input),
{
    match input {
        'B' => Some(UnitKind::Bishop),
        'K' => Some(UnitKind::King),
        'N' => Some(UnitKind::Knight),
        'R' => Some(UnitKind::Rook),
        'Q' => Some(UnitKind::Queen),
        _ => None,
    }
}

fn parse_piece_kind_ignoring_case(input: char) -> (r: Option<UnitKind>)
    ensures
        r == piece_of_upper(input),
{
    match input {
        'B' | 'b' => Some(UnitKind::Bishop),
        'K' | 'k' => Some(UnitKind::King),
        'N' | 'n' => Some(UnitKind::Knight),
        'R' | 'r' => Some(UnitKind::Rook),
        'Q' | 'q' => Some(UnitKind::Queen),
        _ => None,
    }
}

fn trimmed_chars(input: &str) -> (r: Vec<char>)
    ensures
        r@ == trim(input@),
{
    let n = input.unicode_len();
    let mut chars: Vec<char> = Vec::new();
    let mut k: usize = 0;
    while k < n
        invariant
            k <= n,
            n == input@.len(),
            chars@ == input@.take(k as int),
        decreases n - k,
    {
        chars.push(input.get_char(k));
        assert(input@.take(k + 1) =~= input@.take(k as int).push(input@[k as int]));
        k = k + 1;
    }
    assert(chars@ =~= input@);
    let ghost s = chars@;
    let mut i: usize = 0;
    assert(s.subrange(0, n as int) =~= s);
    while i < n && char_is_white_space(chars[i])
        invariant
            i <= n,
            n == s.len(),
            chars@ == s,
            trim_start(s) == trim_start(s.subrange(i as int, n as int)),
        decreases n - i,
    {
        assert(s.subrange(i as int, n as int).drop_first() =~= s.subrange(i + 1, n as int));
        i = i + 1;
    }
    assert(trim_start(s.subrange(i as int, n as int)) == s.subrange(i as int, n as int));
    let mut j: usize = n;
    while j > i && char_is_white_space(chars[j - 1])
        invariant
            i <= j <= n,
            n == s.len(),
            chars@ == s,
            trim(s) == trim_end(s.subrange(i as int, j as int)),
        decreases j - i,
    {
        assert(s.subrange(i as int, j as int).drop_last() =~= s.subrange(i as int, j - 1));
        j = j - 1;
    }
    assert(trim_end(s.subrange(i as int, j as int)) == s.subrange(i as int, j as int));
    let mut r: Vec<char> = Vec::new();
    let mut q: usize = i;
    while q < j
        invariant
            i <= q <= j <= n,
            n == s.len(),
            chars@ == s,
            r@ == s.subrange(i as int, q as int),
        decreases j - q,
    {
        r.push(chars[q]);
        assert(s.subrange(i as int, q + 1) =~= s.subrange(i as int, q as int).push(s[q as int]));
        q = q + 1;
    }
    r
}

/// Whether `c` is an `o` in either case.
pub open spec fn is_o(c: char) -> bool {
    c == 'o' || c == 'O'
}

/// Whether the text reads `o-o`, ignoring ASCII case.
pub open spec fn is_king_side_castle_text(t: Seq<char>) -> bool {
    t.len() == 3 && is_o(t[0]) && t[1] == '-' && is_o(t[2])
}

/// Whether the text reads `o-o-o`, ignoring ASCII case.
pub open spec fn is_queen_side_castle_text(t: Seq<char>) -> bool {
    t.len() == 5 && is_o(t[0]) && t[1] == '-' && is_o(t[2]) && t[3] == '-' && is_o(t[4])
}

fn char_is_o(c: char) -> (r: bool)
    ensures
        r == is_o(c),
{
    c == 'o' || c == 'O'
}

/// The parts of a move text: an optional piece letter, optional source file and rank, the
/// destination file and rank, and an optional promotion piece letter.
#[derive(Clone, Copy, Debug)]
pub struct MoveCaptures {
    pub piece: Option<char>,
    pub source_file: Option<char>,
    pub source_rank: Option<char>,
    pub file: char,
    pub rank: char,
    pub promotion: Option<char>,
}

/// Whether the text ends with `=` and a piece letter.
pub open spec fn has_promotion_suffix(t: Seq<char>) -> bool {
    t.len() >= 2 && t[t.len() - 2] == '=' && is_piece_char(t[t.len() - 1])
}

/// The text without its promotion suffix.
pub open spec fn command_core(t: Seq<char>) -> Seq<char> {
    if has_promotion_suffix(t) {
        t.take(t.len() - 2)
    } else {
        t
    }
}

/// How the text before the destination splits into an optional piece letter, source file and
/// source rank, in that order. Where two splits fit, the piece letter is preferred, then the
/// source file.
pub open spec fn prefix_captures(p: Seq<char>) -> Option<(Option<char>, Option<char>, Option<char>)> {
    if p.len() == 0 {
        Some((None, None, None))
    } else if p.len() == 1 {
        if is_piece_char(p[0]) {
            Some((Some(p[0]), None, None))
        } else if is_file_char(p[0]) {
            Some((None, Some(p[0]), None))
        } else if is_rank_char(p[0]) {
            Some((None, None, Some(p[0])))
        } else {
            None
        }
    } else if p.len() == 2 {
        if is_piece_char(p[0]) && is_file_char(p[1]) {
            Some((Some(p[0]), Some(p[1]), None))
        } else if is_piece_char(p[0]) && is_rank_char(p[1]) {
            Some((Some(p[0]), None, Some(p[1])))
        } else if is_file_char(p[0]) && is_rank_char(p[1]) {
            Some((None, Some(p[0]), Some(p[1])))
        } else {
            None
        }
    } else if p.len() == 3 {
        if is_piece_char(p[0]) && is_file_char(p[1]) && is_rank_char(p[2]) {
            Some((Some(p[0]), Some(p[1]), Some(p[2])))
        } else {
            None
        }
    } else {
        None
    }
}

/// The parts of a whole move text: `[piece][source file][source rank]<file><rank>[=<piece>]`,
/// letters in either case.
pub open spec fn move_captures(t: Seq<char>) -> Option<MoveCaptures> {
    let core = command_core(t);
    let n = core.len();
    if n >= 2 && is_file_char(core[n - 2]) && is_rank_char(core[n - 1]) {
        match prefix_captures(core.take(n - 2)) {
            Some((piece, source_file, source_rank)) => Some(
                MoveCaptures {
                    piece,
                    source_file,
                    source_rank,
                    file: core[n - 2],
                    rank: core[n - 1],
                    promotion: if has_promotion_suffix(t) {
                        Some(t[t.len() - 1])
                    } else {
                        None
                    },
                },
            ),
            None => None,
        }
    } else {
        None
    }
}

/// Splits a move text into its parts.
pub fn match_move_text(t: &Vec<char>) -> (r: Option<MoveCaptures>)
    ensures
        r == move_captures(t@),
{
    let len = t.len();
    let has_promotion = len >= 2 && t[len - 2] == '=' && char_is_piece(t[len - 1]);
    let n = if has_promotion {
        len - 2
    } else {
        len
    };
    assert(command_core(t@) =~= t@.take(n as int));
    if !(n >= 2 && char_is_file(t[n - 2]) && char_is_rank(t[n - 1])) {
        return None;
    }
    let promotion = if has_promotion {
        Some(t[len - 1])
    } else {
        None
    };
    let ghost p = t@.take(n as int).take(n - 2);
    assert(p.len() == n - 2);
    assert(forall|i: int| 0 <= i < p.len() ==> p[i] == t@[i]);
    let prefix: Option<(Option<char>, Option<char>, Option<char>)> = if n == 2 {
        Some((None, None, None))
    } else if n == 3 {
        let c = t[0];
        if char_is_piece(c) {
            Some((Some(c), None, None))
        } else if char_is_file(c) {
            Some((None, Some(c), None))
        } else if char_is_rank(c) {
            Some((None, None, Some(c)))
        } else {
            None
        }
    } else if n == 4 {
        let c0 = t[0];
        let c1 = t[1];
        if char_is_piece(c0) && char_is_file(c1) {
            Some((Some(c0), Some(c1), None))
        } else if char_is_piece(c0) && char_is_rank(c1) {
            Some((Some(c0), None, Some(c1)))
        } else if char_is_file(c0) && char_is_rank(c1) {
            Some((None, Some(c0), Some(c1)))
        } else {
            None
        }
    } else if n == 5 {
        let c0 = t[0];
        let c1 = t[1];
        let c2 = t[2];
        if char_is_piece(c0) && char_is_file(c1) && char_is_rank(c2) {
            Some((Some(c0), Some(c1), Some(c2)))
        } else {
            None
        }
    } else {
        None
    };
    assert(prefix == prefix_captures(p));
    match prefix {
        Some((piece, source_file, source_rank)) => Some(
            MoveCaptures { piece, source_file, source_rank, file: t[n - 2], rank: t[n - 1], promotion },
        ),
        None => None,
    }
}

/// The message for text that is not a move command.
pub open spec fn invalid_command_message() -> Seq<char> {
    "Not a valid command"@
}

/// The message for a piece letter that names no piece once upper-cased (the Kelvin sign).
pub open spec fn invalid_unit_kind_message() -> Seq<char> {
    "Invalid unit kind \u{212A}"@
}

/// Whether the captured piece letter, if any, names a piece once upper-cased.
pub open spec fn piece_letter_ok(c: MoveCaptures) -> bool {
    match c.piece {
        None => true,
        Some(p) => piece_of_upper(p) is Some,
    }
}

/// Whether the captured promotion letter, if any, is an upper-case piece letter.
pub open spec fn promotion_letter_ok(c: MoveCaptures) -> bool {
    match c.promotion {
        None => true,
        Some(p) => piece_of(p) is Some,
    }
}

/// The command a typed text stands for, or the message explaining why it stands for none.
/// The text is read without surrounding white space: `o-o` and `o-o-o` (any case) castle;
/// otherwise it must split into move parts, a missing piece letter meaning a pawn.
pub open spec fn command_spec(input: Seq<char>) -> Result<MoveCommand, Seq<char>> {
    let t = trim(input);
    if is_king_side_castle_text(t) {
        Ok(MoveCommand::KingSideCastle)
    } else if is_queen_side_castle_text(t) {
        Ok(MoveCommand::QueenSideCastle)
    } else {
        match move_captures(t) {
            None => Err(invalid_command_message()),
            Some(c) => if !piece_letter_ok(c) {
                Err(invalid_unit_kind_message())
            } else {
                Ok(
                    MoveCommand::StandardMoveCommand {
                        unit_kind: match c.piece {
                            None => UnitKind::Pawn,
                            Some(p) => piece_of_upper(p)->0,
                        },
                        destination: Square(file_of(c.file)->0, rank_of(c.rank)->0),
                        source_rank: match c.source_rank {
                            None => None,
                            Some(r) => rank_of(r),
                        },
                        source_file: match c.source_file {
                            None => None,
                            Some(f) => file_of(f),
                        },
                        promotion: match c.promotion {
                            None => None,
                            Some(p) => piece_of(p),
                        },
                    },
                )
            },
        }
    }
}

/// Whether reading the text as a command fails outright: it is a move text with a usable piece
/// letter but a promotion letter that is not an upper-case piece letter (such as `e8=q`).
pub open spec fn command_panics(input: Seq<char>) -> bool {
    let t = trim(input);
    &&& !is_king_side_castle_text(t)
    &&& !is_queen_side_castle_text(t)
    &&& move_captures(t) is Some
    &&& piece_letter_ok(move_captures(t)->0)
    &&& !promotion_letter_ok(move_captures(t)->0)
}

/// Whether reading `input` as a command would fail outright (see `command_panics`).
pub fn command_would_panic(input: &str) -> (r: bool)
    ensures
        r == command_panics(input@),
{
    let t = trimmed_chars(input);
    let len = t.len();
    if len == 3 && char_is_o(t[0]) && t[1] == '-' && char_is_o(t[2]) {
        return false;
    }
    if len == 5 && char_is_o(t[0]) && t[1] == '-' && char_is_o(t[2]) && t[3] == '-' && char_is_o(t[4]) {
        return false;
    }
    match match_move_text(&t) {
        None => false,
        Some(c) => {
            let piece_ok = match c.piece {
                None => true,
                Some(p) => parse_piece_kind_ignoring_case(p).is_some(),
            };
            let promotion_ok = match c.promotion {
                None => true,
                Some(p) => parse_piece_kind(p).is_some(),
            };
            piece_ok && !promotion_ok
        },
    }
}

/// Reads a typed move command. Castling is `o-o` or `o-o-o`; other moves are written
/// `[piece][source file][source rank]<file><rank>[=<piece>]`.
pub fn parse_move_command(input: &str) -> (r: Result<MoveCommand, String>)
    requires
        !command_panics(input@),
    ensures
        match r {
            Ok(c) => command_spec(input@) == Ok::<MoveCommand, Seq<char>>(c),
            Err(e) => command_spec(input@) == Err::<MoveCommand, Seq<char>>(e@),
        },
{
    let input = trimmed_chars(input);
    let len = input.len();
    if len == 3 && char_is_o(input[0]) && input[1] == '-' && char_is_o(input[2]) {
        return Ok(MoveCommand::KingSideCastle);
    }
    if len == 5 && char_is_o(input[0]) && input[1] == '-' && char_is_o(input[2]) && input[3] == '-'
        && char_is_o(input[4]) {
        return Ok(MoveCommand::QueenSideCastle);
    }
    let caps = match match_move_text(&input) {
        None => {
            return Err(String::from_str("Not a valid command"));
        },
        Some(c) => c,
    };
    let unit_kind = match caps.piece {
        None => UnitKind::Pawn,
        Some(p) => match parse_piece_kind_ignoring_case(p) {
            Some(k) => k,
            None => {
                return Err(String::from_str("Invalid unit kind \u{212A}"));
            },
        },
    };
    let file = parse_file(caps.file);
    let rank = parse_rank(caps.rank);
    let destination = Square(file.unwrap(), rank.unwrap());
    let source_rank = match caps.source_rank {
        None => None,
        Some(r) => parse_rank(r),
    };
    let source_file = match caps.source_file {
        None => None,
        Some(f) => parse_file(f),
    };
    let promotion = match caps.promotion {
        None => None,
        Some(p) => parse_piece_kind(p),
    };
    Ok(MoveCommand::StandardMoveCommand { unit_kind, destination, source_rank, source_file, promotion })
}

/// The message for a promotion away from the last rank.
pub open spec fn early_promotion_message() -> Seq<char> {
    "Cannot promote before the last rank"@
}

/// The message for a promotion of a piece other than a pawn.
pub open spec fn non_pawn_promotion_message() -> Seq<char> {
    "Only pawns may promote"@
}

/// The message for a move onto a piece of one's own side.
pub open spec fn own_capture_message() -> Seq<char> {
    "Cannot capture own piece"@
}

/// The message for a command that matches no pseudo-legal move.
pub open spec fn not_legal_message() -> Seq<char> {
    "Not a legal move"@
}

/// The message for a command that matches several pseudo-legal moves.
pub open spec fn ambiguous_message() -> Seq<char> {
    "Ambiguous move, specify rank and/or file"@
}

/// The message for a move that leaves the mover's king attacked.
pub open spec fn king_in_check_message() -> Seq<char> {
    "Cannot leave own king in check"@
}

/// The ranks a command allows its source on: the one it names, or all of them in order.
pub open spec fn rank_choices(source_rank: Option<Rank>) -> Seq<Rank> {
    match source_rank {
        None => Seq::new(8, |i: int| rank_at(i)),
        Some(r) => seq![r],
    }
}

/// The files a command allows its source on: the one it names, or all of them in order.
pub open spec fn file_choices(source_file: Option<File>) -> Seq<File> {
    match source_file {
        None => Seq::new(8, |i: int| file_at(i)),
        Some(f) => seq![f],
    }
}

/// The squares of `rank` on the first `n` of `files` that hold a unit of `kind` and `color`.
pub open spec fn row_sources(
    b: Seq<Option<Unit>>,
    color: Color,
    kind: UnitKind,
    rank: Rank,
    files: Seq<File>,
    n: int,
) -> Seq<Square>
    decreases n,
{
    if n <= 0 {
        seq![]
    } else {
        let prev = row_sources(b, color, kind, rank, files, n - 1);
        if unit_at(b, Square(files[n - 1], rank)) == Some(Unit { kind, color }) {
            prev.push(Square(files[n - 1], rank))
        } else {
            prev
        }
    }
}

/// The squares on the first `n` of `ranks`, each on any of `files`, that hold a unit of `kind`
/// and `color`, rank by rank.
pub open spec fn matching_sources(
    b: Seq<Option<Unit>>,
    color: Color,
    kind: UnitKind,
    ranks: Seq<Rank>,
    files: Seq<File>,
    n: int,
) -> Seq<Square>
    decreases n,
{
    if n <= 0 {
        seq![]
    } else {
        matching_sources(b, color, kind, ranks, files, n - 1) + row_sources(
            b,
            color,
            kind,
            ranks[n - 1],
            files,
            files.len() as int,
        )
    }
}

/// The move a command describes from `source`: a promotion when a pawn names one, an en-passant
/// capture when a pawn changes file onto an empty square, a normal move otherwise.
pub open spec fn command_move(
    b: Seq<Option<Unit>>,
    source: Square,
    destination: Square,
    kind: UnitKind,
    promotion: Option<UnitKind>,
) -> Move {
    let captured = crate::moves::kind_at(b, destination);
    if kind == UnitKind::Pawn && promotion is Some {
        Move::Promotion { from: source, to: destination, promote_to: promotion->0, captured_unit: captured }
    } else if kind == UnitKind::Pawn && unit_at(b, destination) is None && source.0 != destination.0 {
        Move::EnPassant { from: source, to: destination }
    } else {
        Move::Normal { from: source, to: destination, captured_unit: captured }
    }
}

/// The moves a standard command may mean for `color` on board `b`, one per unit of the named kind
/// on an allowed source square, or why it means none: a promotion off the last rank or of a
/// piece other than a pawn, or a destination held by one's own side.
pub open spec fn possible_moves(
    b: Seq<Option<Unit>>,
    color: Color,
    source_rank: Option<Rank>,
    source_file: Option<File>,
    kind: UnitKind,
    destination: Square,
    promotion: Option<UnitKind>,
) -> Result<Seq<Move>, Seq<char>> {
    if promotion is Some && kind == UnitKind::Pawn && destination.1 != promotion_rank(color) {
        Err(early_promotion_message())
    } else if promotion is Some && kind != UnitKind::Pawn {
        Err(non_pawn_promotion_message())
    } else if unit_at(b, destination) matches Some(u) && u.color == color {
        Err(own_capture_message())
    } else {
        let ranks = rank_choices(source_rank);
        let files = file_choices(source_file);
        let sources = matching_sources(b, color, kind, ranks, files, ranks.len() as int);
        Ok(Seq::new(sources.len(), |i: int| command_move(b, sources[i], destination, kind, promotion)))
    }
}

fn rank_choice_list(source_rank: Option<Rank>) -> (r: Vec<Rank>)
    ensures
        r@ == rank_choices(source_rank),
{
    match source_rank {
        Some(rank) => {
            let mut v: Vec<Rank> = Vec::new();
            v.push(rank);
            assert(v@ =~= rank_choices(source_rank));
            v
        },
        None => {
            let mut v: Vec<Rank> = Vec::new();
            let mut i: usize = 0;
            while i < 8
                invariant
                    i <= 8,
                    v@ == Seq::new(i as nat, |j: int| rank_at(j)),
                decreases 8 - i,
            {
                v.push(Rank::from_index(i));
                assert(v@ =~= Seq::new((i + 1) as nat, |j: int| rank_at(j)));
                i = i + 1;
            }
            v
        },
    }
}

fn file_choice_list(source_file: Option<File>) -> (r: Vec<File>)
    ensures
        r@ == file_choices(source_file),
{
    match source_file {
        Some(file) => {
            let mut v: Vec<File> = Vec::new();
            v.push(file);
            assert(v@ =~= file_choices(source_file));
            v
        },
        None => {
            let mut v: Vec<File> = Vec::new();
            let mut i: usize = 0;
            while i < 8
                invariant
                    i <= 8,
                    v@ == Seq::new(i as nat, |j: int| file_at(j)),
                decreases 8 - i,
            {
                v.push(File::from_index(i));
                assert(v@ =~= Seq::new((i + 1) as nat, |j: int| file_at(j)));
                i = i + 1;
            }
            v
        },
    }
}

/// The moves a standard command may mean (see `possible_moves`).
fn generate_possible_standard_moves_for_command(
    board: &Board,
    color: Color,
    source_rank: Option<Rank>,
    source_file: Option<File>,
    unit_kind: UnitKind,
    destination: Square,
    promotion: Option<UnitKind>,
) -> (r: Result<Vec<Move>, String>)
    ensures
        match r {
            Ok(v) => possible_moves(board@, color, source_rank, source_file, unit_kind, destination, promotion)
                == Ok::<Seq<Move>, Seq<char>>(v@),
            Err(e) => possible_moves(board@, color, source_rank, source_file, unit_kind, destination, promotion)
                == Err::<Seq<Move>, Seq<char>>(e@),
        },
{
    if promotion.is_some() {
        if unit_kind == UnitKind::Pawn {
            if destination.1 != get_promotion_rank(color) {
                return Err(String::from_str("Cannot promote before the last rank"));
            }
        } else {
            return Err(String::from_str("Only pawns may promote"));
        }
    }
    let destination_unit = board.get(destination);
    let captured_unit_kind = match destination_unit {
        None => None,
        Some(unit) => if unit.color == color {
            return Err(String::from_str("Cannot capture own piece"));
        } else {
            Some(unit.kind)
        },
    };
    let possible_source_ranks = rank_choice_list(source_rank);
    let possible_source_files = file_choice_list(source_file);
    let ghost b = board@;
    let ghost ranks = possible_source_ranks@;
    let ghost files = possible_source_files@;
    let mut matching_sources: Vec<Square> = Vec::new();
    let mut i: usize = 0;
    while i < possible_source_ranks.len()
        invariant
            i <= ranks.len(),
            ranks == possible_source_ranks@,
            files == possible_source_files@,
            b == board@,
            matching_sources@ == crate::moves::commands::matching_sources(b, color, unit_kind, ranks, files, i as int),
        decreases ranks.len() - i,
    {
        let rank = possible_source_ranks[i];
        let ghost before = matching_sources@;
        let mut j: usize = 0;
        while j < possible_source_files.len()
            invariant
                i < ranks.len(),
                j <= files.len(),
                rank == ranks[i as int],
                ranks == possible_source_ranks@,
                files == possible_source_files@,
                b == board@,
                before == crate::moves::commands::matching_sources(b, color, unit_kind, ranks, files, i as int),
                matching_sources@ == before + row_sources(b, color, unit_kind, rank, files, j as int),
            decreases files.len() - j,
        {
            let file = possible_source_files[j];
            if let Some(unit) = board.get(Square(file, rank)) {
                if unit.color == color && unit.kind == unit_kind {
                    matching_sources.push(Square(file, rank));
                }
            }
            assert(matching_sources@ =~= before + row_sources(b, color, unit_kind, rank, files, j + 1));
            j = j + 1;
        }
        i = i + 1;
    }
    let ghost sources = matching_sources@;
    let mut moves: Vec<Move> = Vec::new();
    let mut k: usize = 0;
    while k < matching_sources.len()
        invariant
            k <= sources.len(),
            sources == matching_sources@,
            captured_unit_kind == crate::moves::kind_at(b, destination),
            destination_unit == unit_at(b, destination),
            b == board@,
            moves@ == Seq::new(k as nat, |q: int| command_move(b, sources[q], destination, unit_kind, promotion)),
        decreases sources.len() - k,
    {
        let source = matching_sources[k];
        let m = if unit_kind == UnitKind::Pawn && promotion.is_some() {
            Move::Promotion {
                from: source,
                to: destination,
                promote_to: promotion.unwrap(),
                captured_unit: captured_unit_kind,
            }
        } else if unit_kind == UnitKind::Pawn && destination_unit.is_none() && source.0 != destination.0 {
            // a pawn move to a different file without capture must be en passant
            Move::EnPassant { from: source, to: destination }
        } else {
            Move::Normal { from: source, to: destination, captured_unit: captured_unit_kind }
        };
        moves.push(m);
        assert(moves@ =~= Seq::new((k + 1) as nat, |q: int| command_move(b, sources[q], destination, unit_kind, promotion)));
        k = k + 1;
    }
    Ok(moves)
}

/// The kind of piece a command moves: the king for castling.
pub open spec fn moving_kind(cmd: MoveCommand) -> UnitKind {
    match cmd {
        MoveCommand::KingSideCastle => UnitKind::King,
        MoveCommand::QueenSideCastle => UnitKind::King,
        MoveCommand::StandardMoveCommand { unit_kind, .. } => unit_kind,
    }
}

/// The moves a command may mean in `g`, or why it means none.
pub open spec fn command_candidates(g: Game, cmd: MoveCommand) -> Result<Seq<Move>, Seq<char>> {
    match cmd {
        MoveCommand::KingSideCastle => Ok(seq![Move::KingSideCastle]),
        MoveCommand::QueenSideCastle => Ok(seq![Move::QueenSideCastle]),
        MoveCommand::StandardMoveCommand { unit_kind, destination, source_rank, source_file, promotion } =>
            possible_moves(g.board@, g.next_move, source_rank, source_file, unit_kind, destination, promotion),
    }
}

/// Whether the square at array position `i` holds a unit of `kind` of the side to play.
pub open spec fn holds_own_kind(g: Game, kind: UnitKind, sq: Square) -> bool {
    unit_at(g.board@, sq) == Some(Unit { kind, color: g.next_move })
}

/// The pseudo-legal moves of the units of `kind` of the side to play on the first `k` squares,
/// counted rank by rank, each rank from file A.
pub open spec fn kind_pseudo_moves_upto(g: Game, kind: UnitKind, k: int) -> Seq<Move>
    decreases k,
{
    if k <= 0 {
        seq![]
    } else {
        kind_pseudo_moves_upto(g, kind, k - 1) + if holds_own_kind(g, kind, square_at(k - 1)) {
            pseudo_moves(g, square_at(k - 1))
        } else {
            seq![]
        }
    }
}

/// The pseudo-legal moves of every unit of `kind` of the side to play.
pub open spec fn kind_pseudo_moves(g: Game, kind: UnitKind) -> Seq<Move> {
    kind_pseudo_moves_upto(g, kind, 64)
}

proof fn lemma_kind_pseudo_moves_mono(g: Game, kind: UnitKind, i: int, j: int)
    requires
        0 <= i <= j,
    ensures
        kind_pseudo_moves_upto(g, kind, i).len() <= kind_pseudo_moves_upto(g, kind, j).len(),
    decreases j - i,
{
    if i < j {
        lemma_kind_pseudo_moves_mono(g, kind, i, j - 1);
    }
}

/// Whether the moves of every unit of `kind` of the side to play can be listed: no such square
/// exceeds its limits and they number at most 256.
pub open spec fn kind_moves_fit(g: Game, kind: UnitKind) -> bool {
    &&& forall|sq: Square| #[trigger] holds_own_kind(g, kind, sq) ==> source_ok(g, sq)
    &&& kind_pseudo_moves(g, kind).len() <= 256
}

/// The first `n` of `possible` that occur in `listed`, in order.
pub open spec fn listed_candidates(possible: Seq<Move>, listed: Seq<Move>, n: int) -> Seq<Move>
    decreases n,
{
    if n <= 0 {
        seq![]
    } else {
        let prev = listed_candidates(possible, listed, n - 1);
        if listed.contains(possible[n - 1]) {
            prev.push(possible[n - 1])
        } else {
            prev
        }
    }
}

/// The moves a command means in `g` that are pseudo-legal, when the command reads and yields
/// candidates.
pub open spec fn pseudo_legal_candidates(input: Seq<char>, g: Game) -> Result<Seq<Move>, Seq<char>> {
    match command_spec(input) {
        Err(e) => Err(e),
        Ok(cmd) => match command_candidates(g, cmd) {
            Err(e) => Err(e),
            Ok(possible) => Ok(
                listed_candidates(possible, kind_pseudo_moves(g, moving_kind(cmd)), possible.len() as int),
            ),
        },
    }
}

/// The kind whose moves are listed while reading the command, if reading gets that far.
pub open spec fn parse_listing_kind(input: Seq<char>, g: Game) -> Option<UnitKind> {
    match command_spec(input) {
        Ok(cmd) => if command_candidates(g, cmd) is Ok {
            Some(moving_kind(cmd))
        } else {
            None
        },
        Err(_) => None,
    }
}

/// The single pseudo-legal move a command means, which is then checked for legality.
pub open spec fn parse_checked_move(input: Seq<char>, g: Game) -> Option<Move> {
    match pseudo_legal_candidates(input, g) {
        Ok(c) => if c.len() == 1 {
            Some(c[0])
        } else {
            None
        },
        Err(_) => None,
    }
}

/// What reading `input` as a move in `g` gives: the errors of reading the command and of its
/// candidates; `Not a legal move` when none of its candidates is pseudo-legal; the ambiguity
/// message when several are; the check message when the only one leaves the king attacked;
/// otherwise that move.
pub open spec fn parse_outcome(input: Seq<char>, g: Game) -> Result<Move, Seq<char>> {
    match pseudo_legal_candidates(input, g) {
        Err(e) => Err(e),
        Ok(c) => if c.len() == 0 {
            Err(not_legal_message())
        } else if c.len() > 1 {
            Err(ambiguous_message())
        } else if !move_is_legal(g.board@, king_square(g), g.next_move, c[0]) {
            Err(king_in_check_message())
        } else {
            Ok(c[0])
        },
    }
}

/// Whether `parse_move` can read `input` in `game` without failing outright.
pub open spec fn parse_move_allowed(input: Seq<char>, g: Game) -> bool {
    &&& !command_panics(input)
    &&& parse_listing_kind(input, g) matches Some(k) ==> kind_moves_fit(g, k)
}

fn list_contains(listed: &[Move], m: Move) -> (r: bool)
    ensures
        r == listed@.contains(m),
{
    let mut i: usize = 0;
    while i < listed.len()
        invariant
            i <= listed@.len(),
            forall|j: int| 0 <= j < i ==> listed@[j] != m,
        decreases listed@.len() - i,
    {
        if listed[i] == m {
            assert(listed@[i as int] == m);
            return true;
        }
        i = i + 1;
    }
    false
}

fn candidate_moves(game: &Game, cmd: MoveCommand) -> (r: Result<Vec<Move>, String>)
    ensures
        match r {
            Ok(v) => command_candidates(*game, cmd) == Ok::<Seq<Move>, Seq<char>>(v@),
            Err(e) => command_candidates(*game, cmd) == Err::<Seq<Move>, Seq<char>>(e@),
        },
{
    match cmd {
        MoveCommand::KingSideCastle => {
            let mut v: Vec<Move> = Vec::new();
            v.push(Move::KingSideCastle);
            assert(v@ =~= seq![Move::KingSideCastle]);
            Ok(v)
        },
        MoveCommand::QueenSideCastle => {
            let mut v: Vec<Move> = Vec::new();
            v.push(Move::QueenSideCastle);
            assert(v@ =~= seq![Move::QueenSideCastle]);
            Ok(v)
        },
        MoveCommand::StandardMoveCommand { unit_kind, destination, source_rank, source_file, promotion } => {
            generate_possible_standard_moves_for_command(
                &game.board,
                game.next_move,
                source_rank,
                source_file,
                unit_kind,
                destination,
                promotion,
            )
        },
    }
}

fn command_unit_kind(cmd: MoveCommand) -> (r: UnitKind)
    ensures
        r == moving_kind(cmd),
{
    match cmd {
        MoveCommand::KingSideCastle => UnitKind::King,
        MoveCommand::QueenSideCastle => UnitKind::King,
        MoveCommand::StandardMoveCommand { unit_kind, .. } => unit_kind,
    }
}

/// Reads a typed move for the side to play (see `parse_outcome`). The one candidate left is
/// checked by playing it and taking it back on the board; nothing else of the game changes.
pub fn parse_move(input: &str, game: &mut Game) -> (r: Result<Move, String>)
    requires
        parse_move_allowed(input@, *old(game)),
    ensures
        match r {
            Ok(m) => parse_outcome(input@, *old(game)) == Ok::<Move, Seq<char>>(m),
            Err(e) => parse_outcome(input@, *old(game)) == Err::<Move, Seq<char>>(e@),
        },
        final(game).board@ == match parse_checked_move(input@, *old(game)) {
            Some(m) => revert_board(apply_board(old(game).board@, old(game).next_move, m), old(game).next_move, m),
            None => old(game).board@,
        },
        same_but_board(*final(game), *old(game)),
{
    let move_command = parse_move_command(input)?;
    // a move command can be ambiguous eg NA2 - could refer to a move by more than one knight
    // get a list of possible moves this command could refer to
    let possible_moves_for_command = candidate_moves(game, move_command)?;
    let moving_unit_kind = command_unit_kind(move_command);
    let ghost g = *game;
    let mut pseudo_legal_moves_for_unit_kind = MoveList::new(Move::KingSideCastle);
    let mut k: usize = 0;
    while k < 64
        invariant
            k <= 64,
            *game == g,
            kind_moves_fit(g, moving_unit_kind),
            pseudo_legal_moves_for_unit_kind@ == kind_pseudo_moves_upto(g, moving_unit_kind, k as int),
        decreases 64 - k,
    {
        let square = Square(File::from_index(k % 8), Rank::from_index(k / 8));
        assert(square == square_at(k as int));
        proof {
            lemma_kind_pseudo_moves_mono(g, moving_unit_kind, k + 1, 64);
        }
        if let Some(unit) = game.board.get(square) {
            if unit.kind == moving_unit_kind && unit.color == game.next_move {
                assert(holds_own_kind(g, moving_unit_kind, square));
                populate_pseudo_legal_moves_for_source_square(game, square, &mut pseudo_legal_moves_for_unit_kind);
            }
        }
        assert(pseudo_legal_moves_for_unit_kind@ =~= kind_pseudo_moves_upto(g, moving_unit_kind, k + 1));
        k = k + 1;
    }
    let listed = pseudo_legal_moves_for_unit_kind.to_slice();
    let ghost possible = possible_moves_for_command@;
    let mut possible_pseudo_legal_moves_for_command: Vec<Move> = Vec::new();
    let mut i: usize = 0;
    while i < possible_moves_for_command.len()
        invariant
            i <= possible.len(),
            possible == possible_moves_for_command@,
            listed@ == kind_pseudo_moves(g, moving_unit_kind),
            possible_pseudo_legal_moves_for_command@ == listed_candidates(possible, listed@, i as int),
        decreases possible.len() - i,
    {
        let m = possible_moves_for_command[i];
        if list_contains(listed, m) {
            possible_pseudo_legal_moves_for_command.push(m);
        }
        i = i + 1;
    }
    assert(possible_pseudo_legal_moves_for_command@ == pseudo_legal_candidates(input@, g)->Ok_0);
    if possible_pseudo_legal_moves_for_command.len() == 0 {
        return Err(String::from_str("Not a legal move"));
    }
    if possible_pseudo_legal_moves_for_command.len() > 1 {
        return Err(String::from_str("Ambiguous move, specify rank and/or file"));
    }
    let only_pseudo_legal_move = possible_pseudo_legal_moves_for_command[0];
    let king_position = if game.next_move == Color::White {
        game.white_king_position
    } else {
        game.black_king_position
    };
    let color = game.next_move;
    if !is_legal_move(&mut game.board, king_position, color, only_pseudo_legal_move) {
        return Err(String::from_str("Cannot leave own king in check"));
    }
    Ok(only_pseudo_legal_move)
}

fn kind_moves_fit_check(game: &Game, kind: UnitKind) -> (r: bool)
    ensures
        r == kind_moves_fit(*game, kind),
{
    let mut total: usize = 0;
    let mut k: usize = 0;
    while k < 64
        invariant
            k <= 64,
            total <= 256,
            total == kind_pseudo_moves_upto(*game, kind, k as int).len(),
            forall|j: int| 0 <= j < k && holds_own_kind(*game, kind, #[trigger] square_at(j)) ==> source_ok(*game, square_at(j)),
        decreases 64 - k,
    {
        let square = Square(File::from_index(k % 8), Rank::from_index(k / 8));
        assert(square == square_at(k as int));
        if let Some(unit) = game.board.get(square) {
            if unit.kind == kind && unit.color == game.next_move {
                assert(holds_own_kind(*game, kind, square));
                match count_pseudo_moves(game, square) {
                    None => {
                        return false;
                    },
                    Some(n) => {
                        if n > 256 - total {
                            proof {
                                lemma_kind_pseudo_moves_mono(*game, kind, k + 1, 64);
                            }
                            return false;
                        }
                        total = total + n;
                    },
                }
            }
        }
        k = k + 1;
    }
    assert forall|sq: Square| #[trigger] holds_own_kind(*game, kind, sq) implies source_ok(*game, sq) by {
        crate::lemma_square_at_index(sq);
        crate::lemma_square_index(sq, sq);
    }
    true
}

/// Whether `parse_move` can read `input` in `game` (see `parse_move_allowed`).
pub fn can_parse_move(input: &str, game: &Game) -> (r: bool)
    ensures
        r == parse_move_allowed(input@, *game),
{
    if command_would_panic(input) {
        return false;
    }
    let cmd = match parse_move_command(input) {
        Err(_) => {
            return true;
        },
        Ok(c) => c,
    };
    match candidate_moves(game, cmd) {
        Err(_) => {
            return true;
        },
        Ok(_) => {},
    }
    kind_moves_fit_check(game, command_unit_kind(cmd))
}

proof fn lemma_listed_candidates(possible: Seq<Move>, listed: Seq<Move>, n: int)
    requires
        0 <= n <= possible.len(),
    ensures
        forall|j: int|
            0 <= j < listed_candidates(possible, listed, n).len() ==> listed.contains(
                #[trigger] listed_candidates(possible, listed, n)[j],
            ),
    decreases n,
{
    if n > 0 {
        lemma_listed_candidates(possible, listed, n - 1);
        let prev = listed_candidates(possible, listed, n - 1);
        let cur = listed_candidates(possible, listed, n);
        assert forall|j: int| 0 <= j < cur.len() implies listed.contains(#[trigger] cur[j]) by {
            if j < prev.len() {
                assert(cur[j] == prev[j]);
            }
        }
    }
}

proof fn lemma_kind_pseudo_moves_listed(g: Game, kind: UnitKind, k: int, m: Move)
    requires
        0 <= k <= 64,
        kind_pseudo_moves_upto(g, kind, k).contains(m),
    ensures
        all_pseudo_moves(g).contains(m),
    decreases k,
{
    if k > 0 {
        let prev = kind_pseudo_moves_upto(g, kind, k - 1);
        let i = choose|i: int| 0 <= i < kind_pseudo_moves_upto(g, kind, k).len() && kind_pseudo_moves_upto(g, kind, k)[i] == m;
        if i < prev.len() {
            assert(prev[i] == m);
            lemma_kind_pseudo_moves_listed(g, kind, k - 1, m);
        } else {
            let sq = square_at(k - 1);
            assert(holds_own_kind(g, kind, sq));
            assert(pseudo_moves(g, sq)[i - prev.len()] == m);
            lemma_pseudo_move_listed(g, sq, m);
        }
    }
}

/// A move that `parse_move` accepts is one of the legal moves `get_legal_moves` lists, whenever
/// the en-passant square describes the board.
pub proof fn lemma_parsed_move_is_listed(input: Seq<char>, g: Game, m: Move)
    requires
        en_passant_sound(g),
        parse_outcome(input, g) == Ok::<Move, Seq<char>>(m),
    ensures
        legal_fold(g.board@, king_square(g), g.next_move, all_pseudo_moves(g)).0.contains(m),
        move_is_legal(g.board@, king_square(g), g.next_move, m),
{
    let cmd = command_spec(input)->Ok_0;
    let possible = command_candidates(g, cmd)->Ok_0;
    let listed = kind_pseudo_moves(g, moving_kind(cmd));
    lemma_listed_candidates(possible, listed, possible.len() as int);
    let c = listed_candidates(possible, listed, possible.len() as int);
    assert(c[0] == m);
    assert(listed.contains(m));
    lemma_kind_pseudo_moves_listed(g, moving_kind(cmd), 64, m);
    let all = all_pseudo_moves(g);
    let pred = |mv: Move| move_is_legal(g.board@, king_square(g), g.next_move, mv);
    lemma_legal_moves_keep_board(g);
    broadcast use vstd::seq_lib::group_filter_ensures;
    let i = choose|i: int| 0 <= i < all.len() && all[i] == m;
    assert(pred(all[i]));
}


/// The letters a command uses are those moves are written with: a piece letter names the kind
/// whose notation letter it is (`Q` a queen, `N` a knight, `R` a rook, `B` a bishop, `K` a king);
/// a file letter, in either case, names the file written with it; a digit names the rank
/// written with it.
pub proof fn lemma_letters_name_what_they_write(c: char, k: UnitKind, f: File, r: Rank)
    ensures
        piece_of(c) == Some(k) <==> (k != UnitKind::Pawn && kind_letter(k) == seq![c]),
        file_of(c) == Some(f) <==> (file_letter(f) == seq![c] || file_name(f) == seq![c]),
        rank_of(c) == Some(r) <==> rank_name(r) == seq![c],
{
    reveal_strlit("B");
    reveal_strlit("K");
    reveal_strlit("N");
    reveal_strlit("");
    reveal_strlit("Q");
    reveal_strlit("R");
    reveal_strlit("a");
    reveal_strlit("b");
    reveal_strlit("c");
    reveal_strlit("d");
    reveal_strlit("e");
    reveal_strlit("f");
    reveal_strlit("g");
    reveal_strlit("h");
    reveal_strlit("A");
    reveal_strlit("C");
    reveal_strlit("D");
    reveal_strlit("E");
    reveal_strlit("F");
    reveal_strlit("G");
    reveal_strlit("H");
    reveal_strlit("1");
    reveal_strlit("2");
    reveal_strlit("3");
    reveal_strlit("4");
    reveal_strlit("5");
    reveal_strlit("6");
    reveal_strlit("7");
    reveal_strlit("8");
    assert(kind_letter(k) == seq![c] ==> kind_letter(k)[0] == c);
    assert(file_letter(f) == seq![c] ==> file_letter(f)[0] == c);
    assert(file_name(f) == seq![c] ==> file_name(f)[0] == c);
    assert(rank_name(r) == seq![c] ==> rank_name(r)[0] == c);
    if piece_of(c) == Some(k) {
        assert(kind_letter(k) =~= seq![c]);
    }
    if file_of(c) == Some(f) {
        assert(file_letter(f) =~= seq![c] || file_name(f) =~= seq![c]);
    }
    if rank_of(c) == Some(r) {
        assert(rank_name(r) =~= seq![c]);
    }
}

/// A lower-case letter names, once upper-cased, the piece its capital names; any other character
/// names the piece it names as it stands.
pub proof fn lemma_piece_letters_ignore_case(c: char)
    ensures
        ('a' <= c <= 'z') ==> piece_of_upper(c) == piece_of(((c as int) - 32) as char),
        !('a' <= c <= 'z') ==> piece_of_upper(c) == piece_of(c),
{
}

/// The target square of a move that has one.
pub open spec fn move_target(m: Move) -> Option<Square> {
    match m {
        Move::Normal { to, .. } => Some(to),
        Move::Promotion { to, .. } => Some(to),
        Move::EnPassant { to, .. } => Some(to),
        _ => None,
    }
}

proof fn lemma_listed_candidates_from_possible(possible: Seq<Move>, listed: Seq<Move>, n: int)
    requires
        0 <= n <= possible.len(),
    ensures
        forall|j: int|
            0 <= j < listed_candidates(possible, listed, n).len() ==> possible.contains(
                #[trigger] listed_candidates(possible, listed, n)[j],
            ),
    decreases n,
{
    if n > 0 {
        lemma_listed_candidates_from_possible(possible, listed, n - 1);
        let prev = listed_candidates(possible, listed, n - 1);
        let cur = listed_candidates(possible, listed, n);
        assert forall|j: int| 0 <= j < cur.len() implies possible.contains(#[trigger] cur[j]) by {
            if j < prev.len() {
                assert(cur[j] == prev[j]);
            } else {
                assert(cur[j] == possible[n - 1]);
            }
        }
    }
}

/// A move read from a text is the one the text writes: castling king side from `o-o`, queen side
/// from `o-o-o`; otherwise its target is the square written just before any promotion suffix, and
/// a promotion is to the piece whose letter ends the text after `=`.
pub proof fn lemma_parsed_move_matches_text(input: Seq<char>, g: Game, m: Move)
    requires
        parse_outcome(input, g) == Ok::<Move, Seq<char>>(m),
    ensures
        m == Move::KingSideCastle ==> is_king_side_castle_text(trim(input)),
        m == Move::QueenSideCastle ==> is_queen_side_castle_text(trim(input)),
        ({
            let t = trim(input);
            let core = command_core(t);
            let n = core.len();
            move_target(m) matches Some(to) ==> n >= 2 && (file_letter(to.0) == seq![core[n - 2]]
                || file_name(to.0) == seq![core[n - 2]]) && rank_name(to.1) == seq![core[n - 1]]
        }),
        ({
            let t = trim(input);
            m matches Move::Promotion { promote_to, .. } ==> t.len() >= 2 && t[t.len() - 2] == '='
                && kind_letter(promote_to) == seq![t[t.len() - 1]]
        }),
{
    let t = trim(input);
    let cmd = command_spec(input)->Ok_0;
    let possible = command_candidates(g, cmd)->Ok_0;
    let listed = kind_pseudo_moves(g, moving_kind(cmd));
    lemma_listed_candidates_from_possible(possible, listed, possible.len() as int);
    let c = listed_candidates(possible, listed, possible.len() as int);
    assert(c[0] == m);
    assert(possible.contains(m));
    let i = choose|i: int| 0 <= i < possible.len() && possible[i] == m;
    match cmd {
        MoveCommand::KingSideCastle => {
            assert(possible =~= seq![Move::KingSideCastle]);
        },
        MoveCommand::QueenSideCastle => {
            assert(possible =~= seq![Move::QueenSideCastle]);
        },
        MoveCommand::StandardMoveCommand { unit_kind, destination, source_rank, source_file, promotion } => {
            let caps = move_captures(t)->0;
            let core = command_core(t);
            let n = core.len();
            assert(!is_king_side_castle_text(t) && !is_queen_side_castle_text(t));
            assert(destination.0 == file_of(caps.file)->0 && destination.1 == rank_of(caps.rank)->0);
            assert(caps.file == core[n - 2] && caps.rank == core[n - 1]);
            lemma_letters_name_what_they_write(caps.file, unit_kind, destination.0, destination.1);
            lemma_letters_name_what_they_write(caps.rank, unit_kind, destination.0, destination.1);
            let b = g.board@;
            let ranks = rank_choices(source_rank);
            let files = file_choices(source_file);
            let sources = matching_sources(b, g.next_move, unit_kind, ranks, files, ranks.len() as int);
            assert(possible[i] == command_move(b, sources[i], destination, unit_kind, promotion));
            assert(move_target(m) == Some(destination));
            if let Move::Promotion { promote_to, .. } = m {
                assert(promotion == Some(promote_to));
                assert(has_promotion_suffix(t));
                lemma_letters_name_what_they_write(t[t.len() - 1], promote_to, destination.0, destination.1);
            }
        },
    }
}


/// The source square of a move that has one.
pub open spec fn move_source(m: Move) -> Option<Square> {
    match m {
        Move::Normal { from, .. } => Some(from),
        Move::Promotion { from, .. } => Some(from),
        Move::EnPassant { from, .. } => Some(from),
        _ => None,
    }
}

proof fn lemma_row_sources_props(
    b: Seq<Option<Unit>>,
    color: Color,
    kind: UnitKind,
    rank: Rank,
    files: Seq<File>,
    n: int,
)
    requires
        0 <= n <= files.len(),
    ensures
        forall|j: int|
            0 <= j < row_sources(b, color, kind, rank, files, n).len() ==> {
                let x = #[trigger] row_sources(b, color, kind, rank, files, n)[j];
                &&& unit_at(b, x) == Some(Unit { kind, color })
                &&& x.1 == rank
                &&& files.contains(x.0)
            },
    decreases n,
{
    if n > 0 {
        lemma_row_sources_props(b, color, kind, rank, files, n - 1);
        let prev = row_sources(b, color, kind, rank, files, n - 1);
        let cur = row_sources(b, color, kind, rank, files, n);
        assert forall|j: int| 0 <= j < cur.len() implies {
            let x = #[trigger] cur[j];
            &&& unit_at(b, x) == Some(Unit { kind, color })
            &&& x.1 == rank
            &&& files.contains(x.0)
        } by {
            if j < prev.len() {
                assert(cur[j] == prev[j]);
            } else {
                assert(cur[j] == Square(files[n - 1], rank));
            }
        }
    }
}

proof fn lemma_matching_sources_props(
    b: Seq<Option<Unit>>,
    color: Color,
    kind: UnitKind,
    ranks: Seq<Rank>,
    files: Seq<File>,
    n: int,
)
    requires
        0 <= n <= ranks.len(),
    ensures
        forall|j: int|
            0 <= j < matching_sources(b, color, kind, ranks, files, n).len() ==> {
                let x = #[trigger] matching_sources(b, color, kind, ranks, files, n)[j];
                &&& unit_at(b, x) == Some(Unit { kind, color })
                &&& ranks.contains(x.1)
                &&& files.contains(x.0)
            },
    decreases n,
{
    if n > 0 {
        lemma_matching_sources_props(b, color, kind, ranks, files, n - 1);
        let prev = matching_sources(b, color, kind, ranks, files, n - 1);
        let row = row_sources(b, color, kind, ranks[n - 1], files, files.len() as int);
        lemma_row_sources_props(b, color, kind, ranks[n - 1], files, files.len() as int);
        let cur = matching_sources(b, color, kind, ranks, files, n);
        assert forall|j: int| 0 <= j < cur.len() implies {
            let x = #[trigger] cur[j];
            &&& unit_at(b, x) == Some(Unit { kind, color })
            &&& ranks.contains(x.1)
            &&& files.contains(x.0)
        } by {
            if j < prev.len() {
                assert(cur[j] == prev[j]);
            } else {
                assert(cur[j] == row[j - prev.len()]);
                assert(ranks[n - 1] == cur[j].1);
            }
        }
    }
}

/// A move read from a text moves a unit of the side to play of the kind the text names: the piece
/// letter, in either case, or a pawn when there is none; when the text names a source file or
/// rank, the move starts there.
pub proof fn lemma_parsed_move_source(input: Seq<char>, g: Game, m: Move)
    requires
        parse_outcome(input, g) == Ok::<Move, Seq<char>>(m),
        move_source(m) is Some,
    ensures
        ({
            let t = trim(input);
            let caps = move_captures(t)->0;
            let from = move_source(m)->0;
            &&& move_captures(t) is Some
            &&& unit_at(g.board@, from) == Some(
                Unit {
                    kind: match caps.piece {
                        None => UnitKind::Pawn,
                        Some(p) => piece_of_upper(p)->0,
                    },
                    color: g.next_move,
                },
            )
            &&& caps.source_file matches Some(c) ==> file_of(c) == Some(from.0)
            &&& caps.source_rank matches Some(c) ==> rank_of(c) == Some(from.1)
        }),
{
    let t = trim(input);
    let cmd = command_spec(input)->Ok_0;
    let possible = command_candidates(g, cmd)->Ok_0;
    let listed = kind_pseudo_moves(g, moving_kind(cmd));
    lemma_listed_candidates_from_possible(possible, listed, possible.len() as int);
    let c = listed_candidates(possible, listed, possible.len() as int);
    assert(c[0] == m);
    assert(possible.contains(m));
    let i = choose|i: int| 0 <= i < possible.len() && possible[i] == m;
    match cmd {
        MoveCommand::KingSideCastle => {
            assert(possible =~= seq![Move::KingSideCastle]);
        },
        MoveCommand::QueenSideCastle => {
            assert(possible =~= seq![Move::QueenSideCastle]);
        },
        MoveCommand::StandardMoveCommand { unit_kind, destination, source_rank, source_file, promotion } => {
            let b = g.board@;
            let ranks = rank_choices(source_rank);
            let files = file_choices(source_file);
            let sources = matching_sources(b, g.next_move, unit_kind, ranks, files, ranks.len() as int);
            lemma_matching_sources_props(b, g.next_move, unit_kind, ranks, files, ranks.len() as int);
            assert(possible[i] == command_move(b, sources[i], destination, unit_kind, promotion));
            let from = sources[i];
            assert(move_source(m) == Some(from));
            assert(unit_at(b, from) == Some(Unit { kind: unit_kind, color: g.next_move }));
            assert(ranks.contains(from.1));
            assert(files.contains(from.0));
            if let Some(f) = source_file {
                let k = choose|k: int| 0 <= k < files.len() && files[k] == from.0;
                assert(files[k] == f);
            }
            if let Some(r) = source_rank {
                let k = choose|k: int| 0 <= k < ranks.len() && ranks[k] == from.1;
                assert(ranks[k] == r);
            }
        },
    }
}

} // verus!
