//! A small chess engine: the board, the game state, move generation,
//! move application, a move-command parser and two move-choosing strategies.
use vstd::prelude::*;
use vstd::string::StringExecFns;

pub mod analysis;
pub mod moves;
pub mod utilities;

verus! {

/// The two sides of a game.
#[derive(Clone, Copy, Debug, PartialEq, Eq, Structural)]
pub enum Color {
    White,
    Black,
}

/// The kinds of chess pieces.
#[derive(Clone, Copy, Debug, PartialEq, Eq, Hash, Structural)]
pub enum UnitKind {
    Pawn,
    Knight,
    Bishop,
    Rook,
    Queen,
    King,
}

/// Board columns, from the queen side (A) to the king side (H).
#[derive(Clone, Copy, Debug, PartialEq, Eq, Hash, Structural)]
pub enum File {
    A,
    B,
    C,
    D,
    E,
    F,
    G,
    H,
}

/// Board rows, from White's back rank (One) to Black's back rank (Eight).
#[derive(Clone, Copy, Debug, PartialEq, Eq, Hash, Structural)]
pub enum Rank {
    One,
    Two,
    Three,
    Four,
    Five,
    Six,
    Seven,
    Eight,
}

/// Every file, in board order.
pub const ALL_FILES: [File; 8] = [File::A, File::B, File::C, File::D, File::E, File::F, File::G, File::H];

/// Every rank, in board order.
pub const ALL_RANKS: [Rank; 8] = [
    Rank::One,
    Rank::Two,
    Rank::Three,
    Rank::Four,
    Rank::Five,
    Rank::Six,
    Rank::Seven,
    Rank::Eight,
];

/// The file with the given zero-based column number (0..8).
pub open spec fn file_at(i: int) -> File {
    if i <= 0 {
        File::A
    } else if i == 1 {
        File::B
    } else if i == 2 {
        File::C
    } else if i == 3 {
        File::D
    } else if i == 4 {
        File::E
    } else if i == 5 {
        File::F
    } else if i == 6 {
        File::G
    } else {
        File::H
    }
}

/// The rank with the given zero-based row number (0..8).
pub open spec fn rank_at(i: int) -> Rank {
    if i <= 0 {
        Rank::One
    } else if i == 1 {
        Rank::Two
    } else if i == 2 {
        Rank::Three
    } else if i == 3 {
        Rank::Four
    } else if i == 4 {
        Rank::Five
    } else if i == 5 {
        Rank::Six
    } else if i == 6 {
        Rank::Seven
    } else {
        Rank::Eight
    }
}

impl File {
    /// Zero-based column number.
    pub open spec fn index(self) -> int {
        match self {
            File::A => 0,
            File::B => 1,
            File::C => 2,
            File::D => 3,
            File::E => 4,
            File::F => 5,
            File::G => 6,
            File::H => 7,
        }
    }

    pub fn idx(self) -> (r: usize)
        ensures
            r == self.index(),
    {
        match self {
            File::A => 0,
            File::B => 1,
            File::C => 2,
            File::D => 3,
            File::E => 4,
            File::F => 5,
            File::G => 6,
            File::H => 7,
        }
    }

    /// The file with the given column number.
    pub fn from_index(i: usize) -> (r: File)
        requires
            i < 8,
        ensures
            r == file_at(i as int),
            r.index() == i,
    {
        ALL_FILES[i]
    }
}

impl Rank {
    /// Zero-based row number.
    pub open spec fn index(self) -> int {
        match self {
            Rank::One => 0,
            Rank::Two => 1,
            Rank::Three => 2,
            Rank::Four => 3,
            Rank::Five => 4,
            Rank::Six => 5,
            Rank::Seven => 6,
            Rank::Eight => 7,
        }
    }

    pub fn idx(self) -> (r: usize)
        ensures
            r == self.index(),
    {
        match self {
            Rank::One => 0,
            Rank::Two => 1,
            Rank::Three => 2,
            Rank::Four => 3,
            Rank::Five => 4,
            Rank::Six => 5,
            Rank::Seven => 6,
            Rank::Eight => 7,
        }
    }

    /// The rank with the given row number.
    pub fn from_index(i: usize) -> (r: Rank)
        requires
            i < 8,
        ensures
            r == rank_at(i as int),
            r.index() == i,
    {
        ALL_RANKS[i]
    }
}

/// A square of the board: its file and its rank.
#[derive(Clone, Copy, Debug, PartialEq, Eq, Hash, Structural)]
pub struct Square(pub File, pub Rank);

impl Square {
    /// Position of the square in the board's array: rank-major, `rank * 8 + file`.
    pub open spec fn index(self) -> int {
        self.1.index() * 8 + self.0.index()
    }

    pub fn idx(self) -> (r: usize)
        ensures
            r == self.index(),
            r < 64,
    {
        self.1.idx() * 8 + self.0.idx()
    }
}

/// The square stored at the given position of the board's array.
pub open spec fn square_at(i: int) -> Square {
    Square(file_at(i % 8), rank_at(i / 8))
}

/// A piece: what it is and whose it is.
#[derive(Clone, Copy, Debug, PartialEq, Eq, Structural)]
pub struct Unit {
    pub kind: UnitKind,
    pub color: Color,
}

/// The 64 squares, each empty or holding a unit, stored rank-major.
pub struct Board {
    pub squares: [Option<Unit>; 64],
}

impl View for Board {
    type V = Seq<Option<Unit>>;

    open spec fn view(&self) -> Seq<Option<Unit>> {
        self.squares@
    }
}

/// What the board model holds on a square.
pub open spec fn unit_at(b: Seq<Option<Unit>>, sq: Square) -> Option<Unit> {
    b[sq.index()]
}

/// The board model with one square replaced.
pub open spec fn put(b: Seq<Option<Unit>>, sq: Square, u: Option<Unit>) -> Seq<Option<Unit>> {
    b.update(sq.index(), u)
}

impl Board {
    /// What stands on a square.
    pub fn get(&self, sq: Square) -> (r: Option<Unit>)
        ensures
            r == unit_at(self@, sq),
    {
        self.squares[sq.idx()]
    }

    /// Replace what stands on a square.
    pub fn set(&mut self, sq: Square, u: Option<Unit>)
        ensures
            final(self)@ == put(old(self)@, sq, u),
    {
        let i = sq.idx();
        self.squares[i] = u;
    }
}

/// The full state of a game.
pub struct Game {
    pub board: Board,
    pub next_move: Color,
    pub white_can_king_side_castle: bool,
    pub black_can_king_side_castle: bool,
    pub white_can_queen_side_castle: bool,
    pub black_can_queen_side_castle: bool,
    pub en_passant_square: Option<Square>,
    pub white_king_position: Square,
    pub black_king_position: Square,
}

/// The piece that starts on a back-rank file.
pub open spec fn back_rank_piece(file: int) -> UnitKind {
    if file == 0 || file == 7 {
        UnitKind::Rook
    } else if file == 1 || file == 6 {
        UnitKind::Knight
    } else if file == 2 || file == 5 {
        UnitKind::Bishop
    } else if file == 3 {
        UnitKind::Queen
    } else {
        UnitKind::King
    }
}

/// What stands on the square at array position `i` in the starting position.
pub open spec fn initial_unit(i: int) -> Option<Unit> {
    let rank = i / 8;
    let file = i % 8;
    if rank == 0 {
        Some(Unit { kind: back_rank_piece(file), color: Color::White })
    } else if rank == 1 {
        Some(Unit { kind: UnitKind::Pawn, color: Color::White })
    } else if rank == 6 {
        Some(Unit { kind: UnitKind::Pawn, color: Color::Black })
    } else if rank == 7 {
        Some(Unit { kind: back_rank_piece(file), color: Color::Black })
    } else {
        None
    }
}

/// The starting position.
pub open spec fn initial_board() -> Seq<Option<Unit>> {
    Seq::new(64, |i: int| initial_unit(i))
}

fn create_row(color: Color, units: [UnitKind; 8]) -> (r: [Option<Unit>; 8])
    ensures
        forall|i: int| 0 <= i < 8 ==> r@[i] == Some(Unit { kind: units@[i], color }),
{
    let mut row: [Option<Unit>; 8] = [None; 8];
    let mut i: usize = 0;
    while i < 8
        invariant
            i <= 8,
            forall|j: int| 0 <= j < i ==> row@[j] == Some(Unit { kind: units@[j], color }),
        decreases 8 - i,
    {
        row[i] = Some(Unit { kind: units[i], color: color });
        i = i + 1;
    }
    row
}

fn set_row(board: &mut Board, rank: Rank, units: [Option<Unit>; 8])
    ensures
        forall|i: int|
            0 <= i < 64 ==> #[trigger] final(board)@[i] == if i / 8 == rank.index() {
                units@[i % 8]
            } else {
                old(board)@[i]
            },
{
    let mut i: usize = 0;
    while i < 8
        invariant
            i <= 8,
            board@.len() == 64,
            forall|j: int|
                0 <= j < 64 ==> #[trigger] board@[j] == if j / 8 == rank.index() && j % 8 < i {
                    units@[j % 8]
                } else {
                    old(board)@[j]
                },
        decreases 8 - i,
    {
        let f = File::from_index(i);
        board.set(Square(f, rank), units[i]);
        i = i + 1;
    }
}

impl Game {
    /// A game in the starting position, White to move, every castling right present.
    pub fn new() -> (g: Self)
        ensures
            g.board@ == initial_board(),
            g.next_move == Color::White,
            g.white_can_king_side_castle,
            g.black_can_king_side_castle,
            g.white_can_queen_side_castle,
            g.black_can_queen_side_castle,
            g.en_passant_square == None::<Square>,
            g.white_king_position == Square(File::E, Rank::One),
            g.black_king_position == Square(File::E, Rank::Eight),
    {
        let pieces = [
            UnitKind::Rook,
            UnitKind::Knight,
            UnitKind::Bishop,
            UnitKind::Queen,
            UnitKind::King,
            UnitKind::Bishop,
            UnitKind::Knight,
            UnitKind::Rook,
        ];
        let pawns = [UnitKind::Pawn; 8];
        let empty: [Option<Unit>; 8] = [None; 8];
        let mut board = Board { squares: [None; 64] };
        set_row(&mut board, Rank::Eight, create_row(Color::Black, pieces));
        set_row(&mut board, Rank::Seven, create_row(Color::Black, pawns));
        set_row(&mut board, Rank::Six, empty);
        set_row(&mut board, Rank::Five, empty);
        set_row(&mut board, Rank::Four, empty);
        set_row(&mut board, Rank::Three, empty);
        set_row(&mut board, Rank::Two, create_row(Color::White, pawns));
        set_row(&mut board, Rank::One, create_row(Color::White, pieces));
        assert(board@ =~= initial_board());
        Game {
            next_move: Color::White,
            white_can_king_side_castle: true,
            black_can_king_side_castle: true,
            white_can_queen_side_castle: true,
            black_can_queen_side_castle: true,
            en_passant_square: None,
            board: board,
            white_king_position: Square(File::E, Rank::One),
            black_king_position: Square(File::E, Rank::Eight),
        }
    }
}

/// The opponent of a side.
pub open spec fn other_color(color: Color) -> Color {
    match color {
        Color::White => Color::Black,
        Color::Black => Color::White,
    }
}

/// The opponent of a side.
pub fn get_other_color(color: Color) -> (r: Color)
    ensures
        r == other_color(color),
        r != color,
{
    match color {
        Color::White => Color::Black,
        Color::Black => Color::White,
    }
}

/// Taking the opponent twice gives back the side one started with.
pub proof fn lemma_other_color_involution(color: Color)
    ensures
        other_color(other_color(color)) == color,
        other_color(color) != color,
{
}

/// Distinct squares occupy distinct positions of the board's array, all within it.
pub proof fn lemma_square_index(a: Square, b: Square)
    ensures
        0 <= a.index() < 64,
        a.index() == b.index() <==> a == b,
{
}

/// Every square sits at its own position of the board's array.
pub proof fn lemma_square_at_index(sq: Square)
    ensures
        square_at(sq.index()) == sq,
{
}

/// The name of a side, as displayed.
pub open spec fn color_name(color: Color) -> Seq<char> {
    match color {
        Color::White => "White"@,
        Color::Black => "Black"@,
    }
}

/// The upper-case letter of a file, as displayed.
pub open spec fn file_name(file: File) -> Seq<char> {
    match file {
        File::A => "A"@,
        File::B => "B"@,
        File::C => "C"@,
        File::D => "D"@,
        File::E => "E"@,
        File::F => "F"@,
        File::G => "G"@,
        File::H => "H"@,
    }
}

/// The digit of a rank, as displayed: its row number plus one.
pub open spec fn rank_name(rank: Rank) -> Seq<char> {
    match rank {
        Rank::One => "1"@,
        Rank::Two => "2"@,
        Rank::Three => "3"@,
        Rank::Four => "4"@,
        Rank::Five => "5"@,
        Rank::Six => "6"@,
        Rank::Seven => "7"@,
        Rank::Eight => "8"@,
    }
}

impl Color {
    /// The displayed name: `White` or `Black`.
    pub fn to_string(&self) -> (r: String)
        ensures
            r@ == color_name(*self),
    {
        match self {
            Color::White => String::from_str("White"),
            Color::Black => String::from_str("Black"),
        }
    }
}

impl File {
    /// The displayed upper-case letter, `A` to `H`.
    pub fn to_string(&self) -> (r: String)
        ensures
            r@ == file_name(*self),
    {
        match self {
            File::A => String::from_str("A"),
            File::B => String::from_str("B"),
            File::C => String::from_str("C"),
            File::D => String::from_str("D"),
            File::E => String::from_str("E"),
            File::F => String::from_str("F"),
            File::G => String::from_str("G"),
            File::H => String::from_str("H"),
        }
    }
}

impl Rank {
    /// The displayed digit, `1` to `8`.
    pub fn to_string(&self) -> (r: String)
        ensures
            r@ == rank_name(*self),
    {
        match self {
            Rank::One => String::from_str("1"),
            Rank::Two => String::from_str("2"),
            Rank::Three => String::from_str("3"),
            Rank::Four => String::from_str("4"),
            Rank::Five => String::from_str("5"),
            Rank::Six => String::from_str("6"),
            Rank::Seven => String::from_str("7"),
            Rank::Eight => String::from_str("8"),
        }
    }
}

/// The lower-case name of a side.
pub open spec fn color_word(color: Color) -> Seq<char> {
    match color {
        Color::Black => "black"@,
        Color::White => "white"@,
    }
}

/// The lower-case name of a side: `white` or `black`.
pub fn color_string(color: Color) -> (r: String)
    ensures
        r@ == color_word(color),
{
    match color {
        Color::Black => String::from_str("black"),
        Color::White => String::from_str("white"),
    }
}

/// The symbol a square is drawn with: a blank for an empty square, otherwise the chess figurine
/// of the unit's kind, outlined for White and solid for Black.
pub open spec fn unit_symbol_text(u: Option<Unit>) -> Seq<char> {
    match u {
        None => " "@,
        Some(Unit { kind: UnitKind::Bishop, color: Color::White }) => "\u{2657}"@,
        Some(Unit { kind: UnitKind::King, color: Color::White }) => "\u{2654}"@,
        Some(Unit { kind: UnitKind::Knight, color: Color::White }) => "\u{2658}"@,
        Some(Unit { kind: UnitKind::Pawn, color: Color::White }) => "\u{2659}"@,
        Some(Unit { kind: UnitKind::Queen, color: Color::White }) => "\u{2655}"@,
        Some(Unit { kind: UnitKind::Rook, color: Color::White }) => "\u{2656}"@,
        Some(Unit { kind: UnitKind::Bishop, color: Color::Black }) => "\u{265D}"@,
        Some(Unit { kind: UnitKind::King, color: Color::Black }) => "\u{265A}"@,
        Some(Unit { kind: UnitKind::Knight, color: Color::Black }) => "\u{265E}"@,
        Some(Unit { kind: UnitKind::Pawn, color: Color::Black }) => "\u{265F}"@,
        Some(Unit { kind: UnitKind::Queen, color: Color::Black }) => "\u{265B}"@,
        Some(Unit { kind: UnitKind::Rook, color: Color::Black }) => "\u{265C}"@,
    }
}

/// The symbol a square is drawn with (see `unit_symbol_text`).
pub fn unit_symbol(maybe_unit: Option<Unit>) -> (r: &'static str)
    ensures
        r@ == unit_symbol_text(maybe_unit),
{
    match maybe_unit {
        None => " ",
        Some(Unit { kind: UnitKind::Bishop, color: Color::White }) => "\u{2657}",
        Some(Unit { kind: UnitKind::King, color: Color::White }) => "\u{2654}",
        Some(Unit { kind: UnitKind::Knight, color: Color::White }) => "\u{2658}",
        Some(Unit { kind: UnitKind::Pawn, color: Color::White }) => "\u{2659}",
        Some(Unit { kind: UnitKind::Queen, color: Color::White }) => "\u{2655}",
        Some(Unit { kind: UnitKind::Rook, color: Color::White }) => "\u{2656}",
        Some(Unit { kind: UnitKind::Bishop, color: Color::Black }) => "\u{265D}",
        Some(Unit { kind: UnitKind::King, color: Color::Black }) => "\u{265A}",
        Some(Unit { kind: UnitKind::Knight, color: Color::Black }) => "\u{265E}",
        Some(Unit { kind: UnitKind::Pawn, color: Color::Black }) => "\u{265F}",
        Some(Unit { kind: UnitKind::Queen, color: Color::Black }) => "\u{265B}",
        Some(Unit { kind: UnitKind::Rook, color: Color::Black }) => "\u{265C}",
    }
}


/// The starting position holds White's king on E1 and Black's king on E8, where a new game records
/// them; White's units fill the first two ranks, the middle four ranks are empty, and Black's side
/// mirrors White's: the unit on a square of Black's half is the unit on the square of the same
/// file and the mirrored rank, of the other colour.
pub proof fn lemma_initial_board_layout(f: File, r: Rank)
    ensures
        unit_at(initial_board(), Square(File::E, Rank::One)) == Some(Unit { kind: UnitKind::King, color: Color::White }),
        unit_at(initial_board(), Square(File::E, Rank::Eight)) == Some(Unit { kind: UnitKind::King, color: Color::Black }),
        r.index() <= 1 ==> (unit_at(initial_board(), Square(f, r)) matches Some(u) && u.color == Color::White),
        2 <= r.index() <= 5 ==> unit_at(initial_board(), Square(f, r)) is None,
        r.index() >= 6 ==> unit_at(initial_board(), Square(f, r)) == match unit_at(
            initial_board(),
            Square(f, rank_at(7 - r.index())),
        ) {
            Some(u) => Some(Unit { kind: u.kind, color: other_color(u.color) }),
            None => None,
        },
        r == Rank::Two ==> unit_at(initial_board(), Square(f, r)) == Some(Unit { kind: UnitKind::Pawn, color: Color::White }),
        r == Rank::One ==> (unit_at(initial_board(), Square(f, r))->0.kind == UnitKind::Rook <==> (f == File::A || f == File::H)),
        r == Rank::One ==> (unit_at(initial_board(), Square(f, r))->0.kind == UnitKind::Knight <==> (f == File::B || f == File::G)),
        r == Rank::One ==> (unit_at(initial_board(), Square(f, r))->0.kind == UnitKind::Bishop <==> (f == File::C || f == File::F)),
        r == Rank::One ==> (unit_at(initial_board(), Square(f, r))->0.kind == UnitKind::Queen <==> f == File::D),
{
    lemma_square_index(Square(f, r), Square(f, r));
}

} // verus!
