//! Move generation, move application and legality checks.
use crate::utilities::StackVector;
use crate::{
    other_color, put, rank_at, file_at, unit_at, Board, Color, File, Game, Rank, Square, Unit,
    UnitKind, get_other_color,
};
pub mod commands;

use vstd::prelude::*;
use vstd::string::StringExecFns;

verus! {

/// A step on the board: a change of column and a change of row.
#[derive(Clone, Copy)]
pub struct MoveOffset {
    pub file: i8,
    pub rank: i8,
}

/// The small steps that pieces make: at most two squares along each axis.
pub open spec fn offset_is_small(o: MoveOffset) -> bool {
    -2 <= o.file <= 2 && -2 <= o.rank <= 2
}

/// The square reached from `sq` by the step `o`, if it lies on the board.
pub open spec fn offset_square(sq: Square, o: MoveOffset) -> Option<Square> {
    let f = sq.0.index() + o.file;
    let r = sq.1.index() + o.rank;
    if 0 <= f < 8 && 0 <= r < 8 {
        Some(Square(file_at(f), rank_at(r)))
    } else {
        None
    }
}

fn add_offset(square: Square, offset: MoveOffset) -> (r: Option<Square>)
    requires
        offset_is_small(offset),
    ensures
        r == offset_square(square, offset),
{
    let new_file_idx: i8 = (square.0.idx() as i8) + offset.file;
    let new_rank_idx: i8 = (square.1.idx() as i8) + offset.rank;
    if new_file_idx >= 0 && new_file_idx < 8 && new_rank_idx >= 0 && new_rank_idx < 8 {
        Some(Square(File::from_index(new_file_idx as usize), Rank::from_index(new_rank_idx as usize)))
    } else {
        None
    }
}

/// The eight compass directions, clockwise from straight up.
#[derive(Clone, Copy, Debug, PartialEq, Eq, Structural)]
pub enum Direction {
    Up,
    UpRight,
    Right,
    DownRight,
    Down,
    DownLeft,
    Left,
    Upleft,
}

/// The step taken along a direction. `Upleft` steps one file right and one rank down.
pub open spec fn direction_step(d: Direction) -> MoveOffset {
    match d {
        Direction::Up => MoveOffset { file: 0, rank: 1 },
        Direction::UpRight => MoveOffset { file: 1, rank: 1 },
        Direction::Right => MoveOffset { file: 1, rank: 0 },
        Direction::DownRight => MoveOffset { file: 1, rank: -1i8 },
        Direction::Down => MoveOffset { file: 0, rank: -1i8 },
        Direction::DownLeft => MoveOffset { file: -1i8, rank: -1i8 },
        Direction::Left => MoveOffset { file: -1i8, rank: 0 },
        Direction::Upleft => MoveOffset { file: 1, rank: -1i8 },
    }
}

fn direction_offset(d: Direction) -> (r: MoveOffset)
    ensures
        r == direction_step(d),
        offset_is_small(r),
{
    match d {
        Direction::Up => MoveOffset { file: 0, rank: 1 },
        Direction::UpRight => MoveOffset { file: 1, rank: 1 },
        Direction::Right => MoveOffset { file: 1, rank: 0 },
        Direction::DownRight => MoveOffset { file: 1, rank: -1 },
        Direction::Down => MoveOffset { file: 0, rank: -1 },
        Direction::DownLeft => MoveOffset { file: -1, rank: -1 },
        Direction::Left => MoveOffset { file: -1, rank: 0 },
        Direction::Upleft => MoveOffset { file: 1, rank: -1 },
    }
}

/// The direction with the given number in clockwise order.
pub open spec fn direction_at(i: int) -> Direction {
    if i <= 0 {
        Direction::Up
    } else if i == 1 {
        Direction::UpRight
    } else if i == 2 {
        Direction::Right
    } else if i == 3 {
        Direction::DownRight
    } else if i == 4 {
        Direction::Down
    } else if i == 5 {
        Direction::DownLeft
    } else if i == 6 {
        Direction::Left
    } else {
        Direction::Upleft
    }
}

/// Up to `n` squares reached by repeating the step `o` from `sq`, nearest first.
pub open spec fn ray_steps(sq: Square, o: MoveOffset, n: nat) -> Seq<Square>
    decreases n,
{
    if n == 0 {
        seq![]
    } else {
        match offset_square(sq, o) {
            Some(next) => seq![next] + ray_steps(next, o, (n - 1) as nat),
            None => seq![],
        }
    }
}

/// The squares seen from `sq` looking along `d`, nearest first, up to the board's edge.
pub open spec fn ray(sq: Square, d: Direction) -> Seq<Square> {
    ray_steps(sq, direction_step(d), 7)
}

/// The squares along one direction, as stored in a lookup table.
pub type Ray = StackVector<Square, 7>;

/// The squares seen from `square` looking along `direction`.
pub fn compute_ray(square: Square, direction: Direction) -> (r: Ray)
    ensures
        r@ == ray(square, direction),
{
    let offset = direction_offset(direction);
    let mut result = Ray::new(Square(File::A, Rank::One));
    let mut current_square = square;
    let mut n: usize = 7;
    while n > 0
        invariant_except_break
            offset == direction_step(direction),
            offset_is_small(offset),
            n <= 7,
            result@.len() + n == 7,
            result@ + ray_steps(current_square, offset, n as nat) == ray(square, direction),
            n == 0 ==> result@ == ray(square, direction),
        ensures
            result@ == ray(square, direction),
        decreases n,
    {
        match add_offset(current_square, offset) {
            Some(next_square) => {
                assert(ray_steps(current_square, offset, n as nat) == seq![next_square]
                    + ray_steps(next_square, offset, (n - 1) as nat));
                assert(result@.push(next_square) + ray_steps(next_square, offset, (n - 1) as nat)
                    =~= result@ + ray_steps(current_square, offset, n as nat));
                result.push(next_square);
                current_square = next_square;
                n = n - 1;
                assert(n == 0 ==> result@ + ray_steps(current_square, offset, n as nat) =~= result@);
            },
            None => {
                assert(result@ + ray_steps(current_square, offset, n as nat) =~= result@);
                break ;
            },
        }
    }
    result
}

/// The position of a (square, direction) pair in the ray lookup table: direction-major,
/// then file, then rank.
pub open spec fn ray_lookup_index(sq: Square, d: Direction) -> int {
    direction_number(d) * 64 + sq.0.index() * 8 + sq.1.index()
}

/// Clockwise number of a direction, from 0 for `Up`.
pub open spec fn direction_number(d: Direction) -> int {
    match d {
        Direction::Up => 0,
        Direction::UpRight => 1,
        Direction::Right => 2,
        Direction::DownRight => 3,
        Direction::Down => 4,
        Direction::DownLeft => 5,
        Direction::Left => 6,
        Direction::Upleft => 7,
    }
}

fn to_ray_lookup_index(square: Square, direction: Direction) -> (r: usize)
    ensures
        r == ray_lookup_index(square, direction),
        r < 512,
{
    let d: usize = match direction {
        Direction::Up => 0,
        Direction::UpRight => 1,
        Direction::Right => 2,
        Direction::DownRight => 3,
        Direction::Down => 4,
        Direction::DownLeft => 5,
        Direction::Left => 6,
        Direction::Upleft => 7,
    };
    d * 64 + square.0.idx() * 8 + square.1.idx()
}

/// Every ray of the board, one per square and direction.
pub struct RayLookup {
    pub rays: Vec<Ray>,
}

impl RayLookup {
    /// Whether the table holds, at each position, the ray of the pair stored there.
    pub open spec fn well_formed(&self) -> bool {
        &&& self.rays@.len() == 512
        &&& forall|d: Direction, sq: Square|
            #[trigger] self.rays@[ray_lookup_index(sq, d)]@ == ray(sq, d)
    }

    /// The complete table.
    pub fn new() -> (r: Self)
        ensures
            r.well_formed(),
    {
        let mut rays: Vec<Ray> = Vec::new();
        let mut i: usize = 0;
        while i < 512
            invariant
                i <= 512,
                rays@.len() == i,
                forall|d: Direction, sq: Square|
                    ray_lookup_index(sq, d) < i ==> #[trigger] rays@[ray_lookup_index(sq, d)]@
                        == ray(sq, d),
            decreases 512 - i,
        {
            let direction = direction_from_number(i / 64);
            let square = Square(File::from_index((i % 64) / 8), Rank::from_index(i % 8));
            assert(ray_lookup_index(square, direction) == i);
            rays.push(compute_ray(square, direction));
            assert forall|d: Direction, sq: Square|
                ray_lookup_index(sq, d) < i + 1 implies #[trigger] rays@[ray_lookup_index(sq, d)]@
                == ray(sq, d) by {
                if ray_lookup_index(sq, d) == i {
                    lemma_ray_lookup_index_injective(sq, d, square, direction);
                }
            }
            i = i + 1;
        }
        RayLookup { rays }
    }

    /// The ray seen from `square` along `direction`.
    pub fn index(&self, square: Square, direction: Direction) -> (r: &Ray)
        requires
            self.well_formed(),
        ensures
            r@ == ray(square, direction),
    {
        let i = to_ray_lookup_index(square, direction);
        &self.rays[i]
    }
}

fn direction_from_number(i: usize) -> (r: Direction)
    requires
        i < 8,
    ensures
        direction_number(r) == i,
        r == direction_at(i as int),
{
    match i {
        0 => Direction::Up,
        1 => Direction::UpRight,
        2 => Direction::Right,
        3 => Direction::DownRight,
        4 => Direction::Down,
        5 => Direction::DownLeft,
        6 => Direction::Left,
        _ => Direction::Upleft,
    }
}

proof fn lemma_ray_lookup_index_injective(sq1: Square, d1: Direction, sq2: Square, d2: Direction)
    requires
        ray_lookup_index(sq1, d1) == ray_lookup_index(sq2, d2),
    ensures
        sq1 == sq2,
        d1 == d2,
{
}

/// The eight steps of a king, clockwise from straight up.
pub open spec fn king_steps() -> Seq<MoveOffset> {
    seq![
        MoveOffset { file: 0, rank: 1 },
        MoveOffset { file: 1, rank: 1 },
        MoveOffset { file: 1, rank: 0 },
        MoveOffset { file: 1, rank: -1i8 },
        MoveOffset { file: 0, rank: -1i8 },
        MoveOffset { file: -1i8, rank: -1i8 },
        MoveOffset { file: -1i8, rank: 0 },
        MoveOffset { file: -1i8, rank: 1 },
    ]
}

/// The eight jumps of a knight.
pub open spec fn knight_steps() -> Seq<MoveOffset> {
    seq![
        MoveOffset { file: -1i8, rank: 2 },
        MoveOffset { file: 1, rank: 2 },
        MoveOffset { file: 2, rank: -1i8 },
        MoveOffset { file: 2, rank: 1 },
        MoveOffset { file: 1, rank: -2i8 },
        MoveOffset { file: -1i8, rank: -2i8 },
        MoveOffset { file: -2i8, rank: -1i8 },
        MoveOffset { file: -2i8, rank: 1 },
    ]
}

/// The diagonal steps by which a pawn of `color` captures (toward the opponent's side).
pub open spec fn pawn_capture_steps(color: Color) -> Seq<MoveOffset> {
    match color {
        Color::White => seq![MoveOffset { file: -1i8, rank: 1 }, MoveOffset { file: 1, rank: 1 }],
        Color::Black => seq![
            MoveOffset { file: -1i8, rank: -1i8 },
            MoveOffset { file: 1, rank: -1i8 },
        ],
    }
}

/// The steps from the king of `color` to the squares from which an enemy pawn attacks it.
pub open spec fn king_attacking_pawn_steps(color: Color) -> Seq<MoveOffset> {
    match color {
        Color::White => seq![MoveOffset { file: -1i8, rank: 1 }, MoveOffset { file: 1, rank: 1 }],
        Color::Black => seq![
            MoveOffset { file: -1i8, rank: -1i8 },
            MoveOffset { file: 1, rank: -1i8 },
        ],
    }
}

/// The single forward step of a pawn of `color`.
pub open spec fn forward_step(color: Color) -> MoveOffset {
    match color {
        Color::White => MoveOffset { file: 0, rank: 1 },
        Color::Black => MoveOffset { file: 0, rank: -1i8 },
    }
}

fn king_move_offsets() -> (r: [MoveOffset; 8])
    ensures
        r@ == king_steps(),
{
    let r = [
        MoveOffset { file: 0, rank: 1 },
        MoveOffset { file: 1, rank: 1 },
        MoveOffset { file: 1, rank: 0 },
        MoveOffset { file: 1, rank: -1 },
        MoveOffset { file: 0, rank: -1 },
        MoveOffset { file: -1, rank: -1 },
        MoveOffset { file: -1, rank: 0 },
        MoveOffset { file: -1, rank: 1 },
    ];
    assert(r@ =~= king_steps());
    r
}

fn knight_move_offsets() -> (r: [MoveOffset; 8])
    ensures
        r@ == knight_steps(),
{
    let r = [
        MoveOffset { file: -1, rank: 2 },
        MoveOffset { file: 1, rank: 2 },
        MoveOffset { file: 2, rank: -1 },
        MoveOffset { file: 2, rank: 1 },
        MoveOffset { file: 1, rank: -2 },
        MoveOffset { file: -1, rank: -2 },
        MoveOffset { file: -2, rank: -1 },
        MoveOffset { file: -2, rank: 1 },
    ];
    assert(r@ =~= knight_steps());
    r
}

fn pawn_capture_offsets(color: Color) -> (r: [MoveOffset; 2])
    ensures
        r@ == pawn_capture_steps(color),
{
    let r = if color == Color::White {
        [MoveOffset { file: -1, rank: 1 }, MoveOffset { file: 1, rank: 1 }]
    } else {
        [MoveOffset { file: -1, rank: -1 }, MoveOffset { file: 1, rank: -1 }]
    };
    assert(r@ =~= pawn_capture_steps(color));
    r
}

fn king_attacking_pawn_offsets(color: Color) -> (r: [MoveOffset; 2])
    ensures
        r@ == king_attacking_pawn_steps(color),
{
    let r = if color == Color::White {
        [MoveOffset { file: -1, rank: 1 }, MoveOffset { file: 1, rank: 1 }]
    } else {
        [MoveOffset { file: -1, rank: -1 }, MoveOffset { file: 1, rank: -1 }]
    };
    assert(r@ =~= king_attacking_pawn_steps(color));
    r
}

fn move_one_forward(color: Color) -> (r: MoveOffset)
    ensures
        r == forward_step(color),
        offset_is_small(r),
{
    if color == Color::White {
        MoveOffset { file: 0, rank: 1 }
    } else {
        MoveOffset { file: 0, rank: -1 }
    }
}

/// Every step of the list is small.
pub open spec fn all_small(offsets: Seq<MoveOffset>) -> bool {
    forall|i: int| 0 <= i < offsets.len() ==> offset_is_small(#[trigger] offsets[i])
}

/// Whether a piece of `color` may land on `sq`: it is empty or holds an enemy piece.
pub open spec fn can_land(b: Seq<Option<Unit>>, sq: Square, color: Color) -> bool {
    match unit_at(b, sq) {
        None => true,
        Some(u) => u.color != color,
    }
}

/// Whether `sq` holds an enemy of `color`.
pub open spec fn holds_enemy(b: Seq<Option<Unit>>, sq: Square, color: Color) -> bool {
    match unit_at(b, sq) {
        None => false,
        Some(u) => u.color != color,
    }
}

/// The squares reached by the first `n` steps of `offsets` from `sq` that stay on the board
/// and where a piece of `color` may go: any square not held by its own side, or, when
/// `captures_only`, only squares held by the opponent. In the order of the steps.
pub open spec fn offset_targets(
    b: Seq<Option<Unit>>,
    sq: Square,
    offsets: Seq<MoveOffset>,
    color: Color,
    captures_only: bool,
    n: int,
) -> Seq<Square>
    decreases n,
{
    if n <= 0 {
        seq![]
    } else {
        let prev = offset_targets(b, sq, offsets, color, captures_only, n - 1);
        match offset_square(sq, offsets[n - 1]) {
            Some(t) => if (if captures_only {
                holds_enemy(b, t, color)
            } else {
                can_land(b, t, color)
            }) {
                prev.push(t)
            } else {
                prev
            },
            None => prev,
        }
    }
}

fn push_targets_for_offsets(
    board: &Board,
    square: Square,
    offsets: &[MoveOffset],
    moving_piece_color: Color,
    captures_only: bool,
    out: &mut Vec<Square>,
)
    requires
        all_small(offsets@),
    ensures
        final(out)@ == old(out)@ + offset_targets(
            board@,
            square,
            offsets@,
            moving_piece_color,
            captures_only,
            offsets@.len() as int,
        ),
{
    let mut i: usize = 0;
    while i < offsets.len()
        invariant
            i <= offsets@.len(),
            all_small(offsets@),
            out@ == old(out)@ + offset_targets(
                board@,
                square,
                offsets@,
                moving_piece_color,
                captures_only,
                i as int,
            ),
        decreases offsets@.len() - i,
    {
        let o = offsets[i];
        assert(offset_is_small(offsets@[i as int]));
        if let Some(destination_square) = add_offset(square, o) {
            let keep = match board.get(destination_square) {
                None => !captures_only,
                Some(p) => p.color != moving_piece_color,
            };
            if keep {
                out.push(destination_square);
            }
        }
        assert(out@ =~= old(out)@ + offset_targets(
            board@,
            square,
            offsets@,
            moving_piece_color,
            captures_only,
            i + 1,
        ));
        i = i + 1;
    }
}

/// Adds the destinations of a piece of `color` on `square` that moves by single steps: the
/// squares reached by `offsets` that do not hold a piece of its own side.
fn get_target_squares_for_offsets(
    board: &Board,
    square: Square,
    offsets: &[MoveOffset],
    moving_piece_color: Color,
    out: &mut Vec<Square>,
)
    requires
        all_small(offsets@),
    ensures
        final(out)@ == old(out)@ + offset_targets(
            board@,
            square,
            offsets@,
            moving_piece_color,
            false,
            offsets@.len() as int,
        ),
{
    push_targets_for_offsets(board, square, offsets, moving_piece_color, false, out);
}

/// Adds the capture destinations of a pawn of `color` on `square`: the squares reached by
/// `offsets` that hold an enemy piece.
fn get_target_squares_for_pawn_capture_offsets(
    board: &Board,
    square: Square,
    offsets: &[MoveOffset],
    moving_piece_color: Color,
    out: &mut Vec<Square>,
)
    requires
        all_small(offsets@),
    ensures
        final(out)@ == old(out)@ + offset_targets(
            board@,
            square,
            offsets@,
            moving_piece_color,
            true,
            offsets@.len() as int,
        ),
{
    push_targets_for_offsets(board, square, offsets, moving_piece_color, true, out);
}

/// Whether a unit of `kind` and `color` stands on a square reached from `sq` by one of `offsets`.
pub open spec fn piece_at_offsets(
    b: Seq<Option<Unit>>,
    sq: Square,
    offsets: Seq<MoveOffset>,
    kind: UnitKind,
    color: Color,
) -> bool {
    exists|i: int|
        0 <= i < offsets.len() && (#[trigger] offset_square(sq, offsets[i]) matches Some(t)
            && unit_at(b, t) == Some(Unit { kind, color }))
}

fn is_piece_at_offset(
    board: &Board,
    source: Square,
    offsets: &[MoveOffset],
    kind: UnitKind,
    color: Color,
) -> (r: bool)
    requires
        all_small(offsets@),
    ensures
        r == piece_at_offsets(board@, source, offsets@, kind, color),
{
    let mut i: usize = 0;
    while i < offsets.len()
        invariant
            i <= offsets@.len(),
            all_small(offsets@),
            forall|j: int|
                0 <= j < i ==> !(#[trigger] offset_square(source, offsets@[j]) matches Some(t)
                    && unit_at(board@, t) == Some(Unit { kind, color })),
        decreases offsets@.len() - i,
    {
        assert(offset_is_small(offsets@[i as int]));
        if let Some(s) = add_offset(source, offsets[i]) {
            if let Some(p) = board.get(s) {
                if p.color == color && p.kind == kind {
                    assert(offset_square(source, offsets@[i as int]) matches Some(t)
                        && unit_at(board@, t) == Some(Unit { kind, color }));
                    return true;
                }
            }
        }
        i = i + 1;
    }
    false
}

/// The destinations of a sliding piece of `color` along the squares `r`, nearest first:
/// every empty square up to the first occupied one, and that one too if it holds an enemy.
pub open spec fn slide(b: Seq<Option<Unit>>, r: Seq<Square>, color: Color) -> Seq<Square>
    decreases r.len(),
{
    if r.len() == 0 {
        seq![]
    } else {
        match unit_at(b, r[0]) {
            None => seq![r[0]] + slide(b, r.drop_first(), color),
            Some(u) => if u.color == color {
                seq![]
            } else {
                seq![r[0]]
            },
        }
    }
}

/// The destinations of a sliding piece of `color` on `sq` along the first `n` of `dirs`,
/// direction by direction.
pub open spec fn direction_targets(
    b: Seq<Option<Unit>>,
    sq: Square,
    dirs: Seq<Direction>,
    color: Color,
    n: int,
) -> Seq<Square>
    decreases n,
{
    if n <= 0 {
        seq![]
    } else {
        direction_targets(b, sq, dirs, color, n - 1) + slide(b, ray(sq, dirs[n - 1]), color)
    }
}

/// Adds the destinations of a sliding piece of `color` on `square` along each of `directions`.
fn get_target_squares_for_directions(
    board: &Board,
    square: Square,
    directions: &[Direction],
    moving_piece_color: Color,
    out: &mut Vec<Square>,
)
    ensures
        final(out)@ == old(out)@ + direction_targets(
            board@,
            square,
            directions@,
            moving_piece_color,
            directions@.len() as int,
        ),
{
    let mut k: usize = 0;
    while k < directions.len()
        invariant
            k <= directions@.len(),
            out@ == old(out)@ + direction_targets(
                board@,
                square,
                directions@,
                moving_piece_color,
                k as int,
            ),
        decreases directions@.len() - k,
    {
        let direction = directions[k];
        let r = compute_ray(square, direction);
        let squares = r.to_slice();
        let ghost base = out@;
        let ghost whole = slide(board@, squares@, moving_piece_color);
        assert(squares@.skip(0) =~= squares@);
        let mut i: usize = 0;
        // move along the direction and stop at the first piece,
        // which is a destination when it is an enemy (capture)
        while i < squares.len()
            invariant_except_break
                i <= squares@.len(),
                base + whole == out@ + slide(board@, squares@.skip(i as int), moving_piece_color),
                i == squares@.len() ==> out@ == base + whole,
            ensures
                out@ == base + whole,
            decreases squares@.len() - i,
        {
            let destination_square = squares[i];
            assert(squares@.skip(i as int)[0] == destination_square);
            assert(squares@.skip(i as int).drop_first() =~= squares@.skip(i + 1));
            match board.get(destination_square) {
                None => {
                    out.push(destination_square);
                    assert(base + whole =~= out@ + slide(board@, squares@.skip(i + 1), moving_piece_color));
                    i = i + 1;
                    if i == squares.len() {
                        assert(squares@.skip(i as int).len() == 0);
                        assert(base + whole =~= out@);
                    }
                },
                Some(unit) => {
                    if unit.color != moving_piece_color {
                        out.push(destination_square);
                    }
                    assert(base + whole =~= out@);
                    break ;
                },
            }
        }
        assert(out@ =~= old(out)@ + direction_targets(
            board@,
            square,
            directions@,
            moving_piece_color,
            k + 1,
        ));
        k = k + 1;
    }
}

/// The first unit met along the squares `r`, if any.
pub open spec fn first_unit(b: Seq<Option<Unit>>, r: Seq<Square>) -> Option<Unit>
    decreases r.len(),
{
    if r.len() == 0 {
        None
    } else {
        match unit_at(b, r[0]) {
            Some(u) => Some(u),
            None => first_unit(b, r.drop_first()),
        }
    }
}

/// Whether, along one of `dirs` from `sq`, the first unit met is of `color` and of kind
/// `kind1` or `kind2`.
pub open spec fn next_on_rays(
    b: Seq<Option<Unit>>,
    sq: Square,
    dirs: Seq<Direction>,
    color: Color,
    kind1: UnitKind,
    kind2: UnitKind,
) -> bool {
    exists|i: int|
        0 <= i < dirs.len() && (#[trigger] first_unit(b, ray(sq, dirs[i])) matches Some(u) && u.color
            == color && (u.kind == kind1 || u.kind == kind2))
}

fn first_unit_on_ray(board: &Board, source: Square, direction: Direction) -> (r: Option<Unit>)
    ensures
        r == first_unit(board@, ray(source, direction)),
{
    let ray_squares = compute_ray(source, direction);
    let squares = ray_squares.to_slice();
    let mut i: usize = 0;
    assert(squares@.skip(0) =~= squares@);
    while i < squares.len()
        invariant
            i <= squares@.len(),
            squares@ == ray(source, direction),
            first_unit(board@, squares@) == first_unit(board@, squares@.skip(i as int)),
        decreases squares@.len() - i,
    {
        assert(squares@.skip(i as int)[0] == squares@[i as int]);
        assert(squares@.skip(i as int).drop_first() =~= squares@.skip(i + 1));
        if let Some(u) = board.get(squares[i]) {
            return Some(u);
        }
        i = i + 1;
    }
    assert(squares@.skip(i as int).len() == 0);
    None
}

fn is_next_piece_on_ray_of_kind(
    board: &Board,
    source: Square,
    directions: &[Direction],
    color: Color,
    kind1: UnitKind,
    kind2: UnitKind,
) -> (r: bool)
    ensures
        r == next_on_rays(board@, source, directions@, color, kind1, kind2),
{
    let mut k: usize = 0;
    while k < directions.len()
        invariant
            k <= directions@.len(),
            forall|j: int|
                0 <= j < k ==> !(#[trigger] first_unit(board@, ray(source, directions@[j])) matches Some(
                    u,
                ) && u.color == color && (u.kind == kind1 || u.kind == kind2)),
        decreases directions@.len() - k,
    {
        let direction = directions[k];
        let first_piece_in_direction = first_unit_on_ray(board, source, direction);
        if let Some(first_piece_in_direction) = first_piece_in_direction {
            if first_piece_in_direction.color == color && (first_piece_in_direction.kind == kind1
                || first_piece_in_direction.kind == kind2) {
                assert(first_unit(board@, ray(source, directions@[k as int])) matches Some(u)
                    && u.color == color && (u.kind == kind1 || u.kind == kind2));
                return true;
            }
        }
        k = k + 1;
    }
    false
}

/// The diagonal directions.
pub const BISHOP_DIRECTIONS: [Direction; 4] = [
    Direction::UpRight,
    Direction::DownRight,
    Direction::DownLeft,
    Direction::Upleft,
];

/// The straight directions.
pub const ROOK_DIRECTIONS: [Direction; 4] = [Direction::Up, Direction::Right, Direction::Down, Direction::Left];

/// Straight directions first, then diagonal ones.
pub const QUEEN_DIRECTIONS: [Direction; 8] = [
    Direction::Up,
    Direction::Right,
    Direction::Down,
    Direction::Left,
    Direction::UpRight,
    Direction::DownRight,
    Direction::DownLeft,
    Direction::Upleft,
];

/// The pieces a pawn may promote to, in the order the moves are listed.
pub const PROMOTION_UNITS: [UnitKind; 4] = [UnitKind::Queen, UnitKind::Knight, UnitKind::Rook, UnitKind::Bishop];

pub open spec fn bishop_directions() -> Seq<Direction> {
    seq![Direction::UpRight, Direction::DownRight, Direction::DownLeft, Direction::Upleft]
}

pub open spec fn rook_directions() -> Seq<Direction> {
    seq![Direction::Up, Direction::Right, Direction::Down, Direction::Left]
}

pub open spec fn queen_directions() -> Seq<Direction> {
    rook_directions() + bishop_directions()
}

/// A move of the side to play.
#[derive(Clone, Copy, Debug, PartialEq, Eq, Hash, Structural)]
pub enum Move {
    Normal { from: Square, to: Square, captured_unit: Option<UnitKind> },
    KingSideCastle,
    QueenSideCastle,
    EnPassant { from: Square, to: Square },
    Promotion { from: Square, to: Square, promote_to: UnitKind, captured_unit: Option<UnitKind> },
}

/// A list of moves, at most 256 of them.
pub type MoveList = StackVector<Move, 256>;

/// The rank on which a pawn of `color` promotes.
pub open spec fn promotion_rank(color: Color) -> Rank {
    match color {
        Color::Black => Rank::One,
        Color::White => Rank::Eight,
    }
}

/// The rank on which the pieces of `color` start.
pub open spec fn back_rank(color: Color) -> Rank {
    match color {
        Color::Black => Rank::Eight,
        Color::White => Rank::One,
    }
}

fn get_promotion_rank(color: Color) -> (r: Rank)
    ensures
        r == promotion_rank(color),
{
    match color {
        Color::Black => Rank::One,
        Color::White => Rank::Eight,
    }
}

fn get_back_rank(color: Color) -> (r: Rank)
    ensures
        r == back_rank(color),
{
    match color {
        Color::Black => Rank::Eight,
        Color::White => Rank::One,
    }
}

/// Whether nothing stands on `sq`.
pub open spec fn is_empty(b: Seq<Option<Unit>>, sq: Square) -> bool {
    unit_at(b, sq) is None
}

fn squares_are_empty(board: &Board, squares: &[Square]) -> (r: bool)
    ensures
        r == forall|i: int| 0 <= i < squares@.len() ==> is_empty(board@, #[trigger] squares@[i]),
{
    let mut i: usize = 0;
    while i < squares.len()
        invariant
            i <= squares@.len(),
            forall|j: int| 0 <= j < i ==> is_empty(board@, #[trigger] squares@[j]),
        decreases squares@.len() - i,
    {
        if board.get(squares[i]).is_some() {
            assert(!is_empty(board@, squares@[i as int]));
            return false;
        }
        i = i + 1;
    }
    true
}

/// Whether the side `color` may castle king side in `g`: the right is kept and the squares
/// between king and rook are empty.
pub open spec fn king_side_castle_open(g: Game, color: Color) -> bool {
    let b = g.board@;
    ||| (g.black_can_king_side_castle && color == Color::Black && is_empty(b, Square(File::F, Rank::Eight))
        && is_empty(b, Square(File::G, Rank::Eight)))
    ||| (g.white_can_king_side_castle && color == Color::White && is_empty(b, Square(File::F, Rank::One))
        && is_empty(b, Square(File::G, Rank::One)))
}

/// Whether the side `color` may castle queen side in `g`.
pub open spec fn queen_side_castle_open(g: Game, color: Color) -> bool {
    let b = g.board@;
    ||| (g.black_can_queen_side_castle && color == Color::Black && is_empty(b, Square(File::B, Rank::Eight))
        && is_empty(b, Square(File::C, Rank::Eight)) && is_empty(b, Square(File::D, Rank::Eight)))
    ||| (g.white_can_queen_side_castle && color == Color::White && is_empty(b, Square(File::B, Rank::One))
        && is_empty(b, Square(File::C, Rank::One)) && is_empty(b, Square(File::D, Rank::One)))
}

/// The castling moves listed for a unit `u`: only a king castles.
pub open spec fn castle_moves(g: Game, u: Unit) -> Seq<Move> {
    if u.kind == UnitKind::King {
        (if king_side_castle_open(g, u.color) {
            seq![Move::KingSideCastle]
        } else {
            seq![]
        }) + (if queen_side_castle_open(g, u.color) {
            seq![Move::QueenSideCastle]
        } else {
            seq![]
        })
    } else {
        seq![]
    }
}

/// Whether two files are neighbours.
pub open spec fn adjacent_files(a: File, b: File) -> bool {
    a.index() - b.index() == 1 || b.index() - a.index() == 1
}

/// Whether a pawn on `sq` stands beside the pawn that just moved two squares.
pub open spec fn en_passant_applies(g: Game, sq: Square) -> bool {
    g.en_passant_square matches Some(ep) && ep.1 == sq.1 && adjacent_files(ep.0, sq.0)
}

/// The row change of a pawn of `color` moving forward.
pub open spec fn pawn_direction(color: Color) -> int {
    if color == Color::White {
        1
    } else {
        -1
    }
}

/// The en-passant capture listed for a unit `u` on `sq`: only for a pawn beside the pawn that
/// just moved two squares, landing on that pawn's file one rank forward.
pub open spec fn en_passant_moves(g: Game, sq: Square, u: Unit) -> Seq<Move> {
    if u.kind == UnitKind::Pawn && en_passant_applies(g, sq) {
        let ep = g.en_passant_square->0;
        seq![
            Move::EnPassant {
                from: sq,
                to: Square(ep.0, rank_at(sq.1.index() + pawn_direction(u.color))),
            },
        ]
    } else {
        seq![]
    }
}

/// Whether a pawn of `color` on `sq` starts on its initial rank.
pub open spec fn is_starting_pawn(sq: Square, color: Color) -> bool {
    (color == Color::White && sq.1 == Rank::Two) || (color == Color::Black && sq.1 == Rank::Seven)
}

/// The forward destinations of a pawn: one square if empty, then a second one from the
/// starting rank if that is empty too.
pub open spec fn pawn_advances(b: Seq<Option<Unit>>, sq: Square, color: Color) -> Seq<Square> {
    let step = forward_step(color);
    match offset_square(sq, step) {
        Some(one) => if is_empty(b, one) {
            if is_starting_pawn(sq, color) && offset_square(one, step) is Some && is_empty(
                b,
                offset_square(one, step)->0,
            ) {
                seq![one, offset_square(one, step)->0]
            } else {
                seq![one]
            }
        } else {
            seq![]
        },
        None => seq![],
    }
}

/// The destination squares of unit `u` on `sq`, in the order they are listed.
pub open spec fn destinations(b: Seq<Option<Unit>>, sq: Square, u: Unit) -> Seq<Square> {
    match u.kind {
        UnitKind::Pawn => offset_targets(b, sq, pawn_capture_steps(u.color), u.color, true, 2) + pawn_advances(b, sq, u.color),
        UnitKind::King => offset_targets(b, sq, king_steps(), u.color, false, 8),
        UnitKind::Knight => offset_targets(b, sq, knight_steps(), u.color, false, 8),
        UnitKind::Bishop => direction_targets(b, sq, bishop_directions(), u.color, 4),
        UnitKind::Rook => direction_targets(b, sq, rook_directions(), u.color, 4),
        UnitKind::Queen => direction_targets(b, sq, queen_directions(), u.color, 8),
    }
}

/// The kind of the unit on `sq`, if any.
pub open spec fn kind_at(b: Seq<Option<Unit>>, sq: Square) -> Option<UnitKind> {
    match unit_at(b, sq) {
        None => None,
        Some(u) => Some(u.kind),
    }
}

/// The moves of unit `u` from `sq` to `d`: four promotions (queen, knight, rook, bishop) for a
/// pawn reaching its promotion rank, otherwise one normal move. Each records what `d` held.
pub open spec fn moves_to(b: Seq<Option<Unit>>, sq: Square, u: Unit, d: Square) -> Seq<Move> {
    let captured = kind_at(b, d);
    if u.kind == UnitKind::Pawn && d.1 == promotion_rank(u.color) {
        seq![
            Move::Promotion { from: sq, to: d, promote_to: UnitKind::Queen, captured_unit: captured },
            Move::Promotion { from: sq, to: d, promote_to: UnitKind::Knight, captured_unit: captured },
            Move::Promotion { from: sq, to: d, promote_to: UnitKind::Rook, captured_unit: captured },
            Move::Promotion { from: sq, to: d, promote_to: UnitKind::Bishop, captured_unit: captured },
        ]
    } else {
        seq![Move::Normal { from: sq, to: d, captured_unit: captured }]
    }
}

/// The moves of unit `u` from `sq` to the first `n` of the destinations `ds`.
pub open spec fn destination_moves(
    b: Seq<Option<Unit>>,
    sq: Square,
    u: Unit,
    ds: Seq<Square>,
    n: int,
) -> Seq<Move>
    decreases n,
{
    if n <= 0 {
        seq![]
    } else {
        destination_moves(b, sq, u, ds, n - 1) + moves_to(b, sq, u, ds[n - 1])
    }
}

proof fn lemma_destination_moves_mono(
    b: Seq<Option<Unit>>,
    sq: Square,
    u: Unit,
    ds: Seq<Square>,
    i: int,
    j: int,
)
    requires
        0 <= i <= j,
    ensures
        destination_moves(b, sq, u, ds, i).len() <= destination_moves(b, sq, u, ds, j).len(),
    decreases j - i,
{
    if i < j {
        lemma_destination_moves_mono(b, sq, u, ds, i, j - 1);
    }
}

/// The pseudo-legal moves from `sq` in `g`, in the order they are listed: none unless a unit of
/// the side to play stands there; then its castling moves, its en-passant capture, and the moves
/// to each of its destinations. Whether the mover's king is left attacked is not considered.
pub open spec fn pseudo_moves(g: Game, sq: Square) -> Seq<Move> {
    let b = g.board@;
    match unit_at(b, sq) {
        None => seq![],
        Some(u) => if u.color != g.next_move {
            seq![]
        } else {
            let ds = destinations(b, sq, u);
            castle_moves(g, u) + en_passant_moves(g, sq, u) + destination_moves(b, sq, u, ds, ds.len() as int)
        },
    }
}

/// Whether listing the moves from `sq` stays within its limits: at most 27 destination squares,
/// and an en-passant target rank that exists.
pub open spec fn source_ok(g: Game, sq: Square) -> bool {
    let b = g.board@;
    match unit_at(b, sq) {
        None => true,
        Some(u) => u.color == g.next_move ==> {
            &&& destinations(b, sq, u).len() <= 27
            &&& (u.kind == UnitKind::Pawn && en_passant_applies(g, sq)) ==> 0 <= sq.1.index()
                + pawn_direction(u.color) < 8
        },
    }
}

fn push_destination_moves(
    board: &Board,
    square: Square,
    unit: Unit,
    destinations: &[Square],
    moves: &mut MoveList,
)
    requires
        old(moves)@.len() + destination_moves(
            board@,
            square,
            unit,
            destinations@,
            destinations@.len() as int,
        ).len() <= 256,
    ensures
        final(moves)@ == old(moves)@ + destination_moves(
            board@,
            square,
            unit,
            destinations@,
            destinations@.len() as int,
        ),
{
    let kind = unit.kind;
    let color = unit.color;
    let promotion_rank = get_promotion_rank(color);
    let mut i: usize = 0;
    while i < destinations.len()
        invariant
            i <= destinations@.len(),
            kind == unit.kind,
            color == unit.color,
            promotion_rank == crate::moves::promotion_rank(color),
            old(moves)@.len() + destination_moves(
                board@,
                square,
                unit,
                destinations@,
                destinations@.len() as int,
            ).len() <= 256,
            moves@ == old(moves)@ + destination_moves(board@, square, unit, destinations@, i as int),
        decreases destinations@.len() - i,
    {
        proof {
            lemma_destination_moves_mono(board@, square, unit, destinations@, i + 1, destinations@.len() as int);
        }
        let destination_square = destinations[i];
        let captured_unit_kind = match board.get(destination_square) {
            None => None,
            Some(u) => Some(u.kind),
        };
        if kind == UnitKind::Pawn && destination_square.1 == promotion_rank {
            let ghost mt = moves_to(board@, square, unit, destination_square);
            assert(PROMOTION_UNITS@ =~= seq![UnitKind::Queen, UnitKind::Knight, UnitKind::Rook, UnitKind::Bishop]);
            assert(mt.len() == 4);
            assert(forall|t: int| 0 <= t < 4 ==> #[trigger] mt[t] == (Move::Promotion {
                from: square,
                to: destination_square,
                promote_to: PROMOTION_UNITS@[t],
                captured_unit: captured_unit_kind,
            }));
            assert(destination_moves(board@, square, unit, destinations@, i + 1) == destination_moves(board@, square, unit, destinations@, i as int) + mt);
            let mut j: usize = 0;
            while j < 4
                invariant
                    j <= 4,
                    moves@ == old(moves)@ + destination_moves(board@, square, unit, destinations@, i as int)
                        + moves_to(board@, square, unit, destination_square).take(j as int),
                    captured_unit_kind == kind_at(board@, destination_square),
                    kind == UnitKind::Pawn,
                    destination_square.1 == crate::moves::promotion_rank(unit.color),
                    i < destinations@.len(),
                    destination_square == destinations@[i as int],
                    mt == moves_to(board@, square, unit, destination_square),
                    mt.len() == 4,
                    forall|t: int| 0 <= t < 4 ==> #[trigger] mt[t] == (Move::Promotion {
                        from: square,
                        to: destination_square,
                        promote_to: PROMOTION_UNITS@[t],
                        captured_unit: captured_unit_kind,
                    }),
                    destination_moves(board@, square, unit, destinations@, i + 1) == destination_moves(board@, square, unit, destinations@, i as int) + mt,
                    old(moves)@.len() + destination_moves(board@, square, unit, destinations@, i + 1).len() <= 256,
                decreases 4 - j,
            {
                let promotion_unit = PROMOTION_UNITS[j];
                assert(moves_to(board@, square, unit, destination_square).take(j + 1) =~= moves_to(
                    board@,
                    square,
                    unit,
                    destination_square,
                ).take(j as int).push(Move::Promotion {
                    from: square,
                    to: destination_square,
                    promote_to: promotion_unit,
                    captured_unit: captured_unit_kind,
                }));
                moves.push(
                    Move::Promotion {
                        from: square,
                        to: destination_square,
                        promote_to: promotion_unit,
                        captured_unit: captured_unit_kind,
                    },
                );
                j = j + 1;
            }
            assert(moves_to(board@, square, unit, destination_square).take(4) =~= moves_to(
                board@,
                square,
                unit,
                destination_square,
            ));
        } else {
            moves.push(Move::Normal { from: square, to: destination_square, captured_unit: captured_unit_kind });
        }
        assert(moves@ =~= old(moves)@ + destination_moves(board@, square, unit, destinations@, i + 1));
        i = i + 1;
    }
}

/// The destination squares of `unit` standing on `square`.
fn compute_destinations(board: &Board, square: Square, unit: Unit) -> (r: Vec<Square>)
    ensures
        r@ == destinations(board@, square, unit),
{
    let color = unit.color;
    let mut destination_squares: Vec<Square> = Vec::new();
    match unit.kind {
        UnitKind::Pawn => {
            // pawn captures
            let capture_offsets = pawn_capture_offsets(color);
            get_target_squares_for_pawn_capture_offsets(
                board,
                square,
                capture_offsets.as_slice(),
                color,
                &mut destination_squares,
            );
            // pawn moves
            let move_offset = move_one_forward(color);
            if let Some(one_space_forward) = add_offset(square, move_offset) {
                if board.get(one_space_forward).is_none() {
                    // single move
                    destination_squares.push(one_space_forward);
                    let is_starting_pawn = (color == Color::White && square.1 == Rank::Two) || (color
                        == Color::Black && square.1 == Rank::Seven);
                    // two space move
                    if is_starting_pawn {
                        if let Some(two_spaces_forward) = add_offset(one_space_forward, move_offset) {
                            if board.get(two_spaces_forward).is_none() {
                                destination_squares.push(two_spaces_forward);
                            }
                        }
                    }
                }
            }
            assert(destination_squares@ =~= destinations(board@, square, unit));
        },
        UnitKind::King => {
            let offsets = king_move_offsets();
            get_target_squares_for_offsets(board, square, offsets.as_slice(), color, &mut destination_squares);
            assert(destination_squares@ =~= destinations(board@, square, unit));
        },
        UnitKind::Knight => {
            let offsets = knight_move_offsets();
            get_target_squares_for_offsets(board, square, offsets.as_slice(), color, &mut destination_squares);
            assert(destination_squares@ =~= destinations(board@, square, unit));
        },
        UnitKind::Bishop => {
            let directions = BISHOP_DIRECTIONS;
            assert(directions@ =~= bishop_directions());
            get_target_squares_for_directions(board, square, directions.as_slice(), color, &mut destination_squares);
            assert(destination_squares@ =~= destinations(board@, square, unit));
        },
        UnitKind::Rook => {
            let directions = ROOK_DIRECTIONS;
            assert(directions@ =~= rook_directions());
            get_target_squares_for_directions(board, square, directions.as_slice(), color, &mut destination_squares);
            assert(destination_squares@ =~= destinations(board@, square, unit));
        },
        UnitKind::Queen => {
            let directions = QUEEN_DIRECTIONS;
            assert(directions@ =~= queen_directions());
            get_target_squares_for_directions(board, square, directions.as_slice(), color, &mut destination_squares);
            assert(destination_squares@ =~= destinations(board@, square, unit));
        },
    }
    destination_squares
}

fn can_castle_king_side(game: &Game, color: Color) -> (r: bool)
    ensures
        r == king_side_castle_open(*game, color),
{
    let black_king_side = [Square(File::F, Rank::Eight), Square(File::G, Rank::Eight)];
    let white_king_side = [Square(File::F, Rank::One), Square(File::G, Rank::One)];
    let r = (game.black_can_king_side_castle && color == Color::Black && squares_are_empty(
        &game.board,
        black_king_side.as_slice(),
    )) || (game.white_can_king_side_castle && color == Color::White && squares_are_empty(
        &game.board,
        white_king_side.as_slice(),
    ));
    proof {
        let b = game.board@;
        if king_side_castle_open(*game, color) {
            if color == Color::Black {
                assert(is_empty(b, black_king_side@[0]) && is_empty(b, black_king_side@[1]));
            } else {
                assert(is_empty(b, white_king_side@[0]) && is_empty(b, white_king_side@[1]));
            }
        }
    }
    r
}

fn can_castle_queen_side(game: &Game, color: Color) -> (r: bool)
    ensures
        r == queen_side_castle_open(*game, color),
{
    let black_queen_side = [Square(File::B, Rank::Eight), Square(File::C, Rank::Eight), Square(File::D, Rank::Eight)];
    let white_queen_side = [Square(File::B, Rank::One), Square(File::C, Rank::One), Square(File::D, Rank::One)];
    let r = (game.black_can_queen_side_castle && color == Color::Black && squares_are_empty(
        &game.board,
        black_queen_side.as_slice(),
    )) || (game.white_can_queen_side_castle && color == Color::White && squares_are_empty(
        &game.board,
        white_queen_side.as_slice(),
    ));
    proof {
        let b = game.board@;
        if queen_side_castle_open(*game, color) {
            if color == Color::Black {
                assert(is_empty(b, black_queen_side@[0]) && is_empty(b, black_queen_side@[1]) && is_empty(
                    b,
                    black_queen_side@[2],
                ));
            } else {
                assert(is_empty(b, white_queen_side@[0]) && is_empty(b, white_queen_side@[1]) && is_empty(
                    b,
                    white_queen_side@[2],
                ));
            }
        }
    }
    r
}

fn en_passant_applies_to(game: &Game, square: Square) -> (r: bool)
    ensures
        r == en_passant_applies(*game, square),
{
    match game.en_passant_square {
        Some(en_passant_square) => {
            let ep_file = en_passant_square.0.idx();
            let file = square.0.idx();
            let adjacent = (ep_file > file && ep_file - file == 1) || (file > ep_file && file - ep_file == 1);
            en_passant_square.1 == square.1 && adjacent
        },
        None => false,
    }
}

fn en_passant_rank_exists(square: Square, color: Color) -> (r: bool)
    ensures
        r == (0 <= square.1.index() + pawn_direction(color) < 8),
{
    if color == Color::White {
        square.1.idx() < 7
    } else {
        square.1.idx() > 0
    }
}

/// The target of the en-passant capture of a pawn of `color` on `square`, if it has one.
fn en_passant_target(game: &Game, square: Square, color: Color) -> (r: Option<Square>)
    requires
        en_passant_applies(*game, square) ==> 0 <= square.1.index() + pawn_direction(color) < 8,
    ensures
        en_passant_moves(*game, square, Unit { kind: UnitKind::Pawn, color }) == match r {
            Some(to) => seq![Move::EnPassant { from: square, to }],
            None => Seq::<Move>::empty(),
        },
{
    if en_passant_applies_to(game, square) {
        let en_passant_square = game.en_passant_square.unwrap();
        let rank_move_offset: i32 = if color == Color::White {
            1
        } else {
            -1
        };
        let destination_file = en_passant_square.0;
        let destination_rank = Rank::from_index((square.1.idx() as i32 + rank_move_offset) as usize);
        Some(Square(destination_file, destination_rank))
    } else {
        None
    }
}

/// Lists, after the moves already in `moves`, the pseudo-legal moves of the unit on `square`:
/// nothing unless it belongs to the side to play; for a king its available castlings first; for a
/// pawn its en-passant capture first; then the moves to each destination square.
pub fn populate_pseudo_legal_moves_for_source_square(game: &Game, square: Square, moves: &mut MoveList)
    requires
        source_ok(*game, square),
        old(moves)@.len() + pseudo_moves(*game, square).len() <= 256,
    ensures
        final(moves)@ == old(moves)@ + pseudo_moves(*game, square),
{
    let unit = match game.board.get(square) {
        None => {
            assert(old(moves)@ + pseudo_moves(*game, square) =~= old(moves)@);
            return ;
        },
        Some(u) => u,
    };
    let color = unit.color;
    let kind = unit.kind;
    if color != game.next_move {
        assert(old(moves)@ + pseudo_moves(*game, square) =~= old(moves)@);
        return ;
    }
    let ghost b = game.board@;
    let ghost ds = destinations(b, square, unit);
    let ghost dm = destination_moves(b, square, unit, ds, ds.len() as int);
    let ghost cm = castle_moves(*game, unit);
    let ghost em = en_passant_moves(*game, square, unit);
    assert(pseudo_moves(*game, square) == cm + em + dm);

    // castling
    if kind == UnitKind::King {
        if can_castle_king_side(game, color) {
            moves.push(Move::KingSideCastle);
        }
        if can_castle_queen_side(game, color) {
            moves.push(Move::QueenSideCastle);
        }
    }
    assert(moves@ =~= old(moves)@ + cm);
    if kind == UnitKind::Pawn {
        if let Some(to) = en_passant_target(game, square, color) {
            moves.push(Move::EnPassant { from: square, to: to });
        }
    }
    assert(moves@ =~= old(moves)@ + cm + em);
    let computed = compute_destinations(&game.board, square, unit);
    let mut destination_squares: StackVector<Square, 27> = StackVector::new(Square(File::A, Rank::One));
    let mut i: usize = 0;
    while i < computed.len()
        invariant
            i <= computed@.len(),
            computed@ == ds,
            ds.len() <= 27,
            destination_squares@ == computed@.take(i as int),
        decreases computed@.len() - i,
    {
        destination_squares.push(computed[i]);
        assert(computed@.take(i + 1) =~= computed@.take(i as int).push(computed@[i as int]));
        i = i + 1;
    }
    assert(destination_squares@ =~= ds);
    push_destination_moves(&game.board, square, unit, destination_squares.to_slice(), moves);
    assert(moves@ =~= old(moves)@ + pseudo_moves(*game, square));
}

/// The unit a move recorded as captured, standing for the opponent of `color`.
pub open spec fn captured_unit(captured: Option<UnitKind>, color: Color) -> Option<Unit> {
    match captured {
        None => None,
        Some(k) => Some(Unit { kind: k, color: other_color(color) }),
    }
}

/// The square of the pawn taken by an en-passant capture from `from` to `to`.
pub open spec fn en_passant_capture_square(from: Square, to: Square) -> Square {
    Square(to.0, from.1)
}

/// The board after `color` plays `m`. Castling moves the king from the E file to the G (king
/// side) or C (queen side) file of its back rank and the rook beside it; a normal or en-passant
/// move carries what stands on `from` to `to`, en passant also emptying the square beside `from`
/// on `to`'s file; a promotion puts a new unit of `color` on `to`.
pub open spec fn apply_board(b: Seq<Option<Unit>>, color: Color, m: Move) -> Seq<Option<Unit>> {
    match m {
        Move::QueenSideCastle => {
            let r = back_rank(color);
            let b1 = put(b, Square(File::C, r), unit_at(b, Square(File::E, r)));
            let b2 = put(b1, Square(File::E, r), None);
            let b3 = put(b2, Square(File::D, r), unit_at(b2, Square(File::A, r)));
            put(b3, Square(File::A, r), None)
        },
        Move::KingSideCastle => {
            let r = back_rank(color);
            let b1 = put(b, Square(File::G, r), unit_at(b, Square(File::E, r)));
            let b2 = put(b1, Square(File::E, r), None);
            let b3 = put(b2, Square(File::F, r), unit_at(b2, Square(File::H, r)));
            put(b3, Square(File::H, r), None)
        },
        Move::Normal { from, to, .. } => {
            let b1 = put(b, to, unit_at(b, from));
            put(b1, from, None)
        },
        Move::Promotion { from, to, promote_to, .. } => {
            let b1 = put(b, from, None);
            put(b1, to, Some(Unit { color, kind: promote_to }))
        },
        Move::EnPassant { from, to } => {
            let b1 = put(b, to, unit_at(b, from));
            let b2 = put(b1, from, None);
            put(b2, en_passant_capture_square(from, to), None)
        },
    }
}

/// The board after taking back `m` played by `color`: units return to where they came from,
/// a recorded capture comes back as a unit of the opponent, a promoted unit turns back into a
/// pawn, and the pawn taken en passant comes back.
pub open spec fn revert_board(b: Seq<Option<Unit>>, color: Color, m: Move) -> Seq<Option<Unit>> {
    match m {
        Move::QueenSideCastle => {
            let r = back_rank(color);
            let b1 = put(b, Square(File::E, r), unit_at(b, Square(File::C, r)));
            let b2 = put(b1, Square(File::C, r), None);
            let b3 = put(b2, Square(File::A, r), unit_at(b2, Square(File::D, r)));
            put(b3, Square(File::D, r), None)
        },
        Move::KingSideCastle => {
            let r = back_rank(color);
            let b1 = put(b, Square(File::E, r), unit_at(b, Square(File::G, r)));
            let b2 = put(b1, Square(File::G, r), None);
            let b3 = put(b2, Square(File::H, r), unit_at(b2, Square(File::F, r)));
            put(b3, Square(File::F, r), None)
        },
        Move::Normal { from, to, captured_unit: captured } => {
            let b1 = put(b, from, unit_at(b, to));
            put(b1, to, captured_unit(captured, color))
        },
        Move::Promotion { from, to, captured_unit: captured, .. } => {
            let b1 = put(b, from, Some(Unit { color, kind: UnitKind::Pawn }));
            put(b1, to, captured_unit(captured, color))
        },
        Move::EnPassant { from, to } => {
            let b1 = put(b, from, unit_at(b, to));
            let b2 = put(b1, to, None);
            put(b2, en_passant_capture_square(from, to), Some(Unit { color: other_color(color), kind: UnitKind::Pawn }))
        },
    }
}

/// Whether `m`, played by `color`, agrees with the board `b` so that taking it back restores
/// `b`: the squares a castling king and rook land on are empty; a move's source and target
/// differ and its recorded capture is what the target holds; a promoting unit is a pawn of
/// `color`; an en-passant target is empty and the square beside the pawn holds an enemy pawn.
pub open spec fn move_consistent(b: Seq<Option<Unit>>, color: Color, m: Move) -> bool {
    match m {
        Move::QueenSideCastle => {
            let r = back_rank(color);
            is_empty(b, Square(File::C, r)) && is_empty(b, Square(File::D, r))
        },
        Move::KingSideCastle => {
            let r = back_rank(color);
            is_empty(b, Square(File::G, r)) && is_empty(b, Square(File::F, r))
        },
        Move::Normal { from, to, captured_unit: captured } => from != to && unit_at(b, to)
            == captured_unit(captured, color),
        Move::Promotion { from, to, captured_unit: captured, .. } => from != to && unit_at(b, from) == Some(
            Unit { kind: UnitKind::Pawn, color },
        ) && unit_at(b, to) == captured_unit(captured, color),
        Move::EnPassant { from, to } => {
            let cap = en_passant_capture_square(from, to);
            &&& from != to
            &&& from != cap
            &&& to != cap
            &&& is_empty(b, to)
            &&& unit_at(b, cap) == Some(Unit { kind: UnitKind::Pawn, color: other_color(color) })
        },
    }
}

/// Taking back a move restores the board it was played on, whenever the move agrees with that
/// board.
pub proof fn lemma_revert_undoes_apply(b: Seq<Option<Unit>>, color: Color, m: Move)
    requires
        b.len() == 64,
        move_consistent(b, color, m),
    ensures
        revert_board(apply_board(b, color, m), color, m) == b,
{
    match m {
        Move::Normal { from, to, .. } => {
            crate::lemma_square_index(from, to);
        },
        Move::Promotion { from, to, .. } => {
            crate::lemma_square_index(from, to);
        },
        Move::EnPassant { from, to } => {
            let cap = en_passant_capture_square(from, to);
            crate::lemma_square_index(from, to);
            crate::lemma_square_index(from, cap);
            crate::lemma_square_index(to, cap);
        },
        _ => {},
    }
    assert(revert_board(apply_board(b, color, m), color, m) =~= b);
}

/// Plays `m` for `color` on the board.
pub fn apply_move_to_board(board: &mut Board, color: Color, m: Move)
    ensures
        final(board)@ == apply_board(old(board)@, color, m),
{
    match m {
        Move::QueenSideCastle => {
            let rank = get_back_rank(color);
            // move the king
            let king = board.get(Square(File::E, rank));
            board.set(Square(File::C, rank), king);
            board.set(Square(File::E, rank), None);
            // move the rook
            let rook = board.get(Square(File::A, rank));
            board.set(Square(File::D, rank), rook);
            board.set(Square(File::A, rank), None);
        },
        Move::KingSideCastle => {
            let rank = get_back_rank(color);
            // move the king
            let king = board.get(Square(File::E, rank));
            board.set(Square(File::G, rank), king);
            board.set(Square(File::E, rank), None);
            // move the rook
            let rook = board.get(Square(File::H, rank));
            board.set(Square(File::F, rank), rook);
            board.set(Square(File::H, rank), None);
        },
        Move::Normal { from, to, .. } => {
            let moving = board.get(from);
            board.set(to, moving);
            board.set(from, None);
        },
        Move::Promotion { from, to, promote_to, .. } => {
            board.set(from, None);
            board.set(to, Some(Unit { color: color, kind: promote_to }));
        },
        Move::EnPassant { from, to } => {
            let capture_square = Square(to.0, from.1);
            let moving = board.get(from);
            board.set(to, moving);
            board.set(from, None);
            board.set(capture_square, None);
        },
    }
}

fn captured_unit_of(captured: Option<UnitKind>, color: Color) -> (r: Option<Unit>)
    ensures
        r == captured_unit(captured, color),
{
    match captured {
        None => None,
        Some(k) => Some(Unit { kind: k, color: get_other_color(color) }),
    }
}

/// Takes back `m` played by `color`.
pub(crate) fn revert_move_to_board(board: &mut Board, color: Color, m: Move)
    ensures
        final(board)@ == revert_board(old(board)@, color, m),
{
    match m {
        Move::QueenSideCastle => {
            let rank = get_back_rank(color);
            // move the king
            let king = board.get(Square(File::C, rank));
            board.set(Square(File::E, rank), king);
            board.set(Square(File::C, rank), None);
            // move the rook
            let rook = board.get(Square(File::D, rank));
            board.set(Square(File::A, rank), rook);
            board.set(Square(File::D, rank), None);
        },
        Move::KingSideCastle => {
            let rank = get_back_rank(color);
            // move the king
            let king = board.get(Square(File::G, rank));
            board.set(Square(File::E, rank), king);
            board.set(Square(File::G, rank), None);
            // move the rook
            let rook = board.get(Square(File::F, rank));
            board.set(Square(File::H, rank), rook);
            board.set(Square(File::F, rank), None);
        },
        Move::Normal { from, to, captured_unit } => {
            let moving = board.get(to);
            board.set(from, moving);
            board.set(to, captured_unit_of(captured_unit, color));
        },
        Move::Promotion { from, to, captured_unit, .. } => {
            board.set(from, Some(Unit { color: color, kind: UnitKind::Pawn }));
            board.set(to, captured_unit_of(captured_unit, color));
        },
        Move::EnPassant { from, to } => {
            let capture_square = Square(to.0, from.1);
            let moving = board.get(to);
            board.set(from, moving);
            board.set(to, None);
            board.set(capture_square, Some(Unit { color: get_other_color(color), kind: UnitKind::Pawn }));
        },
    }
}

/// Whether, on board `b`, the king of `color` standing on `king_square` is attacked by the
/// opponent: by a knight a knight's jump away, by a pawn diagonally in front of it, by a bishop
/// or queen first met along a diagonal direction, or by a rook or queen first met along a
/// straight direction. (A king next to it does not count.)
pub open spec fn king_attacked(b: Seq<Option<Unit>>, king_square: Square, color: Color) -> bool {
    let enemy = other_color(color);
    ||| piece_at_offsets(b, king_square, knight_steps(), UnitKind::Knight, enemy)
    ||| piece_at_offsets(b, king_square, king_attacking_pawn_steps(color), UnitKind::Pawn, enemy)
    ||| next_on_rays(b, king_square, bishop_directions(), enemy, UnitKind::Bishop, UnitKind::Queen)
    ||| next_on_rays(b, king_square, rook_directions(), enemy, UnitKind::Rook, UnitKind::Queen)
}

fn king_is_attacked(board: &Board, king_position: Square, color: Color) -> (r: bool)
    ensures
        r == king_attacked(board@, king_position, color),
{
    let other = get_other_color(color);
    let knights = knight_move_offsets();
    let pawns = king_attacking_pawn_offsets(color);
    let bishop_directions = BISHOP_DIRECTIONS;
    let rook_directions = ROOK_DIRECTIONS;
    assert(bishop_directions@ =~= crate::moves::bishop_directions());
    assert(rook_directions@ =~= crate::moves::rook_directions());
    let mut is_king_checked = false;
    // is king checked by knight
    is_king_checked = is_king_checked || is_piece_at_offset(
        board,
        king_position,
        knights.as_slice(),
        UnitKind::Knight,
        other,
    );
    // is king checked by pawn
    is_king_checked = is_king_checked || is_piece_at_offset(
        board,
        king_position,
        pawns.as_slice(),
        UnitKind::Pawn,
        other,
    );
    // is king checked by a diagonal moving piece
    is_king_checked = is_king_checked || is_next_piece_on_ray_of_kind(
        board,
        king_position,
        bishop_directions.as_slice(),
        other,
        UnitKind::Bishop,
        UnitKind::Queen,
    );
    // is king checked by a horizontal moving piece
    is_king_checked = is_king_checked || is_next_piece_on_ray_of_kind(
        board,
        king_position,
        rook_directions.as_slice(),
        other,
        UnitKind::Rook,
        UnitKind::Queen,
    );
    is_king_checked
}

/// Whether `m`, played by `color` on board `b`, leaves the square `king_square` unattacked.
pub open spec fn move_is_legal(b: Seq<Option<Unit>>, king_square: Square, color: Color, m: Move) -> bool {
    !king_attacked(apply_board(b, color, m), king_square, color)
}

/// Whether, after `color` plays `pseudo_legal_move`, the square `king_position` is free of
/// attack. The move is played on the board and then taken back, which restores the board
/// whenever the move agrees with it (see `lemma_revert_undoes_apply`).
pub fn is_legal_move(board: &mut Board, king_position: Square, color: Color, pseudo_legal_move: Move) -> (r: bool)
    ensures
        r == move_is_legal(old(board)@, king_position, color, pseudo_legal_move),
        final(board)@ == revert_board(apply_board(old(board)@, color, pseudo_legal_move), color, pseudo_legal_move),
        move_consistent(old(board)@, color, pseudo_legal_move) ==> final(board)@ == old(board)@,
{
    apply_move_to_board(board, color, pseudo_legal_move);
    let is_king_checked = king_is_attacked(board, king_position, color);
    revert_move_to_board(board, color, pseudo_legal_move);
    proof {
        if move_consistent(old(board)@, color, pseudo_legal_move) {
            lemma_revert_undoes_apply(old(board)@, color, pseudo_legal_move);
        }
    }
    !is_king_checked
}

/// Where the king of the side to play stands after `m`, when `m` moves it: castling puts it on
/// the C file of its back rank (on either side), a normal move of the king puts it on the target.
pub open spec fn new_king_square(g: Game, m: Move) -> Option<Square> {
    match m {
        Move::KingSideCastle => Some(Square(File::C, back_rank(g.next_move))),
        Move::QueenSideCastle => Some(Square(File::C, back_rank(g.next_move))),
        Move::Normal { from, to, .. } => if unit_at(g.board@, from) matches Some(u) && u.kind
            == UnitKind::King {
            Some(to)
        } else {
            None
        },
        _ => None,
    }
}

/// The source square of a normal move.
pub open spec fn normal_move_source(m: Move) -> Option<Square> {
    match m {
        Move::Normal { from, .. } => Some(from),
        _ => None,
    }
}

/// Whether a move from `from` to `to` is a pawn advancing two ranks on its file.
pub open spec fn is_double_pawn_step(b: Seq<Option<Unit>>, from: Square, to: Square) -> bool {
    &&& from.0 == to.0
    &&& (from.1.index() - to.1.index() == 2 || to.1.index() - from.1.index() == 2)
    &&& unit_at(b, from) matches Some(u) && u.kind == UnitKind::Pawn
}

/// The en-passant square after `m`: after a normal move, the target of a two-rank pawn advance
/// or none; other moves keep the previous one.
pub open spec fn en_passant_after(g: Game, m: Move) -> Option<Square> {
    match m {
        Move::Normal { from, to, .. } => if is_double_pawn_step(g.board@, from, to) {
            Some(to)
        } else {
            None
        },
        _ => g.en_passant_square,
    }
}

/// Plays `m` for the side to play: updates the board, the king positions and castling rights
/// (lost by a king move, and by a normal move from a rook's starting corner), the en-passant
/// square, and passes the turn.
pub fn apply_move_to_game(game: &mut Game, m: Move)
    ensures
        ({
            let g = *old(game);
            let c = g.next_move;
            let nk = new_king_square(g, m);
            let white_king_moved = nk is Some && c == Color::White;
            let black_king_moved = nk is Some && c == Color::Black;
            let source = normal_move_source(m);
            &&& final(game).board@ == apply_board(g.board@, c, m)
            &&& final(game).next_move == other_color(c)
            &&& final(game).white_king_position == if white_king_moved {
                nk->0
            } else {
                g.white_king_position
            }
            &&& final(game).black_king_position == if black_king_moved {
                nk->0
            } else {
                g.black_king_position
            }
            &&& final(game).white_can_king_side_castle == (g.white_can_king_side_castle && !white_king_moved
                && source != Some(Square(File::H, Rank::One)))
            &&& final(game).white_can_queen_side_castle == (g.white_can_queen_side_castle && !white_king_moved
                && source != Some(Square(File::A, Rank::One)))
            &&& final(game).black_can_king_side_castle == (g.black_can_king_side_castle && !black_king_moved
                && source != Some(Square(File::H, Rank::Eight)))
            &&& final(game).black_can_queen_side_castle == (g.black_can_queen_side_castle && !black_king_moved
                && source != Some(Square(File::A, Rank::Eight)))
            &&& final(game).en_passant_square == en_passant_after(g, m)
        }),
{
    let new_king_square = match m {
        Move::KingSideCastle => match game.next_move {
            Color::White => Some(Square(File::C, Rank::One)),
            Color::Black => Some(Square(File::C, Rank::Eight)),
        },
        Move::QueenSideCastle => match game.next_move {
            Color::White => Some(Square(File::C, Rank::One)),
            Color::Black => Some(Square(File::C, Rank::Eight)),
        },
        Move::Normal { from, to, .. } => match game.board.get(from) {
            Some(u) => if u.kind == UnitKind::King {
                Some(to)
            } else {
                None
            },
            None => None,
        },
        _ => None,
    };
    // update state for king moves
    if let Some(new_king_square) = new_king_square {
        if game.next_move == Color::White {
            game.white_king_position = new_king_square;
            game.white_can_king_side_castle = false;
            game.white_can_queen_side_castle = false;
        } else {
            game.black_king_position = new_king_square;
            game.black_can_king_side_castle = false;
            game.black_can_queen_side_castle = false;
        }
    }
    if let Move::Normal { from, to, .. } = m {
        // update state for rook moves
        if from == Square(File::A, Rank::One) {
            game.white_can_queen_side_castle = false;
        } else if from == Square(File::H, Rank::One) {
            game.white_can_king_side_castle = false;
        } else if from == Square(File::A, Rank::Eight) {
            game.black_can_queen_side_castle = false;
        } else if from == Square(File::H, Rank::Eight) {
            game.black_can_king_side_castle = false;
        }
        // update en passant state
        let from_rank = from.1.idx();
        let to_rank = to.1.idx();
        let two_ranks = (from_rank > to_rank && from_rank - to_rank == 2) || (to_rank > from_rank && to_rank
            - from_rank == 2);
        let is_pawn = match game.board.get(from) {
            Some(u) => u.kind == UnitKind::Pawn,
            None => false,
        };
        let is_double_pawn_move = from.0 == to.0 && two_ranks && is_pawn;
        if is_double_pawn_move {
            game.en_passant_square = Some(to);
        } else {
            game.en_passant_square = None;
        }
    }
    let color = game.next_move;
    apply_move_to_board(&mut game.board, color, m);
    game.next_move = get_other_color(game.next_move);
}

/// The square with number `k` when squares are counted file by file, each file from rank One up.
pub open spec fn square_in_file_order(k: int) -> Square {
    Square(file_at(k / 8), rank_at(k % 8))
}

/// The pseudo-legal moves of the first `k` squares counted file by file.
pub open spec fn pseudo_moves_upto(g: Game, k: int) -> Seq<Move>
    decreases k,
{
    if k <= 0 {
        seq![]
    } else {
        pseudo_moves_upto(g, k - 1) + pseudo_moves(g, square_in_file_order(k - 1))
    }
}

/// Every pseudo-legal move of the side to play, square by square, file by file.
pub open spec fn all_pseudo_moves(g: Game) -> Seq<Move> {
    pseudo_moves_upto(g, 64)
}

proof fn lemma_pseudo_moves_upto_mono(g: Game, i: int, j: int)
    requires
        0 <= i <= j,
    ensures
        pseudo_moves_upto(g, i).len() <= pseudo_moves_upto(g, j).len(),
    decreases j - i,
{
    if i < j {
        lemma_pseudo_moves_upto_mono(g, i, j - 1);
    }
}

/// Whether listing the moves from every square stays within its limits.
pub open spec fn all_sources_ok(g: Game) -> bool {
    forall|sq: Square| #[trigger] source_ok(g, sq)
}

/// Where the king of the side to play stands, as the game records it.
pub open spec fn king_square(g: Game) -> Square {
    if g.next_move == Color::White {
        g.white_king_position
    } else {
        g.black_king_position
    }
}

/// Checks the moves `ms` in order, each on the board the previous check left behind (the move
/// played and taken back): the moves found legal, and the final board.
pub open spec fn legal_fold(b: Seq<Option<Unit>>, king_square: Square, color: Color, ms: Seq<Move>) -> (
    Seq<Move>,
    Seq<Option<Unit>>,
)
    decreases ms.len(),
{
    if ms.len() == 0 {
        (seq![], b)
    } else {
        let prev = legal_fold(b, king_square, color, ms.drop_last());
        let m = ms.last();
        let after = revert_board(apply_board(prev.1, color, m), color, m);
        (
            if move_is_legal(prev.1, king_square, color, m) {
                prev.0.push(m)
            } else {
                prev.0
            },
            after,
        )
    }
}

/// Playing or taking back a move keeps the board's 64 squares.
pub proof fn lemma_board_len(b: Seq<Option<Unit>>, color: Color, m: Move)
    requires
        b.len() == 64,
    ensures
        apply_board(b, color, m).len() == 64,
        revert_board(b, color, m).len() == 64,
{
    match m {
        Move::Normal { from, to, .. } => {
            crate::lemma_square_index(from, to);
            crate::lemma_square_index(to, from);
        },
        Move::Promotion { from, to, .. } => {
            crate::lemma_square_index(from, to);
            crate::lemma_square_index(to, from);
        },
        Move::EnPassant { from, to } => {
            crate::lemma_square_index(from, to);
            crate::lemma_square_index(to, from);
            crate::lemma_square_index(en_passant_capture_square(from, to), from);
        },
        _ => {},
    }
}

pub(crate) proof fn lemma_legal_fold_len(b: Seq<Option<Unit>>, king_square: Square, color: Color, ms: Seq<Move>)
    requires
        b.len() == 64,
    ensures
        legal_fold(b, king_square, color, ms).0.len() <= ms.len(),
        legal_fold(b, king_square, color, ms).1.len() == b.len(),
    decreases ms.len(),
{
    if ms.len() > 0 {
        lemma_legal_fold_len(b, king_square, color, ms.drop_last());
        let prev = legal_fold(b, king_square, color, ms.drop_last());
        lemma_board_len(prev.1, color, ms.last());
        lemma_board_len(apply_board(prev.1, color, ms.last()), color, ms.last());
    }
}

/// Whether two games agree on everything but the board.
pub open spec fn same_but_board(g1: Game, g2: Game) -> bool {
    &&& g1.next_move == g2.next_move
    &&& g1.white_can_king_side_castle == g2.white_can_king_side_castle
    &&& g1.black_can_king_side_castle == g2.black_can_king_side_castle
    &&& g1.white_can_queen_side_castle == g2.white_can_queen_side_castle
    &&& g1.black_can_queen_side_castle == g2.black_can_queen_side_castle
    &&& g1.en_passant_square == g2.en_passant_square
    &&& g1.white_king_position == g2.white_king_position
    &&& g1.black_king_position == g2.black_king_position
}

/// The legal moves of the side to play: the pseudo-legal moves of every square, file by file,
/// that do not leave its recorded king square attacked, in order. Each candidate is checked by
/// playing and taking it back on the board (see `legal_fold`).
pub fn get_legal_moves(game: &mut Game) -> (r: MoveList)
    requires
        all_sources_ok(*old(game)),
        all_pseudo_moves(*old(game)).len() <= 256,
    ensures
        r@ == legal_fold(
            old(game).board@,
            king_square(*old(game)),
            old(game).next_move,
            all_pseudo_moves(*old(game)),
        ).0,
        final(game).board@ == legal_fold(
            old(game).board@,
            king_square(*old(game)),
            old(game).next_move,
            all_pseudo_moves(*old(game)),
        ).1,
        same_but_board(*final(game), *old(game)),
{
    let mut pseudo_legal_moves = MoveList::new(Move::KingSideCastle);
    let mut k: usize = 0;
    while k < 64
        invariant
            k <= 64,
            all_sources_ok(*game),
            all_pseudo_moves(*game).len() <= 256,
            pseudo_legal_moves@ == pseudo_moves_upto(*game, k as int),
        decreases 64 - k,
    {
        let square = Square(File::from_index(k / 8), Rank::from_index(k % 8));
        assert(square == square_in_file_order(k as int));
        proof {
            lemma_pseudo_moves_upto_mono(*game, k + 1, 64);
        }
        assert(source_ok(*game, square));
        populate_pseudo_legal_moves_for_source_square(game, square, &mut pseudo_legal_moves);
        k = k + 1;
    }
    let ghost g0 = *game;
    let ghost all = pseudo_legal_moves@;
    let color = game.next_move;
    let king_position = if game.next_move == Color::White {
        game.white_king_position
    } else {
        game.black_king_position
    };
    let mut legal_moves = MoveList::new(Move::KingSideCastle);
    let candidates = pseudo_legal_moves.to_slice();
    let mut i: usize = 0;
    assert(candidates@.take(0) =~= Seq::<Move>::empty());
    while i < candidates.len()
        invariant
            i <= candidates@.len(),
            candidates@ == all,
            all == all_pseudo_moves(g0),
            all.len() <= 256,
            color == g0.next_move,
            king_position == king_square(g0),
            same_but_board(*game, g0),
            legal_moves@ == legal_fold(g0.board@, king_position, color, candidates@.take(i as int)).0,
            game.board@ == legal_fold(g0.board@, king_position, color, candidates@.take(i as int)).1,
        decreases candidates@.len() - i,
    {
        proof {
            lemma_legal_fold_len(g0.board@, king_position, color, candidates@.take(i as int));
        }
        let m = candidates[i];
        assert(candidates@.take(i + 1).drop_last() =~= candidates@.take(i as int));
        assert(candidates@.take(i + 1).last() == m);
        if is_legal_move(&mut game.board, king_position, color, m) {
            legal_moves.push(m);
        }
        i = i + 1;
    }
    assert(candidates@.take(i as int) =~= candidates@);
    legal_moves
}

/// Whether the king of `color` is attacked where the game records it.
pub fn is_king_in_check(game: &Game, color: Color) -> (r: bool)
    ensures
        r == king_attacked(
            game.board@,
            if color == Color::White {
                game.white_king_position
            } else {
                game.black_king_position
            },
            color,
        ),
{
    let king_position = if color == Color::White {
        game.white_king_position
    } else {
        game.black_king_position
    };
    king_is_attacked(&game.board, king_position, color)
}

/// Whether `t` is a square a unit of `color` on `sq` may move to: another square, empty or held
/// by the opponent.
pub open spec fn lands_ok(b: Seq<Option<Unit>>, sq: Square, color: Color, t: Square) -> bool {
    t != sq && can_land(b, t, color)
}

/// Every step of the list moves.
pub open spec fn all_nonzero(offsets: Seq<MoveOffset>) -> bool {
    forall|i: int| 0 <= i < offsets.len() ==> (#[trigger] offsets[i]).file != 0 || offsets[i].rank != 0
}

proof fn lemma_offset_square_moves(sq: Square, o: MoveOffset)
    requires
        o.file != 0 || o.rank != 0,
    ensures
        offset_square(sq, o) matches Some(t) ==> t != sq,
{
}

proof fn lemma_offset_targets_land(
    b: Seq<Option<Unit>>,
    sq: Square,
    offsets: Seq<MoveOffset>,
    color: Color,
    captures_only: bool,
    n: int,
)
    requires
        0 <= n <= offsets.len(),
        all_nonzero(offsets),
    ensures
        forall|j: int|
            0 <= j < offset_targets(b, sq, offsets, color, captures_only, n).len() ==> lands_ok(
                b,
                sq,
                color,
                #[trigger] offset_targets(b, sq, offsets, color, captures_only, n)[j],
            ),
    decreases n,
{
    if n > 0 {
        lemma_offset_targets_land(b, sq, offsets, color, captures_only, n - 1);
        assert(offsets[n - 1].file != 0 || offsets[n - 1].rank != 0);
        lemma_offset_square_moves(sq, offsets[n - 1]);
        let prev = offset_targets(b, sq, offsets, color, captures_only, n - 1);
        let cur = offset_targets(b, sq, offsets, color, captures_only, n);
        assert forall|j: int| 0 <= j < cur.len() implies lands_ok(b, sq, color, #[trigger] cur[j]) by {
            if j < prev.len() {
                assert(cur[j] == prev[j]);
            }
        }
    }
}

/// How far `e` lies from `s` along direction `d`; positive for every square of the ray.
pub open spec fn progress(d: Direction, s: Square, e: Square) -> int {
    let df = e.0.index() - s.0.index();
    let dr = e.1.index() - s.1.index();
    match d {
        Direction::Up => dr,
        Direction::UpRight => df + dr,
        Direction::Right => df,
        Direction::DownRight => df - dr,
        Direction::Down => -dr,
        Direction::DownLeft => -df - dr,
        Direction::Left => -df,
        Direction::Upleft => df - dr,
    }
}

proof fn lemma_ray_steps_progress(s: Square, d: Direction, n: nat)
    ensures
        forall|j: int|
            0 <= j < ray_steps(s, direction_step(d), n).len() ==> progress(
                d,
                s,
                #[trigger] ray_steps(s, direction_step(d), n)[j],
            ) > 0,
    decreases n,
{
    if n > 0 {
        if let Some(next) = offset_square(s, direction_step(d)) {
            lemma_ray_steps_progress(next, d, (n - 1) as nat);
            let rest = ray_steps(next, direction_step(d), (n - 1) as nat);
            assert forall|j: int|
                0 <= j < ray_steps(s, direction_step(d), n).len() implies progress(
                d,
                s,
                #[trigger] ray_steps(s, direction_step(d), n)[j],
            ) > 0 by {
                if j > 0 {
                    assert(ray_steps(s, direction_step(d), n)[j] == rest[j - 1]);
                }
            }
        }
    }
}

/// No square of a ray is the square it starts from.
pub proof fn lemma_ray_excludes_origin(s: Square, d: Direction)
    ensures
        forall|j: int| 0 <= j < ray(s, d).len() ==> #[trigger] ray(s, d)[j] != s,
{
    lemma_ray_steps_progress(s, d, 7);
}

proof fn lemma_slide_land(b: Seq<Option<Unit>>, r: Seq<Square>, color: Color)
    ensures
        forall|j: int|
            0 <= j < slide(b, r, color).len() ==> can_land(b, #[trigger] slide(b, r, color)[j], color)
                && r.contains(slide(b, r, color)[j]),
    decreases r.len(),
{
    if r.len() > 0 {
        lemma_slide_land(b, r.drop_first(), color);
        let rest = slide(b, r.drop_first(), color);
        assert forall|j: int| 0 <= j < slide(b, r, color).len() implies can_land(
            b,
            #[trigger] slide(b, r, color)[j],
            color,
        ) && r.contains(slide(b, r, color)[j]) by {
            if j == 0 {
                assert(r[0] == r[0]);
            } else {
                assert(slide(b, r, color)[j] == rest[j - 1]);
                let k = choose|k: int| 0 <= k < r.drop_first().len() && r.drop_first()[k] == rest[j - 1];
                assert(r[k + 1] == rest[j - 1]);
            }
        }
    }
}

proof fn lemma_direction_targets_land(
    b: Seq<Option<Unit>>,
    sq: Square,
    dirs: Seq<Direction>,
    color: Color,
    n: int,
)
    requires
        0 <= n <= dirs.len(),
    ensures
        forall|j: int|
            0 <= j < direction_targets(b, sq, dirs, color, n).len() ==> lands_ok(
                b,
                sq,
                color,
                #[trigger] direction_targets(b, sq, dirs, color, n)[j],
            ),
    decreases n,
{
    if n > 0 {
        lemma_direction_targets_land(b, sq, dirs, color, n - 1);
        let prev = direction_targets(b, sq, dirs, color, n - 1);
        let r = ray(sq, dirs[n - 1]);
        let last = slide(b, r, color);
        lemma_slide_land(b, r, color);
        lemma_ray_excludes_origin(sq, dirs[n - 1]);
        assert forall|j: int|
            0 <= j < direction_targets(b, sq, dirs, color, n).len() implies lands_ok(
            b,
            sq,
            color,
            #[trigger] direction_targets(b, sq, dirs, color, n)[j],
        ) by {
            if j >= prev.len() {
                assert(direction_targets(b, sq, dirs, color, n)[j] == last[j - prev.len()]);
                let k = choose|k: int| 0 <= k < r.len() && r[k] == last[j - prev.len()];
            } else {
                assert(direction_targets(b, sq, dirs, color, n)[j] == prev[j]);
            }
        }
    }
}

proof fn lemma_destinations_land(b: Seq<Option<Unit>>, sq: Square, u: Unit)
    ensures
        forall|j: int|
            0 <= j < destinations(b, sq, u).len() ==> lands_ok(b, sq, u.color, #[trigger] destinations(b, sq, u)[j]),
{
    match u.kind {
        UnitKind::Pawn => {
            let caps = offset_targets(b, sq, pawn_capture_steps(u.color), u.color, true, 2);
            let adv = pawn_advances(b, sq, u.color);
            lemma_offset_targets_land(b, sq, pawn_capture_steps(u.color), u.color, true, 2);
            assert forall|j: int| 0 <= j < adv.len() implies lands_ok(b, sq, u.color, #[trigger] adv[j]) by {
            }
            assert forall|j: int|
                0 <= j < destinations(b, sq, u).len() implies lands_ok(
                b,
                sq,
                u.color,
                #[trigger] destinations(b, sq, u)[j],
            ) by {
                if j < caps.len() {
                    assert(destinations(b, sq, u)[j] == caps[j]);
                } else {
                    assert(destinations(b, sq, u)[j] == adv[j - caps.len()]);
                }
            }
        },
        UnitKind::King => {
            lemma_offset_targets_land(b, sq, king_steps(), u.color, false, 8);
        },
        UnitKind::Knight => {
            lemma_offset_targets_land(b, sq, knight_steps(), u.color, false, 8);
        },
        UnitKind::Bishop => {
            lemma_direction_targets_land(b, sq, bishop_directions(), u.color, 4);
        },
        UnitKind::Rook => {
            lemma_direction_targets_land(b, sq, rook_directions(), u.color, 4);
        },
        UnitKind::Queen => {
            lemma_direction_targets_land(b, sq, queen_directions(), u.color, 8);
        },
    }
}

proof fn lemma_destination_moves_consistent(
    b: Seq<Option<Unit>>,
    sq: Square,
    u: Unit,
    ds: Seq<Square>,
    n: int,
)
    requires
        0 <= n <= ds.len(),
        unit_at(b, sq) == Some(u),
        forall|j: int| 0 <= j < ds.len() ==> lands_ok(b, sq, u.color, #[trigger] ds[j]),
    ensures
        forall|j: int|
            0 <= j < destination_moves(b, sq, u, ds, n).len() ==> move_consistent(
                b,
                u.color,
                #[trigger] destination_moves(b, sq, u, ds, n)[j],
            ),
    decreases n,
{
    if n > 0 {
        lemma_destination_moves_consistent(b, sq, u, ds, n - 1);
        let prev = destination_moves(b, sq, u, ds, n - 1);
        let d = ds[n - 1];
        let last = moves_to(b, sq, u, d);
        assert(lands_ok(b, sq, u.color, d));
        assert forall|j: int| 0 <= j < last.len() implies move_consistent(b, u.color, #[trigger] last[j]) by {
        }
        assert forall|j: int|
            0 <= j < destination_moves(b, sq, u, ds, n).len() implies move_consistent(
            b,
            u.color,
            #[trigger] destination_moves(b, sq, u, ds, n)[j],
        ) by {
            if j < prev.len() {
                assert(destination_moves(b, sq, u, ds, n)[j] == prev[j]);
            } else {
                assert(destination_moves(b, sq, u, ds, n)[j] == last[j - prev.len()]);
            }
        }
    }
}

/// Whether the en-passant square of `g` describes what the board shows: an enemy pawn stands on
/// it and the square it passed over is empty.
pub open spec fn en_passant_sound(g: Game) -> bool {
    g.en_passant_square matches Some(ep) ==> {
        &&& unit_at(g.board@, ep) == Some(Unit { kind: UnitKind::Pawn, color: other_color(g.next_move) })
        &&& is_empty(g.board@, Square(ep.0, rank_at(ep.1.index() + pawn_direction(g.next_move))))
    }
}

/// Every pseudo-legal move agrees with the board it is listed for, so that checking it (playing
/// and taking it back) restores the board; for en-passant captures this needs the en-passant
/// square to describe the board.
pub proof fn lemma_pseudo_moves_consistent(g: Game, sq: Square)
    requires
        en_passant_sound(g),
    ensures
        forall|j: int|
            0 <= j < pseudo_moves(g, sq).len() ==> move_consistent(
                g.board@,
                g.next_move,
                #[trigger] pseudo_moves(g, sq)[j],
            ),
{
    let b = g.board@;
    if let Some(u) = unit_at(b, sq) {
        if u.color == g.next_move {
            let ds = destinations(b, sq, u);
            let cm = castle_moves(g, u);
            let em = en_passant_moves(g, sq, u);
            let dm = destination_moves(b, sq, u, ds, ds.len() as int);
            lemma_destinations_land(b, sq, u);
            lemma_destination_moves_consistent(b, sq, u, ds, ds.len() as int);
            assert forall|j: int| 0 <= j < cm.len() implies move_consistent(b, u.color, #[trigger] cm[j]) by {
            }
            assert forall|j: int| 0 <= j < em.len() implies move_consistent(b, u.color, #[trigger] em[j]) by {
                let ep = g.en_passant_square->0;
                let to = Square(ep.0, rank_at(sq.1.index() + pawn_direction(u.color)));
                assert(en_passant_capture_square(sq, to) == ep);
            }
            assert(pseudo_moves(g, sq) == cm + em + dm);
            assert forall|j: int|
                0 <= j < pseudo_moves(g, sq).len() implies move_consistent(
                b,
                g.next_move,
                #[trigger] pseudo_moves(g, sq)[j],
            ) by {
                if j < cm.len() {
                    assert(pseudo_moves(g, sq)[j] == cm[j]);
                } else if j < cm.len() + em.len() {
                    assert(pseudo_moves(g, sq)[j] == em[j - cm.len()]);
                } else {
                    assert(pseudo_moves(g, sq)[j] == dm[j - cm.len() - em.len()]);
                }
            }
        }
    }
}

/// When every move agrees with the board, checking them one after another leaves the board as it
/// was and keeps exactly the moves that are legal on it.
pub proof fn lemma_legal_fold_keeps_board(b: Seq<Option<Unit>>, king_square: Square, color: Color, ms: Seq<Move>)
    requires
        b.len() == 64,
        forall|j: int| 0 <= j < ms.len() ==> move_consistent(b, color, #[trigger] ms[j]),
    ensures
        legal_fold(b, king_square, color, ms).1 == b,
        legal_fold(b, king_square, color, ms).0 == ms.filter(|m: Move| move_is_legal(b, king_square, color, m)),
    decreases ms.len(),
{
    reveal_with_fuel(Seq::<_>::filter, 1);
    if ms.len() > 0 {
        let rest = ms.drop_last();
        assert forall|j: int| 0 <= j < rest.len() implies move_consistent(b, color, #[trigger] rest[j]) by {
            assert(rest[j] == ms[j]);
        }
        lemma_legal_fold_keeps_board(b, king_square, color, rest);
        assert(move_consistent(b, color, ms[ms.len() - 1]));
        lemma_revert_undoes_apply(b, color, ms.last());
    }
}

pub(crate) proof fn lemma_pseudo_moves_upto_consistent(g: Game, k: int)
    requires
        en_passant_sound(g),
        0 <= k,
    ensures
        forall|j: int|
            0 <= j < pseudo_moves_upto(g, k).len() ==> move_consistent(
                g.board@,
                g.next_move,
                #[trigger] pseudo_moves_upto(g, k)[j],
            ),
    decreases k,
{
    if k > 0 {
        lemma_pseudo_moves_upto_consistent(g, k - 1);
        let prev = pseudo_moves_upto(g, k - 1);
        let last = pseudo_moves(g, square_in_file_order(k - 1));
        lemma_pseudo_moves_consistent(g, square_in_file_order(k - 1));
        assert forall|j: int|
            0 <= j < pseudo_moves_upto(g, k).len() implies move_consistent(
            g.board@,
            g.next_move,
            #[trigger] pseudo_moves_upto(g, k)[j],
        ) by {
            if j < prev.len() {
                assert(pseudo_moves_upto(g, k)[j] == prev[j]);
            } else {
                assert(pseudo_moves_upto(g, k)[j] == last[j - prev.len()]);
            }
        }
    }
}

/// Listing the legal moves of a game whose en-passant square describes the board leaves the
/// board unchanged, and the moves listed are exactly the pseudo-legal moves, in order, that do
/// not leave the king's recorded square attacked.
pub proof fn lemma_legal_moves_keep_board(g: Game)
    requires
        en_passant_sound(g),
    ensures
        legal_fold(g.board@, king_square(g), g.next_move, all_pseudo_moves(g)).1 == g.board@,
        legal_fold(g.board@, king_square(g), g.next_move, all_pseudo_moves(g)).0 == all_pseudo_moves(g).filter(
            |m: Move| move_is_legal(g.board@, king_square(g), g.next_move, m),
        ),
{
    lemma_pseudo_moves_upto_consistent(g, 64);
    lemma_legal_fold_keeps_board(g.board@, king_square(g), g.next_move, all_pseudo_moves(g));
}

proof fn lemma_destination_moves_len(b: Seq<Option<Unit>>, sq: Square, u: Unit, ds: Seq<Square>, n: int)
    requires
        0 <= n,
    ensures
        destination_moves(b, sq, u, ds, n).len() <= 4 * n,
    decreases n,
{
    if n > 0 {
        lemma_destination_moves_len(b, sq, u, ds, n - 1);
    }
}

/// The number of pseudo-legal moves of the unit on `square`, or `None` when listing them would
/// exceed a limit (more than 27 destination squares, or an en-passant target off the board).
pub fn count_pseudo_moves(game: &Game, square: Square) -> (r: Option<usize>)
    ensures
        r is Some <==> source_ok(*game, square),
        r matches Some(n) ==> n == pseudo_moves(*game, square).len(),
{
    let unit = match game.board.get(square) {
        None => {
            return Some(0);
        },
        Some(u) => u,
    };
    let color = unit.color;
    let kind = unit.kind;
    if color != game.next_move {
        return Some(0);
    }
    let ghost b = game.board@;
    let ghost ds = destinations(b, square, unit);
    let ghost cm = castle_moves(*game, unit);
    let ghost em = en_passant_moves(*game, square, unit);
    let mut count: usize = 0;
    if kind == UnitKind::King {
        if can_castle_king_side(game, color) {
            count = count + 1;
        }
        if can_castle_queen_side(game, color) {
            count = count + 1;
        }
    }
    assert(count == cm.len());
    if kind == UnitKind::Pawn && en_passant_applies_to(game, square) {
        if !en_passant_rank_exists(square, color) {
            return None;
        }
        count = count + 1;
    }
    assert(count == cm.len() + em.len());
    let destinations = compute_destinations(&game.board, square, unit);
    if destinations.len() > 27 {
        return None;
    }
    let promotion_rank = get_promotion_rank(color);
    let mut i: usize = 0;
    while i < destinations.len()
        invariant
            i <= destinations@.len(),
            destinations@ == ds,
            ds.len() <= 27,
            promotion_rank == crate::moves::promotion_rank(color),
            color == unit.color,
            kind == unit.kind,
            count == cm.len() + em.len() + destination_moves(b, square, unit, ds, i as int).len(),
            cm.len() + em.len() <= 3,
        decreases destinations@.len() - i,
    {
        proof {
            lemma_destination_moves_len(b, square, unit, ds, i as int);
        }
        if kind == UnitKind::Pawn && destinations[i].1 == promotion_rank {
            count = count + 4;
        } else {
            count = count + 1;
        }
        i = i + 1;
    }
    Some(count)
}

/// Every square is counted once when squares are counted file by file.
pub proof fn lemma_square_in_file_order(sq: Square)
    ensures
        0 <= sq.0.index() * 8 + sq.1.index() < 64,
        square_in_file_order(sq.0.index() * 8 + sq.1.index()) == sq,
{
}

/// Whether the legal moves of `game` can be listed: no square exceeds its limits and the
/// pseudo-legal moves number at most 256.
pub fn legal_moves_fit(game: &Game) -> (r: bool)
    ensures
        r == (all_sources_ok(*game) && all_pseudo_moves(*game).len() <= 256),
{
    let mut total: usize = 0;
    let mut k: usize = 0;
    while k < 64
        invariant
            k <= 64,
            total <= 256,
            total == pseudo_moves_upto(*game, k as int).len(),
            forall|j: int| 0 <= j < k ==> source_ok(*game, #[trigger] square_in_file_order(j)),
        decreases 64 - k,
    {
        let square = Square(File::from_index(k / 8), Rank::from_index(k % 8));
        assert(square == square_in_file_order(k as int));
        match count_pseudo_moves(game, square) {
            None => {
                assert(!all_sources_ok(*game));
                return false;
            },
            Some(n) => {
                if n > 256 - total {
                    proof {
                        lemma_pseudo_moves_upto_mono(*game, k + 1, 64);
                    }
                    return false;
                }
                total = total + n;
            },
        }
        k = k + 1;
    }
    assert forall|sq: Square| #[trigger] source_ok(*game, sq) by {
        lemma_square_in_file_order(sq);
    }
    true
}

/// The letter written for a piece in move notation; nothing for a pawn.
pub open spec fn kind_letter(kind: UnitKind) -> Seq<char> {
    match kind {
        UnitKind::Bishop => "B"@,
        UnitKind::King => "K"@,
        UnitKind::Knight => "N"@,
        UnitKind::Pawn => ""@,
        UnitKind::Queen => "Q"@,
        UnitKind::Rook => "R"@,
    }
}

/// The lower-case letter of a file.
pub open spec fn file_letter(file: File) -> Seq<char> {
    match file {
        File::A => "a"@,
        File::B => "b"@,
        File::C => "c"@,
        File::D => "d"@,
        File::E => "e"@,
        File::F => "f"@,
        File::G => "g"@,
        File::H => "h"@,
    }
}

/// A square in move notation: its lower-case file letter and its rank digit.
pub open spec fn square_text(sq: Square) -> Seq<char> {
    file_letter(sq.0) + crate::rank_name(sq.1)
}

/// A move written from `from` to `to` by a unit of `kind`: the piece letter, the source square,
/// `x` for a capture, the target square, and `=` with the piece letter of a promotion.
pub open spec fn move_text(
    from: Square,
    to: Square,
    kind: UnitKind,
    promote_to: Option<UnitKind>,
    is_capture: bool,
) -> Seq<char> {
    kind_letter(kind) + square_text(from) + (if is_capture {
        "x"@
    } else {
        ""@
    }) + square_text(to) + match promote_to {
        None => ""@,
        Some(p) => "="@ + kind_letter(p),
    }
}

/// How a move is shown: `o-o` and `o-o-o` for castling, otherwise its text (see `move_text`),
/// with the piece read from the board for a normal move; a normal move from an empty square
/// cannot be shown.
pub open spec fn move_notation(b: Seq<Option<Unit>>, m: Move) -> Seq<char> {
    match m {
        Move::KingSideCastle => "o-o"@,
        Move::QueenSideCastle => "o-o-o"@,
        Move::Normal { from, to, captured_unit } => match unit_at(b, from) {
            Some(u) => move_text(from, to, u.kind, None, captured_unit is Some),
            None => "Cannot print move"@,
        },
        Move::Promotion { from, to, captured_unit, promote_to } => move_text(
            from,
            to,
            UnitKind::Pawn,
            Some(promote_to),
            captured_unit is Some,
        ),
        Move::EnPassant { from, to } => move_text(from, to, UnitKind::Pawn, None, true),
    }
}

fn format_unit_kind(kind: UnitKind) -> (r: &'static str)
    ensures
        r@ == kind_letter(kind),
{
    match kind {
        UnitKind::Bishop => "B",
        UnitKind::King => "K",
        UnitKind::Knight => "N",
        UnitKind::Pawn => "",
        UnitKind::Queen => "Q",
        UnitKind::Rook => "R",
    }
}

fn file_lower(file: File) -> (r: &'static str)
    ensures
        r@ == file_letter(file),
{
    match file {
        File::A => "a",
        File::B => "b",
        File::C => "c",
        File::D => "d",
        File::E => "e",
        File::F => "f",
        File::G => "g",
        File::H => "h",
    }
}

fn format_square(sq: Square) -> (r: String)
    ensures
        r@ == square_text(sq),
{
    let mut text = String::from_str(file_lower(sq.0));
    let rank = sq.1.to_string();
    text.append(rank.as_str());
    text
}

fn format_move_text(
    from: Square,
    to: Square,
    kind: UnitKind,
    promote_to: Option<UnitKind>,
    is_capture: bool,
) -> (r: String)
    ensures
        r@ == move_text(from, to, kind, promote_to, is_capture),
{
    let mut text = String::from_str(format_unit_kind(kind));
    let from_text = format_square(from);
    text.append(from_text.as_str());
    if is_capture {
        text.append("x");
    } else {
        text.append("");
    }
    let to_text = format_square(to);
    text.append(to_text.as_str());
    match promote_to {
        None => {
            text.append("");
        },
        Some(p) => {
            let mut promotion_text = String::from_str("=");
            promotion_text.append(format_unit_kind(p));
            text.append(promotion_text.as_str());
        },
    }
    text
}

/// How a move is shown (see `move_notation`).
pub fn format_move(board: &Board, m: Move) -> (r: String)
    ensures
        r@ == move_notation(board@, m),
{
    match m {
        Move::KingSideCastle => String::from_str("o-o"),
        Move::QueenSideCastle => String::from_str("o-o-o"),
        Move::Normal { from, to, captured_unit } => match board.get(from) {
            Some(u) => format_move_text(from, to, u.kind, None, captured_unit.is_some()),
            None => String::from_str("Cannot print move"),
        },
        Move::Promotion { from, to, captured_unit, promote_to } => format_move_text(
            from,
            to,
            UnitKind::Pawn,
            Some(promote_to),
            captured_unit.is_some(),
        ),
        Move::EnPassant { from, to } => format_move_text(from, to, UnitKind::Pawn, None, true),
    }
}

/// Every move kept by the legality checks is one of the candidates checked.
pub proof fn lemma_legal_fold_keeps_candidates(b: Seq<Option<Unit>>, king_square: Square, color: Color, ms: Seq<Move>)
    ensures
        forall|j: int|
            0 <= j < legal_fold(b, king_square, color, ms).0.len() ==> ms.contains(
                #[trigger] legal_fold(b, king_square, color, ms).0[j],
            ),
    decreases ms.len(),
{
    if ms.len() > 0 {
        let rest = ms.drop_last();
        lemma_legal_fold_keeps_candidates(b, king_square, color, rest);
        let prev = legal_fold(b, king_square, color, rest);
        let cur = legal_fold(b, king_square, color, ms);
        assert forall|j: int| 0 <= j < cur.0.len() implies ms.contains(#[trigger] cur.0[j]) by {
            if j < prev.0.len() {
                assert(cur.0[j] == prev.0[j]);
                let k = choose|k: int| 0 <= k < rest.len() && rest[k] == prev.0[j];
                assert(ms[k] == rest[k]);
            } else {
                assert(cur.0[j] == ms[ms.len() - 1]);
            }
        }
    }
}

/// A pseudo-legal move of any square is among all the pseudo-legal moves of the game.
pub proof fn lemma_pseudo_move_listed(g: Game, sq: Square, m: Move)
    requires
        pseudo_moves(g, sq).contains(m),
    ensures
        all_pseudo_moves(g).contains(m),
{
    lemma_square_in_file_order(sq);
    let k = sq.0.index() * 8 + sq.1.index();
    let i = choose|i: int| 0 <= i < pseudo_moves(g, sq).len() && pseudo_moves(g, sq)[i] == m;
    let prev = pseudo_moves_upto(g, k);
    assert(pseudo_moves_upto(g, k + 1) == prev + pseudo_moves(g, sq));
    assert(pseudo_moves_upto(g, k + 1)[prev.len() + i] == m);
    lemma_pseudo_moves_upto_contains(g, k + 1, 64, m);
}

proof fn lemma_pseudo_moves_upto_contains(g: Game, i: int, j: int, m: Move)
    requires
        0 <= i <= j,
        pseudo_moves_upto(g, i).contains(m),
    ensures
        pseudo_moves_upto(g, j).contains(m),
    decreases j - i,
{
    if i < j {
        lemma_pseudo_moves_upto_contains(g, i, j - 1, m);
        let prev = pseudo_moves_upto(g, j - 1);
        let k = choose|k: int| 0 <= k < prev.len() && prev[k] == m;
        assert(pseudo_moves_upto(g, j)[k] == m);
    }
}


/// The absolute value of an integer.
pub open spec fn abs(x: int) -> int {
    if x < 0 {
        -x
    } else {
        x
    }
}

/// Whether `t` lies a knight's jump from `s`: one file and two ranks away, or two files and one
/// rank away.
pub open spec fn knight_jump(s: Square, t: Square) -> bool {
    let df = abs(t.0.index() - s.0.index());
    let dr = abs(t.1.index() - s.1.index());
    (df == 1 && dr == 2) || (df == 2 && dr == 1)
}

/// Whether `t` is a neighbour of `s`: another square at most one file and one rank away.
pub open spec fn king_step(s: Square, t: Square) -> bool {
    t != s && abs(t.0.index() - s.0.index()) <= 1 && abs(t.1.index() - s.1.index()) <= 1
}

/// Whether `t` holds nothing or a unit of another side than `color`.
pub open spec fn free_or_enemy(b: Seq<Option<Unit>>, t: Square, color: Color) -> bool {
    unit_at(b, t) is None || unit_at(b, t)->0.color != color
}

proof fn lemma_offset_targets_contains(
    b: Seq<Option<Unit>>,
    sq: Square,
    offsets: Seq<MoveOffset>,
    color: Color,
    captures_only: bool,
    n: int,
    t: Square,
)
    requires
        0 <= n <= offsets.len(),
    ensures
        offset_targets(b, sq, offsets, color, captures_only, n).contains(t) <==> exists|i: int|
            0 <= i < n && #[trigger] offset_square(sq, offsets[i]) == Some(t) && (if captures_only {
                holds_enemy(b, t, color)
            } else {
                can_land(b, t, color)
            }),
    decreases n,
{
    if n > 0 {
        lemma_offset_targets_contains(b, sq, offsets, color, captures_only, n - 1, t);
        let prev = offset_targets(b, sq, offsets, color, captures_only, n - 1);
        let cur = offset_targets(b, sq, offsets, color, captures_only, n);
        let ok = if captures_only {
            holds_enemy(b, t, color)
        } else {
            can_land(b, t, color)
        };
        if cur.contains(t) {
            let j = choose|j: int| 0 <= j < cur.len() && cur[j] == t;
            if j < prev.len() {
                assert(cur[j] == prev[j]);
                assert(prev.contains(t));
            } else {
                assert(offset_square(sq, offsets[n - 1]) == Some(t));
            }
        }
        if exists|i: int| 0 <= i < n && #[trigger] offset_square(sq, offsets[i]) == Some(t) && ok {
            let i = choose|i: int| 0 <= i < n && #[trigger] offset_square(sq, offsets[i]) == Some(t) && ok;
            if i < n - 1 {
                let j = choose|j: int| 0 <= j < prev.len() && prev[j] == t;
                assert(cur[j] == t);
            } else {
                assert(cur[cur.len() - 1] == t);
            }
        }
    }
}

proof fn lemma_file_rank_at(sq: Square)
    ensures
        file_at(sq.0.index()) == sq.0,
        rank_at(sq.1.index()) == sq.1,
{
}

/// A knight moves to exactly the squares a knight's jump away that do not hold a unit of its own
/// side.
pub proof fn lemma_knight_destinations(b: Seq<Option<Unit>>, sq: Square, u: Unit, t: Square)
    requires
        u.kind == UnitKind::Knight,
    ensures
        destinations(b, sq, u).contains(t) <==> knight_jump(sq, t) && free_or_enemy(b, t, u.color),
{
    let steps = knight_steps();
    lemma_offset_targets_contains(b, sq, steps, u.color, false, 8, t);
    lemma_file_rank_at(t);
    let df = t.0.index() - sq.0.index();
    let dr = t.1.index() - sq.1.index();
    if knight_jump(sq, t) && free_or_enemy(b, t, u.color) {
        let i: int = if df == -1 && dr == 2 {
            0
        } else if df == 1 && dr == 2 {
            1
        } else if df == 2 && dr == -1 {
            2
        } else if df == 2 && dr == 1 {
            3
        } else if df == 1 && dr == -2 {
            4
        } else if df == -1 && dr == -2 {
            5
        } else if df == -2 && dr == -1 {
            6
        } else {
            7
        };
        assert(offset_square(sq, steps[i]) == Some(t));
    }
    if destinations(b, sq, u).contains(t) {
        let i = choose|i: int|
            0 <= i < 8 && #[trigger] offset_square(sq, steps[i]) == Some(t) && can_land(b, t, u.color);
        assert(0 <= i < 8);
        assert(knight_jump(sq, t));
    }
}

/// A king moves to exactly the neighbouring squares that do not hold a unit of its own side.
pub proof fn lemma_king_destinations(b: Seq<Option<Unit>>, sq: Square, u: Unit, t: Square)
    requires
        u.kind == UnitKind::King,
    ensures
        destinations(b, sq, u).contains(t) <==> king_step(sq, t) && free_or_enemy(b, t, u.color),
{
    let steps = king_steps();
    lemma_offset_targets_contains(b, sq, steps, u.color, false, 8, t);
    lemma_file_rank_at(t);
    crate::lemma_square_index(sq, t);
    let df = t.0.index() - sq.0.index();
    let dr = t.1.index() - sq.1.index();
    if king_step(sq, t) && free_or_enemy(b, t, u.color) {
        let i: int = if df == 0 && dr == 1 {
            0
        } else if df == 1 && dr == 1 {
            1
        } else if df == 1 && dr == 0 {
            2
        } else if df == 1 && dr == -1 {
            3
        } else if df == 0 && dr == -1 {
            4
        } else if df == -1 && dr == -1 {
            5
        } else if df == -1 && dr == 0 {
            6
        } else {
            7
        };
        assert(offset_square(sq, steps[i]) == Some(t));
    }
    if destinations(b, sq, u).contains(t) {
        let i = choose|i: int|
            0 <= i < 8 && #[trigger] offset_square(sq, steps[i]) == Some(t) && can_land(b, t, u.color);
        assert(0 <= i < 8);
        assert(king_step(sq, t));
    }
}

/// Every move listed as legal leaves the square recorded for the king of the side to play (the
/// White king's for White, the Black king's for Black) unattacked, whenever the en-passant square
/// describes the board.
pub proof fn lemma_legal_moves_keep_own_king_safe(g: Game, m: Move)
    requires
        en_passant_sound(g),
        legal_fold(g.board@, king_square(g), g.next_move, all_pseudo_moves(g)).0.contains(m),
    ensures
        !king_attacked(
            apply_board(g.board@, g.next_move, m),
            if g.next_move == Color::White {
                g.white_king_position
            } else {
                g.black_king_position
            },
            g.next_move,
        ),
{
    lemma_legal_moves_keep_board(g);
    broadcast use vstd::seq_lib::group_filter_ensures;
    let all = all_pseudo_moves(g);
    let i = choose|i: int|
        0 <= i < legal_fold(g.board@, king_square(g), g.next_move, all).0.len()
            && legal_fold(g.board@, king_square(g), g.next_move, all).0[i] == m;
    assert(move_is_legal(g.board@, king_square(g), g.next_move, m));
}

/// Whether `o` is a unit of another side than `color`, of kind `k1` or `k2`.
pub open spec fn enemy_of_kind(o: Option<Unit>, color: Color, k1: UnitKind, k2: UnitKind) -> bool {
    match o {
        Some(u) => u.color != color && (u.kind == k1 || u.kind == k2),
        None => false,
    }
}

/// The directions checked for bishops and queens.
pub open spec fn is_diagonal(d: Direction) -> bool {
    d == Direction::UpRight || d == Direction::DownRight || d == Direction::DownLeft || d == Direction::Upleft
}

/// The directions checked for rooks and queens.
pub open spec fn is_straight(d: Direction) -> bool {
    d == Direction::Up || d == Direction::Right || d == Direction::Down || d == Direction::Left
}

/// A king is attacked by an enemy knight a knight's jump away; by an enemy pawn on a neighbouring
/// file one rank ahead of it (toward the opponent); by an enemy bishop or queen that is the first
/// unit met along a diagonal direction; and by an enemy rook or queen that is the first unit met
/// along a straight direction.
pub proof fn lemma_king_attackers(b: Seq<Option<Unit>>, k: Square, color: Color, t: Square, d: Direction)
    ensures
        knight_jump(k, t) && enemy_of_kind(unit_at(b, t), color, UnitKind::Knight, UnitKind::Knight)
            ==> king_attacked(b, k, color),
        abs(t.0.index() - k.0.index()) == 1 && t.1.index() == k.1.index() + (if color == Color::White {
            1int
        } else {
            -1int
        }) && enemy_of_kind(unit_at(b, t), color, UnitKind::Pawn, UnitKind::Pawn)
            ==> king_attacked(b, k, color),
        is_diagonal(d) && enemy_of_kind(first_unit(b, ray(k, d)), color, UnitKind::Bishop, UnitKind::Queen)
            ==> king_attacked(b, k, color),
        is_straight(d) && enemy_of_kind(first_unit(b, ray(k, d)), color, UnitKind::Rook, UnitKind::Queen)
            ==> king_attacked(b, k, color),
{
    let enemy = other_color(color);
    lemma_file_rank_at(t);
    let df = t.0.index() - k.0.index();
    let dr = t.1.index() - k.1.index();
    if knight_jump(k, t) && enemy_of_kind(unit_at(b, t), color, UnitKind::Knight, UnitKind::Knight) {
        let steps = knight_steps();
        let i: int = if df == -1 && dr == 2 {
            0
        } else if df == 1 && dr == 2 {
            1
        } else if df == 2 && dr == -1 {
            2
        } else if df == 2 && dr == 1 {
            3
        } else if df == 1 && dr == -2 {
            4
        } else if df == -1 && dr == -2 {
            5
        } else if df == -2 && dr == -1 {
            6
        } else {
            7
        };
        assert(offset_square(k, steps[i]) == Some(t));
        assert(piece_at_offsets(b, k, steps, UnitKind::Knight, enemy));
    }
    if abs(df) == 1 && dr == (if color == Color::White {
        1int
    } else {
        -1int
    }) && enemy_of_kind(unit_at(b, t), color, UnitKind::Pawn, UnitKind::Pawn) {
        let steps = king_attacking_pawn_steps(color);
        let i: int = if df == -1 {
            0
        } else {
            1
        };
        assert(offset_square(k, steps[i]) == Some(t));
        assert(piece_at_offsets(b, k, steps, UnitKind::Pawn, enemy));
    }
    if is_diagonal(d) && enemy_of_kind(first_unit(b, ray(k, d)), color, UnitKind::Bishop, UnitKind::Queen) {
        let dirs = bishop_directions();
        let i: int = if d == Direction::UpRight {
            0
        } else if d == Direction::DownRight {
            1
        } else if d == Direction::DownLeft {
            2
        } else {
            3
        };
        assert(dirs[i] == d);
        assert(next_on_rays(b, k, dirs, enemy, UnitKind::Bishop, UnitKind::Queen));
    }
    if is_straight(d) && enemy_of_kind(first_unit(b, ray(k, d)), color, UnitKind::Rook, UnitKind::Queen) {
        let dirs = rook_directions();
        let i: int = if d == Direction::Up {
            0
        } else if d == Direction::Right {
            1
        } else if d == Direction::Down {
            2
        } else {
            3
        };
        assert(dirs[i] == d);
        assert(next_on_rays(b, k, dirs, enemy, UnitKind::Rook, UnitKind::Queen));
    }
}


/// A pseudo-legal move is listed as legal exactly when it leaves the square recorded for the king
/// of the side to play unattacked, whenever the en-passant square describes the board.
pub proof fn lemma_legal_moves_complete(g: Game, mv: Move)
    requires
        en_passant_sound(g),
    ensures
        legal_fold(g.board@, king_square(g), g.next_move, all_pseudo_moves(g)).0.contains(mv) <==> (
        all_pseudo_moves(g).contains(mv) && !king_attacked(
            apply_board(g.board@, g.next_move, mv),
            if g.next_move == Color::White {
                g.white_king_position
            } else {
                g.black_king_position
            },
            g.next_move,
        )),
{
    lemma_legal_moves_keep_board(g);
    broadcast use vstd::seq_lib::group_filter_ensures;
    let all = all_pseudo_moves(g);
    let listed = legal_fold(g.board@, king_square(g), g.next_move, all).0;
    let pred = |m: Move| move_is_legal(g.board@, king_square(g), g.next_move, m);
    assert(listed == all.filter(pred));
    if listed.contains(mv) {
        let i = choose|i: int| 0 <= i < listed.len() && listed[i] == mv;
        assert(pred(listed[i]));
        lemma_legal_fold_keeps_candidates(g.board@, king_square(g), g.next_move, all);
        assert(all.contains(listed[i]));
    }
    if all.contains(mv) && pred(mv) {
        let i = choose|i: int| 0 <= i < all.len() && all[i] == mv;
        assert(pred(all[i]));
        all.lemma_filter_contains(pred, i);
    }
}

/// A pawn reaching its last rank (the eighth for White, the first for Black) is listed with one
/// promotion to each of queen, knight, rook and bishop and to nothing else; every other move to a
/// square is one normal move. Each records the kind of unit the target held.
pub proof fn lemma_promotion_choices(b: Seq<Option<Unit>>, sq: Square, u: Unit, d: Square, k: UnitKind)
    ensures
        ({
            let last = if u.color == Color::White {
                Rank::Eight
            } else {
                Rank::One
            };
            let captured = match unit_at(b, d) {
                Some(x) => Some(x.kind),
                None => None,
            };
            &&& u.kind == UnitKind::Pawn && d.1 == last ==> {
                &&& moves_to(b, sq, u, d).len() == 4
                &&& moves_to(b, sq, u, d).contains(
                    Move::Promotion { from: sq, to: d, promote_to: k, captured_unit: captured },
                ) <==> (k == UnitKind::Queen || k == UnitKind::Knight || k == UnitKind::Rook || k
                    == UnitKind::Bishop)
                &&& forall|i: int|
                    0 <= i < 4 ==> (#[trigger] moves_to(b, sq, u, d)[i] matches Move::Promotion {
                        from,
                        to,
                        captured_unit,
                        ..
                    } && from == sq && to == d && captured_unit == captured)
            }
            &&& !(u.kind == UnitKind::Pawn && d.1 == last) ==> moves_to(b, sq, u, d) == seq![
                Move::Normal { from: sq, to: d, captured_unit: captured },
            ]
        }),
{
    let ms = moves_to(b, sq, u, d);
    if u.kind == UnitKind::Pawn && d.1 == promotion_rank(u.color) {
        let captured = kind_at(b, d);
        let p = Move::Promotion { from: sq, to: d, promote_to: k, captured_unit: captured };
        if ms.contains(p) {
            let i = choose|i: int| 0 <= i < ms.len() && ms[i] == p;
            assert(0 <= i < 4);
        }
        if k == UnitKind::Queen {
            assert(ms[0] == p);
        } else if k == UnitKind::Knight {
            assert(ms[1] == p);
        } else if k == UnitKind::Rook {
            assert(ms[2] == p);
        } else if k == UnitKind::Bishop {
            assert(ms[3] == p);
        }
    }
}

proof fn lemma_destination_moves_from(b: Seq<Option<Unit>>, sq: Square, u: Unit, ds: Seq<Square>, n: int)
    requires
        0 <= n <= ds.len(),
    ensures
        forall|j: int|
            0 <= j < destination_moves(b, sq, u, ds, n).len() ==> match #[trigger] destination_moves(
                b,
                sq,
                u,
                ds,
                n,
            )[j] {
                Move::Normal { from, to, .. } => from == sq && ds.contains(to),
                Move::Promotion { from, to, .. } => from == sq && ds.contains(to),
                _ => false,
            },
    decreases n,
{
    if n > 0 {
        lemma_destination_moves_from(b, sq, u, ds, n - 1);
        let prev = destination_moves(b, sq, u, ds, n - 1);
        let cur = destination_moves(b, sq, u, ds, n);
        let last = moves_to(b, sq, u, ds[n - 1]);
        assert forall|j: int| 0 <= j < cur.len() implies match #[trigger] cur[j] {
            Move::Normal { from, to, .. } => from == sq && ds.contains(to),
            Move::Promotion { from, to, .. } => from == sq && ds.contains(to),
            _ => false,
        } by {
            if j < prev.len() {
                assert(cur[j] == prev[j]);
            } else {
                assert(cur[j] == last[j - prev.len()]);
                assert(ds[n - 1] == ds[n - 1]);
            }
        }
    }
}

/// Whether the side `color` keeps the right to castle king side in `g`.
pub open spec fn king_side_right(g: Game, color: Color) -> bool {
    if color == Color::White {
        g.white_can_king_side_castle
    } else {
        g.black_can_king_side_castle
    }
}

/// Whether the side `color` keeps the right to castle queen side in `g`.
pub open spec fn queen_side_right(g: Game, color: Color) -> bool {
    if color == Color::White {
        g.white_can_queen_side_castle
    } else {
        g.black_can_queen_side_castle
    }
}

/// The back rank of a side written out: the first for White, the eighth for Black.
pub open spec fn home_rank(color: Color) -> Rank {
    if color == Color::White {
        Rank::One
    } else {
        Rank::Eight
    }
}

/// Castling king side is listed from a square exactly when a king of the side to play stands
/// there, that side keeps the right, and the F and G squares of its back rank are empty; queen
/// side likewise with the B, C and D squares. Every other move listed from a square starts on it
/// and goes to one of the unit's destinations.
pub proof fn lemma_castling_conditions(g: Game, sq: Square, m: Move)
    ensures
        ({
            let b = g.board@;
            let c = g.next_move;
            let r = home_rank(c);
            let king_here = unit_at(b, sq) == Some(Unit { kind: UnitKind::King, color: c });
            &&& pseudo_moves(g, sq).contains(Move::KingSideCastle) <==> (king_here && king_side_right(g, c)
                && unit_at(b, Square(File::F, r)) is None && unit_at(b, Square(File::G, r)) is None)
            &&& pseudo_moves(g, sq).contains(Move::QueenSideCastle) <==> (king_here && queen_side_right(g, c)
                && unit_at(b, Square(File::B, r)) is None && unit_at(b, Square(File::C, r)) is None
                && unit_at(b, Square(File::D, r)) is None)
            &&& pseudo_moves(g, sq).contains(m) ==> match m {
                Move::Normal { from, to, .. } => from == sq && (unit_at(b, sq) matches Some(u)
                    && destinations(b, sq, u).contains(to)),
                Move::Promotion { from, to, .. } => from == sq && (unit_at(b, sq) matches Some(u)
                    && destinations(b, sq, u).contains(to)),
                Move::EnPassant { from, .. } => from == sq,
                _ => king_here,
            }
        }),
{
    let b = g.board@;
    if let Some(u) = unit_at(b, sq) {
        if u.color == g.next_move {
            let ds = destinations(b, sq, u);
            let cm = castle_moves(g, u);
            let em = en_passant_moves(g, sq, u);
            let dm = destination_moves(b, sq, u, ds, ds.len() as int);
            lemma_destination_moves_from(b, sq, u, ds, ds.len() as int);
            let all = pseudo_moves(g, sq);
            assert(all == cm + em + dm);
            assert forall|x: Move| #[trigger] all.contains(x) implies (cm.contains(x) || em.contains(x)
                || dm.contains(x)) by {
                let j = choose|j: int| 0 <= j < all.len() && all[j] == x;
                if j < cm.len() {
                    assert(cm[j] == x);
                } else if j < cm.len() + em.len() {
                    assert(em[j - cm.len()] == x);
                } else {
                    assert(dm[j - cm.len() - em.len()] == x);
                }
            }
            assert forall|x: Move| cm.contains(x) || em.contains(x) || dm.contains(x) implies #[trigger] all.contains(x) by {
                if cm.contains(x) {
                    let j = choose|j: int| 0 <= j < cm.len() && cm[j] == x;
                    assert(all[j] == x);
                } else if em.contains(x) {
                    let j = choose|j: int| 0 <= j < em.len() && em[j] == x;
                    assert(all[cm.len() + j] == x);
                } else {
                    let j = choose|j: int| 0 <= j < dm.len() && dm[j] == x;
                    assert(all[cm.len() + em.len() + j] == x);
                }
            }
            if dm.contains(Move::KingSideCastle) {
                let j = choose|j: int| 0 <= j < dm.len() && dm[j] == Move::KingSideCastle;
                assert(dm[j] == Move::KingSideCastle);
            }
            if dm.contains(Move::QueenSideCastle) {
                let j = choose|j: int| 0 <= j < dm.len() && dm[j] == Move::QueenSideCastle;
                assert(dm[j] == Move::QueenSideCastle);
            }
            if u.kind == UnitKind::King && king_side_castle_open(g, u.color) {
                assert(cm[0] == Move::KingSideCastle);
            }
            if u.kind == UnitKind::King && queen_side_castle_open(g, u.color) {
                assert(cm[cm.len() - 1] == Move::QueenSideCastle);
            }
            if dm.contains(m) {
                let j = choose|j: int| 0 <= j < dm.len() && dm[j] == m;
                assert(dm[j] == m);
            }
        }
    }
}


proof fn lemma_concat_contains<A>(a: Seq<A>, b: Seq<A>, x: A)
    ensures
        (a + b).contains(x) <==> a.contains(x) || b.contains(x),
{
    if (a + b).contains(x) {
        let j = choose|j: int| 0 <= j < (a + b).len() && (a + b)[j] == x;
        if j < a.len() {
            assert(a[j] == x);
        } else {
            assert(b[j - a.len()] == x);
        }
    }
    if a.contains(x) {
        let j = choose|j: int| 0 <= j < a.len() && a[j] == x;
        assert((a + b)[j] == x);
    }
    if b.contains(x) {
        let j = choose|j: int| 0 <= j < b.len() && b[j] == x;
        assert((a + b)[a.len() + j] == x);
    }
}

/// A pawn moves to exactly: a square on a neighbouring file one rank ahead (up for White, down
/// for Black) that holds a unit of the other side; the square straight ahead when it is empty;
/// and, from its starting rank (the second for White, the seventh for Black), the square two ranks
/// straight ahead when it and the square passed over are empty.
pub proof fn lemma_pawn_destinations(b: Seq<Option<Unit>>, sq: Square, u: Unit, t: Square)
    requires
        u.kind == UnitKind::Pawn,
    ensures
        destinations(b, sq, u).contains(t) <==> ({
            let dir: int = if u.color == Color::White {
                1
            } else {
                -1
            };
            let start = if u.color == Color::White {
                Rank::Two
            } else {
                Rank::Seven
            };
            let df = t.0.index() - sq.0.index();
            let dr = t.1.index() - sq.1.index();
            ||| abs(df) == 1 && dr == dir && unit_at(b, t) is Some && unit_at(b, t)->0.color != u.color
            ||| df == 0 && dr == dir && unit_at(b, t) is None
            ||| df == 0 && dr == 2 * dir && sq.1 == start && unit_at(b, t) is None && unit_at(
                b,
                Square(sq.0, rank_at(sq.1.index() + dir)),
            ) is None
        }),
{
    let steps = pawn_capture_steps(u.color);
    let caps = offset_targets(b, sq, steps, u.color, true, 2);
    let adv = pawn_advances(b, sq, u.color);
    lemma_concat_contains(caps, adv, t);
    lemma_offset_targets_contains(b, sq, steps, u.color, true, 2, t);
    lemma_file_rank_at(t);
    lemma_file_rank_at(sq);
    let df = t.0.index() - sq.0.index();
    let dr = t.1.index() - sq.1.index();
    let dir: int = if u.color == Color::White {
        1
    } else {
        -1
    };
    if abs(df) == 1 && dr == dir && unit_at(b, t) is Some && unit_at(b, t)->0.color != u.color {
        let i: int = if df == -1 {
            0
        } else {
            1
        };
        assert(offset_square(sq, steps[i]) == Some(t));
    }
    if caps.contains(t) {
        let i = choose|i: int| 0 <= i < 2 && #[trigger] offset_square(sq, steps[i]) == Some(t) && holds_enemy(b, t, u.color);
        assert(i == 0 || i == 1);
    }
    let step = forward_step(u.color);
    let start = if u.color == Color::White {
        Rank::Two
    } else {
        Rank::Seven
    };
    let mid = Square(sq.0, rank_at(sq.1.index() + dir));
    if df == 0 && dr == dir && unit_at(b, t) is None {
        assert(offset_square(sq, step) == Some(t));
        assert(adv[0] == t);
    }
    if df == 0 && dr == 2 * dir && sq.1 == start && unit_at(b, t) is None && unit_at(b, mid) is None {
        assert(offset_square(sq, step) == Some(mid));
        lemma_file_rank_at(mid);
        assert(offset_square(mid, step) == Some(t));
        assert(adv[1] == t);
    }
    if adv.contains(t) {
        let j = choose|j: int| 0 <= j < adv.len() && adv[j] == t;
        let one = offset_square(sq, step)->0;
        assert(offset_square(sq, step) is Some);
        lemma_file_rank_at(one);
        assert(one == mid);
        if j == 0 {
            assert(t == one);
        } else {
            assert(j == 1);
            assert(offset_square(one, step) is Some);
            assert(t == offset_square(one, step)->0);
            assert(is_starting_pawn(sq, u.color));
        }
    }
}


/// The file number `k` steps from file number `f` along `d`.
pub open spec fn along_file(f: int, d: Direction, k: int) -> int {
    match d {
        Direction::Up | Direction::Down => f,
        Direction::DownLeft | Direction::Left => f - k,
        _ => f + k,
    }
}

/// The rank number `k` steps from rank number `r` along `d`.
pub open spec fn along_rank(r: int, d: Direction, k: int) -> int {
    match d {
        Direction::Up | Direction::UpRight => r + k,
        Direction::Right | Direction::Left => r,
        _ => r - k,
    }
}

/// The smaller of two integers.
pub open spec fn min_int(a: int, b: int) -> int {
    if a <= b {
        a
    } else {
        b
    }
}

/// The larger of two integers.
pub open spec fn max_int(a: int, b: int) -> int {
    if a >= b {
        a
    } else {
        b
    }
}

/// How many steps along `d` stay on the board from `s`.
pub open spec fn room(s: Square, d: Direction) -> int {
    let f = s.0.index();
    let r = s.1.index();
    match d {
        Direction::Up => 7 - r,
        Direction::UpRight => min_int(7 - f, 7 - r),
        Direction::Right => 7 - f,
        Direction::DownRight => min_int(7 - f, r),
        Direction::Down => r,
        Direction::DownLeft => min_int(f, r),
        Direction::Left => f,
        Direction::Upleft => min_int(7 - f, r),
    }
}

proof fn lemma_ray_steps_geometry(s: Square, d: Direction, n: nat)
    ensures
        ray_steps(s, direction_step(d), n).len() == min_int(n as int, room(s, d)),
        forall|j: int|
            0 <= j < ray_steps(s, direction_step(d), n).len() ==> (#[trigger] ray_steps(s, direction_step(d), n)[j]).0.index()
                == along_file(s.0.index(), d, j + 1) && ray_steps(s, direction_step(d), n)[j].1.index()
                == along_rank(s.1.index(), d, j + 1),
    decreases n,
{
    if n > 0 {
        match offset_square(s, direction_step(d)) {
            Some(next) => {
                lemma_ray_steps_geometry(next, d, (n - 1) as nat);
                let whole = ray_steps(s, direction_step(d), n);
                let rest = ray_steps(next, direction_step(d), (n - 1) as nat);
                assert(whole == seq![next] + rest);
                assert forall|j: int| 0 <= j < whole.len() implies (#[trigger] whole[j]).0.index() == along_file(
                    s.0.index(),
                    d,
                    j + 1,
                ) && whole[j].1.index() == along_rank(s.1.index(), d, j + 1) by {
                    if j > 0 {
                        assert(whole[j] == rest[j - 1]);
                    }
                }
            },
            None => {},
        }
    }
}

/// Whether, among the squares `r`, the first `j` hold nothing.
pub open spec fn clear_prefix(b: Seq<Option<Unit>>, r: Seq<Square>, j: int) -> bool {
    forall|i: int| 0 <= i < j ==> unit_at(b, #[trigger] r[i]) is None
}

proof fn lemma_slide_contains(b: Seq<Option<Unit>>, r: Seq<Square>, c: Color, t: Square)
    ensures
        slide(b, r, c).contains(t) <==> exists|j: int|
            0 <= j < r.len() && #[trigger] r[j] == t && free_or_enemy(b, t, c) && clear_prefix(b, r, j),
    decreases r.len(),
{
    if r.len() > 0 {
        let rest = r.drop_first();
        lemma_slide_contains(b, rest, c, t);
        let sl = slide(b, r, c);
        if sl.contains(t) {
            let k = choose|k: int| 0 <= k < sl.len() && sl[k] == t;
            match unit_at(b, r[0]) {
                None => {
                    if k == 0 {
                        assert(r[0] == t);
                        assert(clear_prefix(b, r, 0));
                    } else {
                        assert(slide(b, rest, c)[k - 1] == t);
                        let j = choose|j: int|
                            0 <= j < rest.len() && #[trigger] rest[j] == t && free_or_enemy(b, t, c) && clear_prefix(b, rest, j);
                        assert(r[j + 1] == t);
                        assert forall|i: int| 0 <= i < j + 1 implies unit_at(b, #[trigger] r[i]) is None by {
                            if i > 0 {
                                assert(r[i] == rest[i - 1]);
                            }
                        }
                    }
                },
                Some(u) => {
                    assert(r[0] == t);
                    assert(clear_prefix(b, r, 0));
                },
            }
        }
        if exists|j: int| 0 <= j < r.len() && #[trigger] r[j] == t && free_or_enemy(b, t, c) && clear_prefix(b, r, j) {
            let j = choose|j: int| 0 <= j < r.len() && #[trigger] r[j] == t && free_or_enemy(b, t, c) && clear_prefix(b, r, j);
            if j == 0 {
                assert(sl[0] == t);
            } else {
                assert(unit_at(b, r[0]) is None);
                assert(rest[j - 1] == t);
                assert forall|i: int| 0 <= i < j - 1 implies unit_at(b, #[trigger] rest[i]) is None by {
                    assert(rest[i] == r[i + 1]);
                }
                assert(clear_prefix(b, rest, j - 1));
                let sr = slide(b, rest, c);
                let k = choose|k: int| 0 <= k < sr.len() && sr[k] == t;
                assert(sl[k + 1] == t);
            }
        }
    }
}

/// The square `k` steps from `s` toward `t`, file and rank each moving one step toward those of
/// `t` (or staying when they agree).
pub open spec fn toward(a: int, b: int, k: int) -> int {
    if b > a {
        a + k
    } else if b < a {
        a - k
    } else {
        a
    }
}

/// Whether every square strictly between `s` and `t`, stepping from `s` toward `t`, is empty.
pub open spec fn clear_between(b: Seq<Option<Unit>>, s: Square, t: Square) -> bool {
    let n = max_int(abs(t.0.index() - s.0.index()), abs(t.1.index() - s.1.index()));
    forall|k: int|
        0 < k < n ==> #[trigger] unit_at(
            b,
            Square(file_at(toward(s.0.index(), t.0.index(), k)), rank_at(toward(s.1.index(), t.1.index(), k))),
        ) is None
}

/// Whether `t` lies along `d` from `s` (the `Upleft` direction running one file right and one
/// rank down).
pub open spec fn reaches(s: Square, t: Square, d: Direction) -> bool {
    let df = t.0.index() - s.0.index();
    let dr = t.1.index() - s.1.index();
    match d {
        Direction::Up => df == 0 && dr > 0,
        Direction::UpRight => df == dr && df > 0,
        Direction::Right => dr == 0 && df > 0,
        Direction::DownRight => df == -dr && df > 0,
        Direction::Down => df == 0 && dr < 0,
        Direction::DownLeft => df == dr && df < 0,
        Direction::Left => dr == 0 && df < 0,
        Direction::Upleft => df == -dr && df > 0,
    }
}

proof fn lemma_square_eq(a: Square, b: Square)
    requires
        a.0.index() == b.0.index(),
        a.1.index() == b.1.index(),
    ensures
        a == b,
{
}

proof fn lemma_slide_along_sound(b: Seq<Option<Unit>>, s: Square, d: Direction, c: Color, t: Square, j: int)
    requires
        0 <= j < ray(s, d).len(),
        ray(s, d)[j] == t,
        clear_prefix(b, ray(s, d), j),
    ensures
        reaches(s, t, d),
        clear_between(b, s, t),
{
    let r = ray(s, d);
    lemma_ray_steps_geometry(s, d, 7);
    let n = max_int(abs(t.0.index() - s.0.index()), abs(t.1.index() - s.1.index()));
    assert(r[j].0.index() == along_file(s.0.index(), d, j + 1));
    assert(r[j].1.index() == along_rank(s.1.index(), d, j + 1));
    assert(n == j + 1);
    assert forall|k: int| 0 < k < n implies #[trigger] unit_at(
        b,
        Square(file_at(toward(s.0.index(), t.0.index(), k)), rank_at(toward(s.1.index(), t.1.index(), k))),
    ) is None by {
        let q = r[k - 1];
        assert(q.0.index() == along_file(s.0.index(), d, k));
        assert(q.1.index() == along_rank(s.1.index(), d, k));
        lemma_file_rank_at(q);
        assert(unit_at(b, r[k - 1]) is None);
    }
}

proof fn lemma_slide_along_complete(b: Seq<Option<Unit>>, s: Square, d: Direction, t: Square)
    requires
        reaches(s, t, d),
        clear_between(b, s, t),
    ensures
        ({
            let j = max_int(abs(t.0.index() - s.0.index()), abs(t.1.index() - s.1.index())) - 1;
            0 <= j < ray(s, d).len() && ray(s, d)[j] == t && clear_prefix(b, ray(s, d), j)
        }),
{
    let r = ray(s, d);
    lemma_ray_steps_geometry(s, d, 7);
    let j = max_int(abs(t.0.index() - s.0.index()), abs(t.1.index() - s.1.index())) - 1;
    assert(0 <= j < r.len());
    let q = r[j];
    assert(q.0.index() == along_file(s.0.index(), d, j + 1));
    assert(q.1.index() == along_rank(s.1.index(), d, j + 1));
    lemma_square_eq(q, t);
    assert forall|i: int| 0 <= i < j implies unit_at(b, #[trigger] r[i]) is None by {
        let p = r[i];
        assert(p.0.index() == along_file(s.0.index(), d, i + 1));
        assert(p.1.index() == along_rank(s.1.index(), d, i + 1));
        lemma_file_rank_at(p);
        assert(unit_at(
            b,
            Square(file_at(toward(s.0.index(), t.0.index(), i + 1)), rank_at(toward(s.1.index(), t.1.index(), i + 1))),
        ) is None);
    }
}

proof fn lemma_slide_along(b: Seq<Option<Unit>>, s: Square, d: Direction, c: Color, t: Square)
    ensures
        slide(b, ray(s, d), c).contains(t) <==> reaches(s, t, d) && free_or_enemy(b, t, c) && clear_between(b, s, t),
{
    let r = ray(s, d);
    lemma_slide_contains(b, r, c, t);
    if slide(b, r, c).contains(t) {
        let j = choose|j: int| 0 <= j < r.len() && #[trigger] r[j] == t && free_or_enemy(b, t, c) && clear_prefix(b, r, j);
        lemma_slide_along_sound(b, s, d, c, t, j);
    }
    if reaches(s, t, d) && free_or_enemy(b, t, c) && clear_between(b, s, t) {
        lemma_slide_along_complete(b, s, d, t);
        let j = max_int(abs(t.0.index() - s.0.index()), abs(t.1.index() - s.1.index())) - 1;
        assert(r[j] == t);
    }
}


proof fn lemma_direction_targets_contains(
    b: Seq<Option<Unit>>,
    sq: Square,
    dirs: Seq<Direction>,
    c: Color,
    n: int,
    t: Square,
)
    requires
        0 <= n <= dirs.len(),
    ensures
        direction_targets(b, sq, dirs, c, n).contains(t) <==> exists|i: int|
            0 <= i < n && reaches(sq, t, #[trigger] dirs[i]) && free_or_enemy(b, t, c) && clear_between(b, sq, t),
    decreases n,
{
    if n > 0 {
        lemma_direction_targets_contains(b, sq, dirs, c, n - 1, t);
        lemma_concat_contains(
            direction_targets(b, sq, dirs, c, n - 1),
            slide(b, ray(sq, dirs[n - 1]), c),
            t,
        );
        lemma_slide_along(b, sq, dirs[n - 1], c, t);
        if exists|i: int|
            0 <= i < n && reaches(sq, t, #[trigger] dirs[i]) && free_or_enemy(b, t, c) && clear_between(b, sq, t) {
            let i = choose|i: int|
                0 <= i < n && reaches(sq, t, #[trigger] dirs[i]) && free_or_enemy(b, t, c) && clear_between(b, sq, t);
            if i < n - 1 {
            } else {
            }
        }
    }
}

/// Whether `t` is another square on a diagonal through `s`.
pub open spec fn on_diagonal(s: Square, t: Square) -> bool {
    let df = t.0.index() - s.0.index();
    let dr = t.1.index() - s.1.index();
    abs(df) == abs(dr) && df != 0
}

/// Whether `t` is another square on the file or the rank of `s`.
pub open spec fn on_line(s: Square, t: Square) -> bool {
    let df = t.0.index() - s.0.index();
    let dr = t.1.index() - s.1.index();
    (df == 0) != (dr == 0)
}

/// Whether `t` lies toward a lower file and a higher rank than `s` (up and to the left).
pub open spec fn up_left_of(s: Square, t: Square) -> bool {
    t.0.index() < s.0.index() && t.1.index() > s.1.index()
}

/// A bishop moves to exactly the squares on its diagonals, with every square in between empty,
/// that do not hold a unit of its own side; but it never moves up and to the left, since the
/// direction named `Upleft` runs down and to the right.
pub proof fn lemma_bishop_destinations(b: Seq<Option<Unit>>, sq: Square, u: Unit, t: Square)
    requires
        u.kind == UnitKind::Bishop,
    ensures
        destinations(b, sq, u).contains(t) <==> on_diagonal(sq, t) && !up_left_of(sq, t) && free_or_enemy(
            b,
            t,
            u.color,
        ) && clear_between(b, sq, t),
{
    let dirs = bishop_directions();
    lemma_direction_targets_contains(b, sq, dirs, u.color, 4, t);
    let df = t.0.index() - sq.0.index();
    let dr = t.1.index() - sq.1.index();
    if on_diagonal(sq, t) && !up_left_of(sq, t) && free_or_enemy(b, t, u.color) && clear_between(b, sq, t) {
        let i: int = if df > 0 && dr > 0 {
            0
        } else if df > 0 {
            1
        } else {
            2
        };
        assert(reaches(sq, t, dirs[i]));
    }
    if destinations(b, sq, u).contains(t) {
        let i = choose|i: int|
            0 <= i < 4 && reaches(sq, t, #[trigger] dirs[i]) && free_or_enemy(b, t, u.color) && clear_between(b, sq, t);
        assert(0 <= i < 4);
    }
}

/// A rook moves to exactly the squares on its file and rank, with every square in between empty,
/// that do not hold a unit of its own side.
pub proof fn lemma_rook_destinations(b: Seq<Option<Unit>>, sq: Square, u: Unit, t: Square)
    requires
        u.kind == UnitKind::Rook,
    ensures
        destinations(b, sq, u).contains(t) <==> on_line(sq, t) && free_or_enemy(b, t, u.color) && clear_between(
            b,
            sq,
            t,
        ),
{
    let dirs = rook_directions();
    lemma_direction_targets_contains(b, sq, dirs, u.color, 4, t);
    let df = t.0.index() - sq.0.index();
    let dr = t.1.index() - sq.1.index();
    if on_line(sq, t) && free_or_enemy(b, t, u.color) && clear_between(b, sq, t) {
        let i: int = if dr > 0 {
            0
        } else if df > 0 {
            1
        } else if dr < 0 {
            2
        } else {
            3
        };
        assert(reaches(sq, t, dirs[i]));
    }
    if destinations(b, sq, u).contains(t) {
        let i = choose|i: int|
            0 <= i < 4 && reaches(sq, t, #[trigger] dirs[i]) && free_or_enemy(b, t, u.color) && clear_between(b, sq, t);
        assert(0 <= i < 4);
    }
}

/// A queen moves as a rook or as a bishop does.
pub proof fn lemma_queen_destinations(b: Seq<Option<Unit>>, sq: Square, u: Unit, t: Square)
    requires
        u.kind == UnitKind::Queen,
    ensures
        destinations(b, sq, u).contains(t) <==> (on_line(sq, t) || (on_diagonal(sq, t) && !up_left_of(sq, t)))
            && free_or_enemy(b, t, u.color) && clear_between(b, sq, t),
{
    let dirs = queen_directions();
    lemma_direction_targets_contains(b, sq, dirs, u.color, 8, t);
    let df = t.0.index() - sq.0.index();
    let dr = t.1.index() - sq.1.index();
    if (on_line(sq, t) || (on_diagonal(sq, t) && !up_left_of(sq, t))) && free_or_enemy(b, t, u.color)
        && clear_between(b, sq, t) {
        let i: int = if df == 0 && dr > 0 {
            0
        } else if dr == 0 && df > 0 {
            1
        } else if df == 0 {
            2
        } else if dr == 0 {
            3
        } else if df > 0 && dr > 0 {
            4
        } else if df > 0 {
            5
        } else {
            6
        };
        assert(reaches(sq, t, dirs[i]));
    }
    if destinations(b, sq, u).contains(t) {
        let i = choose|i: int|
            0 <= i < 8 && reaches(sq, t, #[trigger] dirs[i]) && free_or_enemy(b, t, u.color) && clear_between(b, sq, t);
        assert(0 <= i < 8);
    }
}


proof fn lemma_first_unit_at(b: Seq<Option<Unit>>, r: Seq<Square>, j: int)
    requires
        0 <= j < r.len(),
        clear_prefix(b, r, j),
        unit_at(b, r[j]) is Some,
    ensures
        first_unit(b, r) == unit_at(b, r[j]),
    decreases r.len(),
{
    if j > 0 {
        let rest = r.drop_first();
        assert(unit_at(b, r[0]) is None);
        assert forall|i: int| 0 <= i < j - 1 implies unit_at(b, #[trigger] rest[i]) is None by {
            assert(rest[i] == r[i + 1]);
        }
        assert(rest[j - 1] == r[j]);
        lemma_first_unit_at(b, rest, j - 1);
    }
}

proof fn lemma_first_unit_found(b: Seq<Option<Unit>>, r: Seq<Square>)
    requires
        first_unit(b, r) is Some,
    ensures
        exists|j: int| 0 <= j < r.len() && clear_prefix(b, r, j) && #[trigger] unit_at(b, r[j]) == first_unit(b, r),
    decreases r.len(),
{
    if unit_at(b, r[0]) is Some {
        assert(clear_prefix(b, r, 0));
        assert(unit_at(b, r[0]) == first_unit(b, r));
    } else {
        let rest = r.drop_first();
        lemma_first_unit_found(b, rest);
        let j = choose|j: int| 0 <= j < rest.len() && clear_prefix(b, rest, j) && #[trigger] unit_at(b, rest[j]) == first_unit(b, rest);
        assert(r[j + 1] == rest[j]);
        assert forall|i: int| 0 <= i < j + 1 implies unit_at(b, #[trigger] r[i]) is None by {
            if i > 0 {
                assert(r[i] == rest[i - 1]);
            }
        }
        assert(unit_at(b, r[j + 1]) == first_unit(b, r));
    }
}

/// Whether the unit on `t` attacks the king of `color` on `k`: an enemy knight a knight's jump
/// away; an enemy pawn on a neighbouring file one rank ahead of the king (up for White, down for
/// Black); an enemy bishop or queen on a diagonal with nothing in between, except up and to the
/// left (the direction named `Upleft` runs down and to the right); or an enemy rook or queen on
/// the king's file or rank with nothing in between.
pub open spec fn attacks_king(b: Seq<Option<Unit>>, k: Square, color: Color, t: Square) -> bool {
    let df = t.0.index() - k.0.index();
    let dr = t.1.index() - k.1.index();
    let ahead: int = if color == Color::White {
        1
    } else {
        -1
    };
    match unit_at(b, t) {
        None => false,
        Some(x) => x.color != color && ((x.kind == UnitKind::Knight && knight_jump(k, t)) || (x.kind
            == UnitKind::Pawn && abs(df) == 1 && dr == ahead) || ((x.kind == UnitKind::Bishop || x.kind
            == UnitKind::Queen) && on_diagonal(k, t) && !up_left_of(k, t) && clear_between(b, k, t)) || ((x.kind
            == UnitKind::Rook || x.kind == UnitKind::Queen) && on_line(k, t) && clear_between(b, k, t))),
    }
}

proof fn lemma_ray_attacker(b: Seq<Option<Unit>>, k: Square, d: Direction, t: Square)
    requires
        reaches(k, t, d),
        clear_between(b, k, t),
        unit_at(b, t) is Some,
    ensures
        first_unit(b, ray(k, d)) == unit_at(b, t),
{
    lemma_slide_along_complete(b, k, d, t);
    let j = max_int(abs(t.0.index() - k.0.index()), abs(t.1.index() - k.1.index())) - 1;
    lemma_first_unit_at(b, ray(k, d), j);
}

proof fn lemma_ray_attacker_found(b: Seq<Option<Unit>>, k: Square, d: Direction)
    requires
        first_unit(b, ray(k, d)) is Some,
    ensures
        exists|t: Square| reaches(k, t, d) && clear_between(b, k, t) && #[trigger] unit_at(b, t) == first_unit(b, ray(k, d)),
{
    let r = ray(k, d);
    lemma_first_unit_found(b, r);
    let j = choose|j: int| 0 <= j < r.len() && clear_prefix(b, r, j) && #[trigger] unit_at(b, r[j]) == first_unit(b, r);
    lemma_slide_along_sound(b, k, d, Color::White, r[j], j);
    assert(unit_at(b, r[j]) == first_unit(b, r));
}

proof fn lemma_attacker_attacks(b: Seq<Option<Unit>>, k: Square, color: Color, t: Square)
    requires
        attacks_king(b, k, color, t),
    ensures
        king_attacked(b, k, color),
{
    let x = unit_at(b, t)->0;
    let df = t.0.index() - k.0.index();
    let dr = t.1.index() - k.1.index();
    if x.kind == UnitKind::Knight && knight_jump(k, t) {
        lemma_king_attackers(b, k, color, t, Direction::Up);
    } else if x.kind == UnitKind::Pawn && abs(df) == 1 && dr == (if color == Color::White {
        1int
    } else {
        -1int
    }) {
        lemma_king_attackers(b, k, color, t, Direction::Up);
    } else if (x.kind == UnitKind::Bishop || x.kind == UnitKind::Queen) && on_diagonal(k, t) && !up_left_of(k, t)
        && clear_between(b, k, t) {
        let d = if df > 0 && dr > 0 {
            Direction::UpRight
        } else if df > 0 {
            Direction::DownRight
        } else {
            Direction::DownLeft
        };
        assert(reaches(k, t, d));
        lemma_ray_attacker(b, k, d, t);
        lemma_king_attackers(b, k, color, t, d);
    } else {
        let d = if df == 0 && dr > 0 {
            Direction::Up
        } else if dr == 0 && df > 0 {
            Direction::Right
        } else if df == 0 {
            Direction::Down
        } else {
            Direction::Left
        };
        assert(reaches(k, t, d));
        lemma_ray_attacker(b, k, d, t);
        lemma_king_attackers(b, k, color, t, d);
    }
}

proof fn lemma_offset_attacker(b: Seq<Option<Unit>>, k: Square, color: Color, steps: Seq<MoveOffset>, kind: UnitKind)
    requires
        piece_at_offsets(b, k, steps, kind, other_color(color)),
        kind == UnitKind::Knight ==> steps == knight_steps(),
        kind == UnitKind::Pawn ==> steps == king_attacking_pawn_steps(color),
        kind == UnitKind::Knight || kind == UnitKind::Pawn,
    ensures
        exists|t: Square| #[trigger] attacks_king(b, k, color, t),
{
    let i = choose|i: int|
        0 <= i < steps.len() && (#[trigger] offset_square(k, steps[i]) matches Some(t) && unit_at(b, t)
            == Some(Unit { kind, color: other_color(color) }));
    let t = offset_square(k, steps[i])->0;
    lemma_file_rank_at(t);
    assert(attacks_king(b, k, color, t));
}

proof fn lemma_slider_attacker(
    b: Seq<Option<Unit>>,
    k: Square,
    color: Color,
    dirs: Seq<Direction>,
    kind: UnitKind,
)
    requires
        next_on_rays(b, k, dirs, other_color(color), kind, UnitKind::Queen),
        kind == UnitKind::Bishop ==> dirs == bishop_directions(),
        kind == UnitKind::Rook ==> dirs == rook_directions(),
        kind == UnitKind::Bishop || kind == UnitKind::Rook,
    ensures
        exists|t: Square| #[trigger] attacks_king(b, k, color, t),
{
    let enemy = other_color(color);
    let i = choose|i: int|
        0 <= i < dirs.len() && (#[trigger] first_unit(b, ray(k, dirs[i])) matches Some(u) && u.color == enemy && (
        u.kind == kind || u.kind == UnitKind::Queen));
    lemma_ray_attacker_found(b, k, dirs[i]);
    let t = choose|t: Square| reaches(k, t, dirs[i]) && clear_between(b, k, t) && #[trigger] unit_at(b, t)
        == first_unit(b, ray(k, dirs[i]));
    assert(attacks_king(b, k, color, t));
}

/// The king of `color` on `k` is attacked exactly when some square holds a unit that attacks it
/// (see `attacks_king`).
pub proof fn lemma_king_attacked_iff(b: Seq<Option<Unit>>, k: Square, color: Color)
    ensures
        king_attacked(b, k, color) <==> exists|t: Square| #[trigger] attacks_king(b, k, color, t),
{
    let enemy = other_color(color);
    if exists|t: Square| #[trigger] attacks_king(b, k, color, t) {
        let t = choose|t: Square| #[trigger] attacks_king(b, k, color, t);
        lemma_attacker_attacks(b, k, color, t);
    }
    if king_attacked(b, k, color) {
        if piece_at_offsets(b, k, knight_steps(), UnitKind::Knight, enemy) {
            lemma_offset_attacker(b, k, color, knight_steps(), UnitKind::Knight);
        } else if piece_at_offsets(b, k, king_attacking_pawn_steps(color), UnitKind::Pawn, enemy) {
            lemma_offset_attacker(b, k, color, king_attacking_pawn_steps(color), UnitKind::Pawn);
        } else if next_on_rays(b, k, bishop_directions(), enemy, UnitKind::Bishop, UnitKind::Queen) {
            lemma_slider_attacker(b, k, color, bishop_directions(), UnitKind::Bishop);
        } else {
            lemma_slider_attacker(b, k, color, rook_directions(), UnitKind::Rook);
        }
    }
}


/// Playing a move changes only the squares it involves. A normal move empties its source and puts
/// on its target what stood on the source; a promotion empties its source and puts a new unit of
/// the mover, of the chosen kind, on its target; an en-passant capture moves the pawn and empties
/// the square on the target's file beside the source; castling king side moves the king from E to
/// G on the mover's back rank (the first for White, the eighth for Black) and the rook from H to
/// F, queen side the king from E to C and the rook from A to D. Every other square keeps what it
/// held.
pub proof fn lemma_apply_board_squares(b: Seq<Option<Unit>>, color: Color, m: Move, sq: Square)
    requires
        b.len() == 64,
    ensures
        unit_at(apply_board(b, color, m), sq) == match m {
            Move::Normal { from, to, .. } => if sq == from {
                None
            } else if sq == to {
                unit_at(b, from)
            } else {
                unit_at(b, sq)
            },
            Move::Promotion { from, to, promote_to, .. } => if sq == to {
                Some(Unit { kind: promote_to, color })
            } else if sq == from {
                None
            } else {
                unit_at(b, sq)
            },
            Move::EnPassant { from, to } => if sq == from || sq == Square(to.0, from.1) {
                None
            } else if sq == to {
                unit_at(b, from)
            } else {
                unit_at(b, sq)
            },
            Move::KingSideCastle => {
                let r = home_rank(color);
                if sq == Square(File::E, r) || sq == Square(File::H, r) {
                    None
                } else if sq == Square(File::G, r) {
                    unit_at(b, Square(File::E, r))
                } else if sq == Square(File::F, r) {
                    unit_at(b, Square(File::H, r))
                } else {
                    unit_at(b, sq)
                }
            },
            Move::QueenSideCastle => {
                let r = home_rank(color);
                if sq == Square(File::E, r) || sq == Square(File::A, r) {
                    None
                } else if sq == Square(File::C, r) {
                    unit_at(b, Square(File::E, r))
                } else if sq == Square(File::D, r) {
                    unit_at(b, Square(File::A, r))
                } else {
                    unit_at(b, sq)
                }
            },
        },
{
    let r = home_rank(color);
    crate::lemma_square_index(sq, sq);
    match m {
        Move::Normal { from, to, .. } => {
            crate::lemma_square_index(sq, from);
            crate::lemma_square_index(sq, to);
            crate::lemma_square_index(from, from);
            crate::lemma_square_index(to, to);
        },
        Move::Promotion { from, to, .. } => {
            crate::lemma_square_index(sq, from);
            crate::lemma_square_index(sq, to);
            crate::lemma_square_index(from, from);
            crate::lemma_square_index(to, to);
        },
        Move::EnPassant { from, to } => {
            let cap = Square(to.0, from.1);
            crate::lemma_square_index(sq, from);
            crate::lemma_square_index(sq, to);
            crate::lemma_square_index(sq, cap);
            crate::lemma_square_index(from, from);
            crate::lemma_square_index(to, to);
            crate::lemma_square_index(cap, cap);
        },
        Move::KingSideCastle => {
            crate::lemma_square_index(sq, Square(File::E, r));
            crate::lemma_square_index(sq, Square(File::F, r));
            crate::lemma_square_index(sq, Square(File::G, r));
            crate::lemma_square_index(sq, Square(File::H, r));
        },
        Move::QueenSideCastle => {
            crate::lemma_square_index(sq, Square(File::A, r));
            crate::lemma_square_index(sq, Square(File::C, r));
            crate::lemma_square_index(sq, Square(File::D, r));
            crate::lemma_square_index(sq, Square(File::E, r));
        },
    }
}

/// An en-passant capture is listed from a square exactly when a pawn of the side to play stands
/// there, the en-passant square is on the same rank and a neighbouring file, and a rank ahead of
/// the pawn exists; it goes to the en-passant square's file one rank ahead (up for White, down
/// for Black).
pub proof fn lemma_en_passant_listing(g: Game, sq: Square, to: Square)
    requires
        source_ok(g, sq),
    ensures
        pseudo_moves(g, sq).contains(Move::EnPassant { from: sq, to }) <==> ({
            let ahead: int = if g.next_move == Color::White {
                1
            } else {
                -1
            };
            &&& unit_at(g.board@, sq) == Some(Unit { kind: UnitKind::Pawn, color: g.next_move })
            &&& g.en_passant_square matches Some(ep)
            &&& ep.1 == sq.1
            &&& abs(ep.0.index() - sq.0.index()) == 1
            &&& to.0 == ep.0
            &&& to.1.index() == sq.1.index() + ahead
        }),
{
    let b = g.board@;
    if let Some(u) = unit_at(b, sq) {
        if u.color == g.next_move {
            let ds = destinations(b, sq, u);
            let cm = castle_moves(g, u);
            let em = en_passant_moves(g, sq, u);
            let dm = destination_moves(b, sq, u, ds, ds.len() as int);
            lemma_destination_moves_from(b, sq, u, ds, ds.len() as int);
            assert(pseudo_moves(g, sq) == cm + em + dm);
            lemma_concat_contains(cm, em, Move::EnPassant { from: sq, to });
            lemma_concat_contains(cm + em, dm, Move::EnPassant { from: sq, to });
            if dm.contains(Move::EnPassant { from: sq, to }) {
                let j = choose|j: int| 0 <= j < dm.len() && dm[j] == Move::EnPassant { from: sq, to };
                assert(dm[j] == Move::EnPassant { from: sq, to });
            }
            if cm.contains(Move::EnPassant { from: sq, to }) {
                let j = choose|j: int| 0 <= j < cm.len() && cm[j] == Move::EnPassant { from: sq, to };
                assert(cm[j] == Move::EnPassant { from: sq, to });
            }
            if em.contains(Move::EnPassant { from: sq, to }) {
                let j = choose|j: int| 0 <= j < em.len() && em[j] == Move::EnPassant { from: sq, to };
                assert(j == 0);
            }
            lemma_file_rank_at(to);
            if u.kind == UnitKind::Pawn && en_passant_applies(g, sq) {
                let ep = g.en_passant_square->0;
                let t2 = Square(ep.0, rank_at(sq.1.index() + pawn_direction(u.color)));
                if to.0 == ep.0 && to.1.index() == sq.1.index() + pawn_direction(u.color) {
                    lemma_square_eq(to, t2);
                }
                assert(em[0] == Move::EnPassant { from: sq, to: t2 });
            }
        }
    }
}


proof fn lemma_destination_moves_include(
    b: Seq<Option<Unit>>,
    sq: Square,
    u: Unit,
    ds: Seq<Square>,
    n: int,
    k: int,
    m: Move,
)
    requires
        0 <= k < n <= ds.len(),
        moves_to(b, sq, u, ds[k]).contains(m),
    ensures
        destination_moves(b, sq, u, ds, n).contains(m),
    decreases n,
{
    let prev = destination_moves(b, sq, u, ds, n - 1);
    let last = moves_to(b, sq, u, ds[n - 1]);
    lemma_concat_contains(prev, last, m);
    if k < n - 1 {
        lemma_destination_moves_include(b, sq, u, ds, n - 1, k, m);
    }
}

/// Only a unit of the side to play has moves listed; for such a unit, every move to each of its
/// destinations (see `lemma_promotion_choices`) is listed.
pub proof fn lemma_square_moves_listed(g: Game, sq: Square, d: Square, m: Move)
    ensures
        !(unit_at(g.board@, sq) matches Some(u) && u.color == g.next_move) ==> pseudo_moves(g, sq).len() == 0,
        (unit_at(g.board@, sq) matches Some(u) && u.color == g.next_move && destinations(g.board@, sq, u).contains(d)
            && moves_to(g.board@, sq, u, d).contains(m)) ==> pseudo_moves(g, sq).contains(m),
{
    let b = g.board@;
    if let Some(u) = unit_at(b, sq) {
        if u.color == g.next_move && destinations(b, sq, u).contains(d) && moves_to(b, sq, u, d).contains(m) {
            let ds = destinations(b, sq, u);
            let k = choose|k: int| 0 <= k < ds.len() && ds[k] == d;
            lemma_destination_moves_include(b, sq, u, ds, ds.len() as int, k, m);
            let cm = castle_moves(g, u);
            let em = en_passant_moves(g, sq, u);
            let dm = destination_moves(b, sq, u, ds, ds.len() as int);
            lemma_concat_contains(cm + em, dm, m);
        }
    }
}


/// What a move does to the recorded state besides the board (see `apply_move_to_game`): a normal
/// move of a king records the king on its target, castling records the king on the C file of the
/// mover's back rank (king side too), and no other move records a king; after a normal move the
/// en-passant square is its target when a pawn went two ranks along its file and none otherwise,
/// while other moves keep it.
pub proof fn lemma_game_update(g: Game, m: Move)
    ensures
        new_king_square(g, m) == match m {
            Move::KingSideCastle => Some(Square(File::C, home_rank(g.next_move))),
            Move::QueenSideCastle => Some(Square(File::C, home_rank(g.next_move))),
            Move::Normal { from, to, .. } => if unit_at(g.board@, from) is Some && unit_at(g.board@, from)->0.kind
                == UnitKind::King {
                Some(to)
            } else {
                None
            },
            _ => None,
        },
        en_passant_after(g, m) == match m {
            Move::Normal { from, to, .. } => if from.0 == to.0 && abs(to.1.index() - from.1.index()) == 2
                && unit_at(g.board@, from) is Some && unit_at(g.board@, from)->0.kind == UnitKind::Pawn {
                Some(to)
            } else {
                None
            },
            _ => g.en_passant_square,
        },
        normal_move_source(m) == match m {
            Move::Normal { from, .. } => Some(from),
            _ => None,
        },
{
}

} // verus!
