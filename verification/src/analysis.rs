//! Choosing a move for the side to play.
use crate::moves::{
    all_pseudo_moves, all_sources_ok, apply_board, apply_move_to_board, get_legal_moves, king_square,
    legal_fold, legal_moves_fit, revert_board, same_but_board, Move, lemma_board_len, move_consistent,
    lemma_revert_undoes_apply, en_passant_sound, lemma_legal_moves_keep_board, lemma_legal_fold_keeps_candidates,
    lemma_pseudo_moves_upto_consistent,
};
use crate::{put, unit_at, Board, Color, Game, Square, Unit, UnitKind};
use rand::Rng;
use vstd::prelude::*;

verus! {

/// How the computer picks its move.
#[derive(Clone, Copy, Debug, PartialEq, Eq, Structural)]
pub enum Algorithm {
    Random,
    NextBestMove,
}

/// The worth of a piece.
pub open spec fn unit_value(kind: UnitKind) -> int {
    match kind {
        UnitKind::Bishop => 3,
        UnitKind::King => 100,
        UnitKind::Queen => 9,
        UnitKind::Knight => 3,
        UnitKind::Pawn => 1,
        UnitKind::Rook => 5,
    }
}

/// The worth of what stands on a square: positive for White, negative for Black.
pub open spec fn square_value(s: Option<Unit>) -> int {
    match s {
        None => 0,
        Some(u) => if u.color == Color::White {
            unit_value(u.kind)
        } else {
            -unit_value(u.kind)
        },
    }
}

/// The worth of the first `n` squares of the board.
pub open spec fn board_score_upto(b: Seq<Option<Unit>>, n: int) -> int
    decreases n,
{
    if n <= 0 {
        0
    } else {
        board_score_upto(b, n - 1) + square_value(b[n - 1])
    }
}

/// The strength of a board: the worth of White's pieces minus the worth of Black's; above zero
/// White has the advantage.
pub open spec fn board_score(b: Seq<Option<Unit>>) -> int {
    board_score_upto(b, 64)
}

proof fn lemma_board_score_bound(b: Seq<Option<Unit>>, n: int)
    requires
        0 <= n,
    ensures
        -100 * n <= board_score_upto(b, n) <= 100 * n,
    decreases n,
{
    if n > 0 {
        lemma_board_score_bound(b, n - 1);
    }
}

fn unit_score(unit: Unit) -> (r: i32)
    ensures
        r == square_value(Some(unit)),
{
    let value: i32 = match unit.kind {
        UnitKind::Bishop => 3,
        UnitKind::King => 100,
        UnitKind::Queen => 9,
        UnitKind::Knight => 3,
        UnitKind::Pawn => 1,
        UnitKind::Rook => 5,
    };
    if unit.color == Color::White {
        value
    } else {
        -value
    }
}

/// The strength of a board (see `board_score`).
pub fn evaluate_board(board: &Board) -> (r: i32)
    ensures
        r == board_score(board@),
{
    let mut score: i32 = 0;
    let mut i: usize = 0;
    while i < 64
        invariant
            i <= 64,
            score == board_score_upto(board@, i as int),
        decreases 64 - i,
    {
        proof {
            lemma_board_score_bound(board@, i as int);
        }
        if let Some(unit) = board.squares[i] {
            score = score + unit_score(unit);
        }
        i = i + 1;
    }
    score
}

/// The strength of the board after `m`; the move is played and taken back.
fn evaluate_move(game: &mut Game, m: Move) -> (r: i32)
    ensures
        r == board_score(apply_board(old(game).board@, old(game).next_move, m)),
        final(game).board@ == revert_board(
            apply_board(old(game).board@, old(game).next_move, m),
            old(game).next_move,
            m,
        ),
        same_but_board(*final(game), *old(game)),
{
    let color = game.next_move;
    apply_move_to_board(&mut game.board, color, m);
    let score = evaluate_board(&game.board);
    crate::moves::revert_move_to_board(&mut game.board, color, m);
    score
}

/// The legal moves `get_legal_moves` lists for `g`.
pub open spec fn legal_moves_of(g: Game) -> Seq<Move> {
    legal_fold(g.board@, king_square(g), g.next_move, all_pseudo_moves(g)).0
}

/// The board `get_legal_moves` leaves behind for `g`.
pub open spec fn board_after_listing(g: Game) -> Seq<Option<Unit>> {
    legal_fold(g.board@, king_square(g), g.next_move, all_pseudo_moves(g)).1
}

/// Scores the moves `ms` in order, each on the board the previous scoring left behind (the move
/// played and taken back): the scores, and the final board.
pub open spec fn score_fold(b: Seq<Option<Unit>>, color: Color, ms: Seq<Move>) -> (Seq<int>, Seq<Option<Unit>>)
    decreases ms.len(),
{
    if ms.len() == 0 {
        (seq![], b)
    } else {
        let prev = score_fold(b, color, ms.drop_last());
        let m = ms.last();
        let after = apply_board(prev.1, color, m);
        (prev.0.push(board_score(after)), revert_board(after, color, m))
    }
}

/// The largest of a non-empty list of scores.
pub open spec fn max_score(s: Seq<int>) -> int
    decreases s.len(),
{
    if s.len() <= 1 {
        s[0]
    } else {
        let m = max_score(s.drop_last());
        if s.last() > m {
            s.last()
        } else {
            m
        }
    }
}

/// The smallest of a non-empty list of scores.
pub open spec fn min_score(s: Seq<int>) -> int
    decreases s.len(),
{
    if s.len() <= 1 {
        s[0]
    } else {
        let m = min_score(s.drop_last());
        if s.last() < m {
            s.last()
        } else {
            m
        }
    }
}

/// The score the side `color` aims for: the largest for White, the smallest for Black.
pub open spec fn target_score(s: Seq<int>, color: Color) -> int {
    if color == Color::White {
        max_score(s)
    } else {
        min_score(s)
    }
}

/// The first `n` of `ms` whose score in `scores` is `target`, in order.
pub open spec fn moves_with_score(ms: Seq<Move>, scores: Seq<int>, target: int, n: int) -> Seq<Move>
    decreases n,
{
    if n <= 0 {
        seq![]
    } else {
        let prev = moves_with_score(ms, scores, target, n - 1);
        if scores[n - 1] == target {
            prev.push(ms[n - 1])
        } else {
            prev
        }
    }
}

/// The scores of the legal moves of `g`, scored after they are listed.
pub open spec fn legal_move_scores(g: Game) -> Seq<int> {
    score_fold(board_after_listing(g), g.next_move, legal_moves_of(g)).0
}

/// The board left behind once the legal moves of `g` are listed and scored.
pub open spec fn board_after_scoring(g: Game) -> Seq<Option<Unit>> {
    score_fold(board_after_listing(g), g.next_move, legal_moves_of(g)).1
}

/// The legal moves of `g` with the best score for the side to play.
pub open spec fn best_moves(g: Game) -> Seq<Move> {
    let ms = legal_moves_of(g);
    let scores = legal_move_scores(g);
    moves_with_score(ms, scores, target_score(scores, g.next_move), ms.len() as int)
}

/// Whether the computer can choose a move in `g`: its legal moves can be listed and there is one.
pub open spec fn choose_move_allowed(g: Game) -> bool {
    &&& all_sources_ok(g)
    &&& all_pseudo_moves(g).len() <= 256
    &&& legal_moves_of(g).len() > 0
}

proof fn lemma_score_fold(b: Seq<Option<Unit>>, color: Color, ms: Seq<Move>)
    requires
        b.len() == 64,
    ensures
        score_fold(b, color, ms).0.len() == ms.len(),
        score_fold(b, color, ms).1.len() == 64,
        forall|i: int|
            0 <= i < ms.len() ==> -6400 <= #[trigger] score_fold(b, color, ms).0[i] <= 6400,
    decreases ms.len(),
{
    if ms.len() > 0 {
        let prev = score_fold(b, color, ms.drop_last());
        lemma_score_fold(b, color, ms.drop_last());
        lemma_board_len(prev.1, color, ms.last());
        lemma_board_len(apply_board(prev.1, color, ms.last()), color, ms.last());
        lemma_board_score_bound(apply_board(prev.1, color, ms.last()), 64);
        assert forall|i: int| 0 <= i < ms.len() implies -6400 <= #[trigger] score_fold(b, color, ms).0[i] <= 6400 by {
            if i < ms.len() - 1 {
                assert(score_fold(b, color, ms).0[i] == prev.0[i]);
            }
        }
    }
}

/// The largest score is one of the scores and no score exceeds it; likewise the smallest.
pub proof fn lemma_target_score(s: Seq<int>, color: Color)
    requires
        s.len() > 0,
    ensures
        exists|i: int| 0 <= i < s.len() && s[i] == target_score(s, color),
        color == Color::White ==> forall|i: int| 0 <= i < s.len() ==> s[i] <= target_score(s, color),
        color == Color::Black ==> forall|i: int| 0 <= i < s.len() ==> s[i] >= target_score(s, color),
    decreases s.len(),
{
    if s.len() > 1 {
        lemma_target_score(s.drop_last(), color);
        let t = target_score(s.drop_last(), color);
        let i = choose|i: int| 0 <= i < s.drop_last().len() && s.drop_last()[i] == t;
        if target_score(s, color) == t {
            assert(s[i] == t);
        } else {
            assert(s[s.len() - 1] == target_score(s, color));
        }
        assert forall|j: int| 0 <= j < s.len() - 1 implies s[j] == s.drop_last()[j] by {
        }
    } else {
        assert(s[0] == target_score(s, color));
    }
}

proof fn lemma_moves_with_score(ms: Seq<Move>, scores: Seq<int>, target: int, n: int)
    requires
        0 <= n <= ms.len(),
        ms.len() == scores.len(),
    ensures
        forall|j: int|
            0 <= j < moves_with_score(ms, scores, target, n).len() ==> exists|i: int|
                0 <= i < n && ms[i] == #[trigger] moves_with_score(ms, scores, target, n)[j] && scores[i]
                    == target,
        (exists|i: int| 0 <= i < n && scores[i] == target) ==> moves_with_score(ms, scores, target, n).len() > 0,
    decreases n,
{
    if n > 0 {
        lemma_moves_with_score(ms, scores, target, n - 1);
        let prev = moves_with_score(ms, scores, target, n - 1);
        let cur = moves_with_score(ms, scores, target, n);
        assert forall|j: int| 0 <= j < cur.len() implies exists|i: int|
            0 <= i < n && ms[i] == #[trigger] cur[j] && scores[i] == target by {
            if j < prev.len() {
                assert(cur[j] == prev[j]);
                let i = choose|i: int| 0 <= i < n - 1 && ms[i] == prev[j] && scores[i] == target;
            } else {
                assert(cur[j] == ms[n - 1]);
            }
        }
        if exists|i: int| 0 <= i < n && scores[i] == target {
            let i = choose|i: int| 0 <= i < n && scores[i] == target;
            if i < n - 1 {
            } else {
                assert(cur.len() == prev.len() + 1);
            }
        }
    }
}

/// `rand::rngs::ThreadRng`, the generator of the current thread.
#[verifier::external_type_specification]
#[verifier::external_body]
pub struct ExThreadRng(rand::rngs::ThreadRng);

/// Calls `rand::thread_rng`, which hands out the random number generator of the current
/// thread. Nothing is claimed of it.
#[verifier::external_body]
fn thread_rng() -> rand::rngs::ThreadRng {
    rand::thread_rng()
}

/// Calls `Rng::gen_range` with the range `0..len`, which returns a random number in that range
/// and panics when the range is empty. The claim is only that the result is below `len`.
#[verifier::external_body]
fn gen_index(rng: &mut rand::rngs::ThreadRng, len: usize) -> (r: usize)
    requires
        len > 0,
    ensures
        r < len,
{
    rng.gen_range(0..len)
}

/// A randomly chosen item, or none when there is none to choose.
pub fn choose_random<T>(items: &Vec<T>) -> (r: Option<&T>)
    ensures
        r is None <==> items@.len() == 0,
        r matches Some(x) ==> exists|i: int| 0 <= i < items@.len() && items@[i] == *x,
{
    if items.len() == 0 {
        return None;
    }
    let mut rng = thread_rng();
    let random_index = gen_index(&mut rng, items.len());
    Some(&items[random_index])
}

fn choose_random_move(game: &mut Game) -> (r: Move)
    requires
        choose_move_allowed(*old(game)),
    ensures
        exists|i: int| 0 <= i < legal_moves_of(*old(game)).len() && legal_moves_of(*old(game))[i] == r,
        final(game).board@ == board_after_listing(*old(game)),
        same_but_board(*final(game), *old(game)),
{
    let legal_moves = get_legal_moves(game);
    let legal = legal_moves.to_slice();
    let mut candidates: Vec<Move> = Vec::new();
    let mut i: usize = 0;
    while i < legal.len()
        invariant
            i <= legal@.len(),
            candidates@ == legal@.take(i as int),
        decreases legal@.len() - i,
    {
        candidates.push(legal[i]);
        assert(legal@.take(i + 1) =~= legal@.take(i as int).push(legal@[i as int]));
        i = i + 1;
    }
    assert(candidates@ =~= legal@);
    *choose_random(&candidates).unwrap()
}

fn choose_next_best_move(game: &mut Game) -> (r: Move)
    requires
        choose_move_allowed(*old(game)),
    ensures
        exists|i: int| 0 <= i < best_moves(*old(game)).len() && best_moves(*old(game))[i] == r,
        final(game).board@ == board_after_scoring(*old(game)),
        same_but_board(*final(game), *old(game)),
{
    let ghost g = *old(game);
    let legal_moves = get_legal_moves(game);
    let legal = legal_moves.to_slice();
    let ghost ms = legal@;
    let ghost b1 = game.board@;
    let color = game.next_move;
    proof {
        crate::moves::lemma_legal_fold_len(g.board@, king_square(g), g.next_move, all_pseudo_moves(g));
        lemma_score_fold(b1, color, ms);
    }
    let mut scores: Vec<i32> = Vec::new();
    let mut i: usize = 0;
    while i < legal.len()
        invariant
            i <= ms.len(),
            legal@ == ms,
            b1.len() == 64,
            color == game.next_move,
            same_but_board(*game, g),
            scores@.len() == i,
            forall|j: int| 0 <= j < i ==> scores@[j] == score_fold(b1, color, ms.take(i as int)).0[j],
            game.board@ == score_fold(b1, color, ms.take(i as int)).1,
        decreases ms.len() - i,
    {
        let m = legal[i];
        assert(ms.take(i + 1).drop_last() =~= ms.take(i as int));
        proof {
            lemma_score_fold(b1, color, ms.take(i + 1));
        }
        let score = evaluate_move(game, m);
        scores.push(score);
        i = i + 1;
    }
    assert(ms.take(i as int) =~= ms);
    let ghost sc = score_fold(b1, color, ms).0;
    assert(scores@.map_values(|x: i32| x as int) =~= sc);
    proof {
        lemma_target_score(sc, color);
    }
    // the best score for the side to play
    let mut target: i32 = scores[0];
    let mut k: usize = 1;
    while k < scores.len()
        invariant
            1 <= k <= scores@.len(),
            scores@.len() == sc.len(),
            sc.len() > 0,
            forall|j: int| 0 <= j < sc.len() ==> scores@[j] == sc[j],
            target == target_score(sc.take(k as int), color),
        decreases scores@.len() - k,
    {
        assert(sc.take(k + 1).drop_last() =~= sc.take(k as int));
        if color == Color::White {
            if scores[k] > target {
                target = scores[k];
            }
        } else {
            if scores[k] < target {
                target = scores[k];
            }
        }
        k = k + 1;
    }
    assert(sc.take(k as int) =~= sc);
    let mut best: Vec<Move> = Vec::new();
    let mut q: usize = 0;
    while q < legal.len()
        invariant
            q <= ms.len(),
            legal@ == ms,
            scores@.len() == ms.len(),
            forall|j: int| 0 <= j < sc.len() ==> scores@[j] == sc[j],
            sc.len() == ms.len(),
            best@ == moves_with_score(ms, sc, target as int, q as int),
        decreases ms.len() - q,
    {
        if scores[q] == target {
            best.push(legal[q]);
        }
        q = q + 1;
    }
    proof {
        lemma_moves_with_score(ms, sc, target as int, ms.len() as int);
    }
    assert(ms == legal_moves_of(g));
    assert(b1 == board_after_listing(g));
    assert(sc == legal_move_scores(g));
    assert(target == target_score(sc, g.next_move));
    assert(best@ == best_moves(g));
    let chosen = choose_random(&best);
    let r = *chosen.unwrap();
    assert(exists|i: int| 0 <= i < best@.len() && best@[i] == r);
    r
}

/// A move for the side to play: any legal move at random, or, for `NextBestMove`, a random one
/// among the legal moves after which the board scores best for the side to play (highest for
/// White, lowest for Black). The game is left as listing and scoring the moves leaves it.
pub fn choose_move(game: &mut Game, algorithm: Algorithm) -> (r: Move)
    requires
        choose_move_allowed(*old(game)),
    ensures
        algorithm == Algorithm::Random ==> exists|i: int|
            0 <= i < legal_moves_of(*old(game)).len() && legal_moves_of(*old(game))[i] == r,
        algorithm == Algorithm::Random ==> final(game).board@ == board_after_listing(*old(game)),
        algorithm == Algorithm::NextBestMove ==> exists|i: int|
            0 <= i < best_moves(*old(game)).len() && best_moves(*old(game))[i] == r,
        algorithm == Algorithm::NextBestMove ==> final(game).board@ == board_after_scoring(*old(game)),
        same_but_board(*final(game), *old(game)),
{
    match algorithm {
        Algorithm::Random => choose_random_move(game),
        Algorithm::NextBestMove => choose_next_best_move(game),
    }
}

fn copy_game(game: &Game) -> (r: Game)
    ensures
        r == *game,
{
    Game {
        board: Board { squares: game.board.squares },
        next_move: game.next_move,
        white_can_king_side_castle: game.white_can_king_side_castle,
        black_can_king_side_castle: game.black_can_king_side_castle,
        white_can_queen_side_castle: game.white_can_queen_side_castle,
        black_can_queen_side_castle: game.black_can_queen_side_castle,
        en_passant_square: game.en_passant_square,
        white_king_position: game.white_king_position,
        black_king_position: game.black_king_position,
    }
}

/// Whether the computer can choose a move in `game` (see `choose_move_allowed`). The game is
/// not changed: the moves are listed on a copy.
pub fn can_choose_move(game: &Game) -> (r: bool)
    ensures
        r == choose_move_allowed(*game),
{
    if !legal_moves_fit(game) {
        return false;
    }
    let mut copy = copy_game(game);
    let legal_moves = get_legal_moves(&mut copy);
    legal_moves.len() > 0
}

/// Every best move is a legal move with the target score, and the target score is the best
/// score of all the legal moves for the side to play.
pub proof fn lemma_best_moves_are_best(g: Game)
    requires
        legal_moves_of(g).len() > 0,
    ensures
        forall|j: int|
            0 <= j < best_moves(g).len() ==> exists|i: int|
                0 <= i < legal_moves_of(g).len() && legal_moves_of(g)[i] == #[trigger] best_moves(g)[j]
                    && legal_move_scores(g)[i] == target_score(legal_move_scores(g), g.next_move),
        best_moves(g).len() > 0,
        g.next_move == Color::White ==> forall|i: int|
            0 <= i < legal_move_scores(g).len() ==> legal_move_scores(g)[i] <= target_score(
                legal_move_scores(g),
                g.next_move,
            ),
        g.next_move == Color::Black ==> forall|i: int|
            0 <= i < legal_move_scores(g).len() ==> legal_move_scores(g)[i] >= target_score(
                legal_move_scores(g),
                g.next_move,
            ),
{
    let ms = legal_moves_of(g);
    crate::moves::lemma_legal_fold_len(g.board@, king_square(g), g.next_move, all_pseudo_moves(g));
    lemma_score_fold(board_after_listing(g), g.next_move, ms);
    let sc = legal_move_scores(g);
    lemma_target_score(sc, g.next_move);
    lemma_moves_with_score(ms, sc, target_score(sc, g.next_move), ms.len() as int);
}


proof fn lemma_board_score_upto_update(b: Seq<Option<Unit>>, i: int, v: Option<Unit>, n: int)
    requires
        0 <= i < b.len(),
        0 <= n <= b.len(),
    ensures
        board_score_upto(b.update(i, v), n) == board_score_upto(b, n) + (if i < n {
            square_value(v) - square_value(b[i])
        } else {
            0
        }),
    decreases n,
{
    if n > 0 {
        lemma_board_score_upto_update(b, i, v, n - 1);
    }
}

/// Putting a unit on an empty square raises the score by the unit's worth when it is White's and
/// lowers it by that worth when it is Black's; every kind of unit is worth something: a pawn 1, a
/// knight 3, a bishop 3, a rook 5, a queen 9, a king 100.
pub proof fn lemma_score_counts_units(b: Seq<Option<Unit>>, sq: Square, u: Unit)
    requires
        b.len() == 64,
        unit_at(b, sq) is None,
    ensures
        unit_value(u.kind) > 0,
        u.color == Color::White ==> board_score(put(b, sq, Some(u))) == board_score(b) + unit_value(u.kind),
        u.color == Color::Black ==> board_score(put(b, sq, Some(u))) == board_score(b) - unit_value(u.kind),
        unit_value(UnitKind::Pawn) == 1,
        unit_value(UnitKind::Knight) == 3,
        unit_value(UnitKind::Bishop) == 3,
        unit_value(UnitKind::Rook) == 5,
        unit_value(UnitKind::Queen) == 9,
        unit_value(UnitKind::King) == 100,
{
    crate::lemma_square_index(sq, sq);
    lemma_board_score_upto_update(b, sq.index(), Some(u), 64);
}

proof fn lemma_empty_board_score(b: Seq<Option<Unit>>, n: int)
    requires
        0 <= n <= b.len(),
        forall|i: int| 0 <= i < b.len() ==> b[i] is None,
    ensures
        board_score_upto(b, n) == 0,
    decreases n,
{
    if n > 0 {
        lemma_empty_board_score(b, n - 1);
    }
}

/// An empty board scores zero, so the score of a board is the sum of the worths its units add:
/// above zero exactly when White's units are worth more than Black's.
pub proof fn lemma_empty_board_scores_zero(b: Seq<Option<Unit>>)
    requires
        b.len() == 64,
        forall|i: int| 0 <= i < 64 ==> b[i] is None,
    ensures
        board_score(b) == 0,
{
    lemma_empty_board_score(b, 64);
}


proof fn lemma_score_fold_keeps_board(b: Seq<Option<Unit>>, color: Color, ms: Seq<Move>)
    requires
        b.len() == 64,
        forall|j: int| 0 <= j < ms.len() ==> move_consistent(b, color, #[trigger] ms[j]),
    ensures
        score_fold(b, color, ms).1 == b,
        score_fold(b, color, ms).0.len() == ms.len(),
        forall|i: int|
            0 <= i < ms.len() ==> #[trigger] score_fold(b, color, ms).0[i] == board_score(apply_board(b, color, ms[i])),
    decreases ms.len(),
{
    if ms.len() > 0 {
        let rest = ms.drop_last();
        assert forall|j: int| 0 <= j < rest.len() implies move_consistent(b, color, #[trigger] rest[j]) by {
            assert(rest[j] == ms[j]);
        }
        lemma_score_fold_keeps_board(b, color, rest);
        assert(move_consistent(b, color, ms[ms.len() - 1]));
        lemma_revert_undoes_apply(b, color, ms.last());
        let cur = score_fold(b, color, ms);
        let prev = score_fold(b, color, rest);
        assert forall|i: int| 0 <= i < ms.len() implies #[trigger] cur.0[i] == board_score(apply_board(b, color, ms[i])) by {
            if i < ms.len() - 1 {
                assert(cur.0[i] == prev.0[i]);
                assert(rest[i] == ms[i]);
            }
        }
    }
}

/// When the en-passant square describes the board, the score given to each legal move is the
/// score of the board after that move is played on the game's board, and listing and scoring the
/// moves leave the board as it was.
pub proof fn lemma_move_scores_are_scores_after_moves(g: Game)
    requires
        en_passant_sound(g),
    ensures
        board_after_listing(g) == g.board@,
        board_after_scoring(g) == g.board@,
        legal_move_scores(g).len() == legal_moves_of(g).len(),
        forall|i: int|
            0 <= i < legal_moves_of(g).len() ==> #[trigger] legal_move_scores(g)[i] == board_score(
                apply_board(g.board@, g.next_move, legal_moves_of(g)[i]),
            ),
{
    let b = g.board@;
    let all = all_pseudo_moves(g);
    let ms = legal_moves_of(g);
    lemma_legal_moves_keep_board(g);
    lemma_legal_fold_keeps_candidates(b, king_square(g), g.next_move, all);
    lemma_pseudo_moves_upto_consistent(g, 64);
    assert forall|j: int| 0 <= j < ms.len() implies move_consistent(b, g.next_move, #[trigger] ms[j]) by {
        assert(all.contains(ms[j]));
        let k = choose|k: int| 0 <= k < all.len() && all[k] == ms[j];
        assert(move_consistent(b, g.next_move, all[k]));
    }
    lemma_score_fold_keeps_board(b, g.next_move, ms);
}

} // verus!
