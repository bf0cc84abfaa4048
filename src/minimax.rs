//! Exhaustive game-tree search.
//!
//! Scores are taken from one fixed mark, the perspective: a finished game is
//! worth 10 when that mark has won, -10 when its opponent has, and 0 for a
//! draw. The mark to move alternates down the tree; it takes the greatest
//! score of its moves when it is the perspective mark and the least otherwise.
//! The depth is carried along and does not weigh on any score.
use vstd::prelude::*;
use crate::game::{Board, BoardView, Player, other, lemma_empties, lemma_apply_empties, lemma_open_game_has_moves};

verus! {

/// The score of a finished game for `perspective`.
pub open spec fn outcome(v: BoardView, perspective: Player) -> int {
    match v.winner() {
        Some(p) => if p == perspective {
            10
        } else {
            -10
        },
        None => 0,
    }
}

/// The game-theoretic score of `v` for `perspective`, with `mover` to move.
pub open spec fn value(v: BoardView, mover: Player, perspective: Player) -> int
    decreases v.empty_count(), v.actions().len() + 1,
{
    if !v.wf() {
        0
    } else if v.ended() {
        outcome(v, perspective)
    } else {
        best_of(v, mover, perspective, v.actions().len() as int)
    }
}

/// The best score over the first `i` moves of `v`, starting from -1000 when
/// `mover` is the perspective mark (and taking maxima) and from 1000
/// otherwise (and taking minima).
pub open spec fn best_of(v: BoardView, mover: Player, perspective: Player, i: int) -> int
    decreases v.empty_count(), i,
{
    if !v.wf() || i <= 0 || i > v.actions().len() {
        if mover == perspective {
            -1000
        } else {
            1000
        }
    } else {
        let a = v.actions()[i - 1];
        proof {
            lemma_empties(v, 9);
            lemma_apply_empties(v, a, 9);
        }
        let prev = best_of(v, mover, perspective, i - 1);
        let s = value(v.apply(a), other(mover), perspective);
        if mover == perspective {
            if s > prev {
                s
            } else {
                prev
            }
        } else {
            if s < prev {
                s
            } else {
                prev
            }
        }
    }
}

/// What taking `a` is worth to `p`: the score for `p` of the board that
/// follows, with the opponent to move.
pub open spec fn move_score(v: BoardView, p: Player, a: (i32, i32)) -> int {
    value(v.apply(a), other(p), p)
}

/// Move `i` of `v` is worth the most to `p` of all its moves, and every move
/// before it in row-major order is worth strictly less.
pub open spec fn is_first_best(v: BoardView, p: Player, i: int) -> bool {
    let moves = v.actions();
    &&& 0 <= i < moves.len()
    &&& forall|j: int|
        0 <= j < moves.len() ==> move_score(v, p, #[trigger] moves[j]) <= move_score(v, p, moves[i])
    &&& forall|j: int| 0 <= j < i ==> move_score(v, p, #[trigger] moves[j]) < move_score(v, p, moves[i])
}

/// Every score of a position lies between -10 and 10.
pub proof fn lemma_value_range(v: BoardView, mover: Player, perspective: Player)
    requires
        v.wf(),
    ensures
        -10 <= value(v, mover, perspective) <= 10,
    decreases v.empty_count(), v.actions().len() + 1,
{
    if !v.ended() {
        lemma_open_game_has_moves(v);
        lemma_best_range(v, mover, perspective, v.actions().len() as int);
    }
}

/// Once at least one move is counted, the best score lies between -10 and 10.
proof fn lemma_best_range(v: BoardView, mover: Player, perspective: Player, i: int)
    requires
        v.wf(),
        1 <= i <= v.actions().len(),
    ensures
        -10 <= best_of(v, mover, perspective, i) <= 10,
    decreases v.empty_count(), i,
{
    let a = v.actions()[i - 1];
    lemma_empties(v, 9);
    lemma_apply_empties(v, a, 9);
    lemma_value_range(v.apply(a), other(mover), perspective);
    if i > 1 {
        lemma_best_range(v, mover, perspective, i - 1);
    } else {
        assert(best_of(v, mover, perspective, 0) == if mover == perspective {
            -1000int
        } else {
            1000int
        });
    }
}

/// The score of `board` for `perspective` with `player` to move, found by
/// searching the whole game tree. `depth` grows by one per ply (stopping at
/// `i32::MAX`) and does not weigh on the score.
pub fn minimax(board: Board, player: Player, depth: i32, perspective: Player) -> (r: i32)
    ensures
        r == value(board@, player, perspective),
    decreases board@.empty_count(),
{
    let v = Ghost(board@);
    if board.is_ended() {
        match board.get_winner() {
            Some(p) => {
                if p == perspective {
                    return 10;
                } else {
                    return -10;
                }
            },
            None => {
                return 0;
            },
        }
    }
    let possible_moves = board.get_actions();
    let maximizing = player == perspective;
    let mut best_move: i32 = if maximizing {
        -1000
    } else {
        1000
    };
    proof {
        lemma_empties(v@, 9);
    }
    let mut i: usize = 0;
    while i < possible_moves.len()
        invariant
            v@ == board@,
            !v@.ended(),
            possible_moves@ == v@.actions(),
            maximizing == (player == perspective),
            i <= possible_moves@.len(),
            best_move == best_of(v@, player, perspective, i as int),
            forall|j: int| 0 <= j < v@.actions().len() ==> v@.legal(#[trigger] v@.actions()[j]),
        decreases possible_moves@.len() - i,
    {
        let amove = possible_moves[i];
        let mut board_copy = board.clone();
        proof {
            lemma_apply_empties(v@, amove, 9);
        }
        board_copy.perform_action(amove);
        let next_depth: i32 = if depth < i32::MAX {
            depth + 1
        } else {
            depth
        };
        let result = minimax(board_copy, player.opponent(), next_depth, perspective);
        if maximizing {
            if result > best_move {
                best_move = result;
            }
        } else {
            if result < best_move {
                best_move = result;
            }
        }
        i += 1;
    }
    best_move
}

/// The move that `player` should take: of the moves of `board` in row-major
/// order, the first whose outcome under best play scores highest for
/// `player`. The game must not have ended.
pub fn find_best_move(board: Board, player: Player) -> (r: (i32, i32))
    requires
        !board@.ended(),
    ensures
        exists|i: int| is_first_best(board@, player, i) && board@.actions()[i] == r,
        board@.legal(r),
{
    let v = Ghost(board@);
    let mut best_score: i32 = -1000;
    let mut best_move: (i32, i32) = (-1, -1);
    let mut best_idx = Ghost(0int);
    let possible_moves = board.get_actions();
    proof {
        lemma_empties(v@, 9);
        lemma_open_game_has_moves(v@);
    }
    let mut i: usize = 0;
    while i < possible_moves.len()
        invariant
            v@ == board@,
            !v@.ended(),
            possible_moves@ == v@.actions(),
            i <= possible_moves@.len(),
            forall|j: int| 0 <= j < v@.actions().len() ==> v@.legal(#[trigger] v@.actions()[j]),
            i == 0 ==> best_score == -1000,
            i > 0 ==> {
                &&& 0 <= best_idx@ < i
                &&& best_move == v@.actions()[best_idx@]
                &&& best_score == move_score(v@, player, best_move)
                &&& forall|j: int|
                    0 <= j < i ==> move_score(v@, player, #[trigger] v@.actions()[j]) <= best_score
                &&& forall|j: int|
                    0 <= j < best_idx@ ==> move_score(v@, player, #[trigger] v@.actions()[j])
                        < best_score
            },
        decreases possible_moves@.len() - i,
    {
        let amove = possible_moves[i];
        let mut board_copy = board.clone();
        board_copy.perform_action(amove);
        proof {
            lemma_value_range(board_copy@, other(player), player);
        }
        let score = minimax(board_copy, player.opponent(), 0, player);
        if score > best_score {
            best_score = score;
            best_move = amove;
            best_idx = Ghost(i as int);
        }
        i += 1;
    }
    assert(is_first_best(v@, player, best_idx@));
    best_move
}

} // verus!
