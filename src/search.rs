use vstd::prelude::*;
use crate::board::{
    Cell, TicTacToe, count_marks, lemma_marks_bounds, lemma_marks_update, lemma_two_empty_slots,
    lemma_winner_is_a_filled_line, line_mark, winner_of,
};

verus! {

/// A slot index, or -1 when the position offers no move.
pub type Move = i8;

/// A depth-adjusted outcome value; X seeks high scores, O low ones.
pub type Score = i8;

/// The mark that the side to move places: X maximizes, O minimizes.
pub open spec fn mark_of(maximizing: bool) -> Cell {
    if maximizing {
        Cell::X
    } else {
        Cell::O
    }
}

/// Whether a position ends the game: a line is complete, or all nine moves are made.
pub open spec fn is_terminal(b: Seq<Option<Cell>>, depth: int) -> bool {
    winner_of(b) is Some || depth >= 9
}

/// Plain minimax without pruning: the move and score that the search owes.
/// Terminal positions score `10 - depth` for X, `depth - 10` for O and -1 for a draw.
pub open spec fn outcome(b: Seq<Option<Cell>>, depth: int, maximizing: bool) -> (int, int)
    decreases 9 - depth, 10int,
{
    match winner_of(b) {
        Some(Cell::X) => (-1, 10 - depth),
        Some(Cell::O) => (-1, depth - 10),
        None => if depth >= 9 {
            (-1, -1)
        } else {
            scan(
                b,
                depth,
                maximizing,
                0,
                -1,
                if maximizing { i8::MIN as int } else { i8::MAX as int },
            )
        },
    }
}

/// Walks slots `i..9` in ascending order from running best `(bm, bs)`; a child
/// replaces the best only with a strictly better score, so ties keep the lower index.
/// The test on `depth` bounds the recursion; `outcome` calls it only below depth 9.
pub open spec fn scan(
    b: Seq<Option<Cell>>,
    depth: int,
    maximizing: bool,
    i: int,
    bm: int,
    bs: int,
) -> (int, int)
    decreases 9 - depth, 9 - i,
{
    if i >= 9 || depth >= 9 {
        (bm, bs)
    } else if b[i] is Some {
        scan(b, depth, maximizing, i + 1, bm, bs)
    } else {
        let s = outcome(b.update(i, Some(mark_of(maximizing))), depth + 1, !maximizing).1;
        if (maximizing && s > bs) || (!maximizing && s < bs) {
            scan(b, depth, maximizing, i + 1, i, s)
        } else {
            scan(b, depth, maximizing, i + 1, bm, bs)
        }
    }
}

/// The running best never gets worse for the side to move.
proof fn lemma_scan_monotone(
    b: Seq<Option<Cell>>,
    depth: int,
    maximizing: bool,
    i: int,
    bm: int,
    bs: int,
)
    ensures
        maximizing ==> scan(b, depth, maximizing, i, bm, bs).1 >= bs,
        !maximizing ==> scan(b, depth, maximizing, i, bm, bs).1 <= bs,
    decreases 9 - i,
{
    if i >= 9 || depth >= 9 {
    } else if b[i] is Some {
        lemma_scan_monotone(b, depth, maximizing, i + 1, bm, bs);
    } else {
        let s = outcome(b.update(i, Some(mark_of(maximizing))), depth + 1, !maximizing).1;
        lemma_scan_monotone(b, depth, maximizing, i + 1, i, s);
        lemma_scan_monotone(b, depth, maximizing, i + 1, bm, bs);
    }
}

/// Whether `s` lies in the score range of a position `depth` moves deep.
pub open spec fn within_depth_range(s: int, depth: int) -> bool {
    depth - 10 <= s <= 10 - depth
}

/// Every position with `depth` marks on it scores within `[depth - 10, 10 - depth]`.
pub proof fn lemma_outcome_bounds(b: Seq<Option<Cell>>, depth: int, maximizing: bool)
    requires
        b.len() == 9,
        depth == count_marks(b),
    ensures
        within_depth_range(outcome(b, depth, maximizing).1, depth),
        !is_terminal(b, depth) ==> within_depth_range(outcome(b, depth, maximizing).1, depth + 1),
    decreases 9 - depth, 10int,
{
    lemma_marks_bounds(b, 9);
    if winner_of(b) is None && depth < 9 {
        let init = if maximizing { i8::MIN as int } else { i8::MAX as int };
        lemma_scan_bounds(b, depth, maximizing, 0, -1, init);
    }
}

/// A scan that starts from the initial best, or from a child's score, ends on
/// a child's score unless no slot is left to try.
proof fn lemma_scan_bounds(
    b: Seq<Option<Cell>>,
    depth: int,
    maximizing: bool,
    i: int,
    bm: int,
    bs: int,
)
    requires
        b.len() == 9,
        0 <= depth < 9,
        depth == count_marks(b),
        0 <= i <= 9,
        bs == (if maximizing { i8::MIN as int } else { i8::MAX as int }) || within_depth_range(
            bs,
            depth + 1,
        ),
    ensures
        within_depth_range(scan(b, depth, maximizing, i, bm, bs).1, depth + 1) || (scan(
            b,
            depth,
            maximizing,
            i,
            bm,
            bs,
        ).1 == bs && forall|j: int| i <= j < 9 ==> b[j] is Some),
    decreases 9 - depth, 9 - i,
{
    if i < 9 {
        if b[i] is Some {
            lemma_scan_bounds(b, depth, maximizing, i + 1, bm, bs);
        } else {
            let c = b.update(i, Some(mark_of(maximizing)));
            lemma_marks_update(b, 9, i, mark_of(maximizing));
            lemma_outcome_bounds(c, depth + 1, !maximizing);
            let s = outcome(c, depth + 1, !maximizing).1;
            if (maximizing && s > bs) || (!maximizing && s < bs) {
                lemma_scan_bounds(b, depth, maximizing, i + 1, i, s);
            } else {
                lemma_scan_bounds(b, depth, maximizing, i + 1, bm, bs);
            }
        }
    }
}

/// Placing a mark on a board without a winner can only make that mark the winner.
pub proof fn lemma_placing_wins_only_for_its_mark(b: Seq<Option<Cell>>, i: int, m: Cell)
    requires
        b.len() == 9,
        winner_of(b) is None,
        0 <= i < 9,
    ensures
        winner_of(b.update(i, Some(m))) is None || winner_of(b.update(i, Some(m))) == Some(m),
{
    let c = b.update(i, Some(m));
    lemma_winner_is_a_filled_line(b);
    lemma_winner_is_a_filled_line(c);
    if winner_of(c) is Some {
        let k = choose|k: int| 0 <= k < 8 && line_mark(c, k) == winner_of(c);
        assert(line_mark(b, k) is None);
    }
}

/// The score of a move for the side to move that completes a line of its own.
pub open spec fn win_score(depth: int, maximizing: bool) -> int {
    if maximizing {
        10 - (depth + 1)
    } else {
        depth + 1 - 10
    }
}

/// When the side to move can complete a line at once, minimax plays the lowest
/// such slot and scores the win at the next depth.
pub proof fn lemma_immediate_win_is_taken(
    b: Seq<Option<Cell>>,
    depth: int,
    maximizing: bool,
    i: int,
)
    requires
        b.len() == 9,
        depth == count_marks(b),
        winner_of(b) is None,
        0 <= i < 9,
        b[i] is None,
        winner_of(b.update(i, Some(mark_of(maximizing)))) == Some(mark_of(maximizing)),
        forall|j: int|
            0 <= j < i && b[j] is None ==> winner_of(b.update(j, Some(mark_of(maximizing))))
                != Some(mark_of(maximizing)),
    ensures
        outcome(b, depth, maximizing) == (i, win_score(depth, maximizing)),
{
    lemma_marks_bounds(b, 9);
    lemma_child(b, depth, maximizing, i);
    assert(child_score(b, depth, maximizing, i) == win_score(depth, maximizing));
    assert forall|j: int| 0 <= j < 9 && b[j] is None && j != i implies (j < i ==> better(
        maximizing,
        child_score(b, depth, maximizing, i),
        child_score(b, depth, maximizing, j),
    )) && !better(
        maximizing,
        child_score(b, depth, maximizing, j),
        child_score(b, depth, maximizing, i),
    ) by {
        lemma_child(b, depth, maximizing, j);
        lemma_two_empty_slots(b, 9, i, j);
    }
    let init = if maximizing { i8::MIN as int } else { i8::MAX as int };
    lemma_scan_picks(b, depth, maximizing, i, 0, -1, init);
}

/// The score that the side to move gets by playing slot `j`.
pub open spec fn child_score(b: Seq<Option<Cell>>, depth: int, maximizing: bool, j: int) -> int {
    outcome(b.update(j, Some(mark_of(maximizing))), depth + 1, !maximizing).1
}

/// Whether score `x` is strictly better than `y` for the side to move.
pub open spec fn better(maximizing: bool, x: int, y: int) -> bool {
    if maximizing {
        x > y
    } else {
        x < y
    }
}

/// No slot left to the scan scores better than what the scan returns.
proof fn lemma_scan_dominates(
    b: Seq<Option<Cell>>,
    depth: int,
    maximizing: bool,
    i: int,
    bm: int,
    bs: int,
    k: int,
)
    requires
        0 <= depth < 9,
        0 <= i <= k < 9,
        b[k] is None,
    ensures
        !better(maximizing, child_score(b, depth, maximizing, k), scan(b, depth, maximizing, i, bm, bs).1),
    decreases 9 - i,
{
    let s = child_score(b, depth, maximizing, i);
    if b[i] is Some {
        lemma_scan_dominates(b, depth, maximizing, i + 1, bm, bs, k);
    } else if better(maximizing, s, bs) {
        if i == k {
            lemma_scan_monotone(b, depth, maximizing, i + 1, i, s);
        } else {
            lemma_scan_dominates(b, depth, maximizing, i + 1, i, s, k);
        }
    } else {
        if i == k {
            lemma_scan_monotone(b, depth, maximizing, i + 1, bm, bs);
        } else {
            lemma_scan_dominates(b, depth, maximizing, i + 1, bm, bs, k);
        }
    }
}

/// A scan never returns better than a limit that bounds its start and every slot it tries.
proof fn lemma_scan_within(
    b: Seq<Option<Cell>>,
    depth: int,
    maximizing: bool,
    i: int,
    bm: int,
    bs: int,
    lim: int,
)
    requires
        0 <= i <= 9,
        !better(maximizing, bs, lim),
        forall|j: int|
            i <= j < 9 && b[j] is None ==> !better(maximizing, child_score(b, depth, maximizing, j), lim),
    ensures
        !better(maximizing, scan(b, depth, maximizing, i, bm, bs).1, lim),
    decreases 9 - i,
{
    if i < 9 && depth < 9 {
        let s = child_score(b, depth, maximizing, i);
        if b[i] is None && better(maximizing, s, bs) {
            lemma_scan_within(b, depth, maximizing, i + 1, i, s, lim);
        } else {
            lemma_scan_within(b, depth, maximizing, i + 1, bm, bs, lim);
        }
    }
}

/// A slot that scores strictly better than every lower empty slot, and no worse
/// than every higher one, is the move that the scan returns.
proof fn lemma_scan_picks(
    b: Seq<Option<Cell>>,
    depth: int,
    maximizing: bool,
    t: int,
    k: int,
    bm: int,
    bs: int,
)
    requires
        0 <= depth < 9,
        0 <= t < 9,
        b[t] is None,
        forall|j: int|
            0 <= j < t && b[j] is None ==> better(
                maximizing,
                child_score(b, depth, maximizing, t),
                child_score(b, depth, maximizing, j),
            ),
        forall|j: int|
            t < j < 9 && b[j] is None ==> !better(
                maximizing,
                child_score(b, depth, maximizing, j),
                child_score(b, depth, maximizing, t),
            ),
        0 <= k <= 9,
        k <= t ==> better(maximizing, child_score(b, depth, maximizing, t), bs),
        k > t ==> bm == t && bs == child_score(b, depth, maximizing, t),
    ensures
        scan(b, depth, maximizing, k, bm, bs) == (t, child_score(b, depth, maximizing, t)),
    decreases 9 - k,
{
    if k < 9 {
        let s = child_score(b, depth, maximizing, k);
        if b[k] is None && better(maximizing, s, bs) {
            lemma_scan_picks(b, depth, maximizing, t, k + 1, k, s);
        } else {
            lemma_scan_picks(b, depth, maximizing, t, k + 1, bm, bs);
        }
    }
}

/// Facts on playing an empty slot `k` of board `b` with no winner and `depth` marks.
proof fn lemma_child(b: Seq<Option<Cell>>, depth: int, maximizing: bool, k: int)
    requires
        b.len() == 9,
        depth == count_marks(b),
        winner_of(b) is None,
        0 <= k < 9,
        b[k] is None,
    ensures
        count_marks(b.update(k, Some(mark_of(maximizing)))) == depth + 1,
        within_depth_range(child_score(b, depth, maximizing, k), depth + 1),
        winner_of(b.update(k, Some(mark_of(maximizing)))) != Some(mark_of(maximizing))
            ==> winner_of(b.update(k, Some(mark_of(maximizing)))) is None,
        winner_of(b.update(k, Some(mark_of(maximizing)))) is None && depth + 1 < 9
            ==> within_depth_range(child_score(b, depth, maximizing, k), depth + 2),
{
    let c = b.update(k, Some(mark_of(maximizing)));
    lemma_marks_update(b, 9, k, mark_of(maximizing));
    lemma_outcome_bounds(c, depth + 1, !maximizing);
    lemma_placing_wins_only_for_its_mark(b, k, mark_of(maximizing));
}

/// Playing any slot but the threatened one lets the opponent complete a line on
/// the next move, which bounds that slot's score.
proof fn lemma_unblocked_loses(b: Seq<Option<Cell>>, depth: int, maximizing: bool, t: int, j: int)
    requires
        b.len() == 9,
        depth == count_marks(b),
        winner_of(b) is None,
        0 <= t < 9,
        0 <= j < 9,
        t != j,
        b[t] is None,
        b[j] is None,
        winner_of(b.update(j, Some(mark_of(maximizing)))) != Some(mark_of(maximizing)),
        winner_of(b.update(t, Some(mark_of(!maximizing)))) == Some(mark_of(!maximizing)),
    ensures
        maximizing ==> child_score(b, depth, maximizing, j) <= depth - 8,
        !maximizing ==> child_score(b, depth, maximizing, j) >= 8 - depth,
{
    let m = mark_of(maximizing);
    let o = mark_of(!maximizing);
    let c = b.update(j, Some(m));
    let bt = b.update(t, Some(o));
    let g = c.update(t, Some(o));
    lemma_marks_bounds(b, 9);
    lemma_two_empty_slots(b, 9, t, j);
    lemma_child(b, depth, maximizing, j);
    lemma_winner_is_a_filled_line(bt);
    let k = choose|k: int| 0 <= k < 8 && line_mark(bt, k) == winner_of(bt);
    assert(line_mark(g, k) == Some(o));
    lemma_winner_is_a_filled_line(g);
    lemma_placing_wins_only_for_its_mark(c, t, o);
    assert(winner_of(g) == Some(o));
    let init = if !maximizing { i8::MIN as int } else { i8::MAX as int };
    lemma_scan_dominates(c, depth + 1, !maximizing, 0, -1, init, t);
}

/// Playing the threatened slot leaves the opponent no line to complete, which
/// bounds that slot's score from the other side.
proof fn lemma_block_holds(b: Seq<Option<Cell>>, depth: int, maximizing: bool, t: int)
    requires
        b.len() == 9,
        depth == count_marks(b),
        0 <= depth <= 7,
        !(maximizing && depth == 7),
        winner_of(b) is None,
        0 <= t < 9,
        b[t] is None,
        winner_of(b.update(t, Some(mark_of(maximizing)))) != Some(mark_of(maximizing)),
        forall|j: int|
            0 <= j < 9 && b[j] is None && j != t ==> winner_of(
                b.update(j, Some(mark_of(!maximizing))),
            ) != Some(mark_of(!maximizing)),
    ensures
        maximizing ==> child_score(b, depth, maximizing, t) >= depth - 7,
        !maximizing ==> child_score(b, depth, maximizing, t) <= 7 - depth,
{
    let m = mark_of(maximizing);
    let o = mark_of(!maximizing);
    let c = b.update(t, Some(m));
    let lim = if maximizing { depth - 7 } else { 7 - depth };
    lemma_child(b, depth, maximizing, t);
    assert forall|k: int|
        0 <= k < 9 && c[k] is None implies !better(
            !maximizing,
            child_score(c, depth + 1, !maximizing, k),
            lim,
        ) by {
        let g = c.update(k, Some(o));
        let bk = b.update(k, Some(o));
        lemma_child(c, depth + 1, !maximizing, k);
        if winner_of(g) is Some {
            lemma_winner_is_a_filled_line(g);
            let k2 = choose|k2: int| 0 <= k2 < 8 && line_mark(g, k2) == winner_of(g);
            assert(line_mark(bk, k2) == Some(o));
            lemma_winner_is_a_filled_line(bk);
            lemma_placing_wins_only_for_its_mark(b, k, o);
        }
    }
    let init = if !maximizing { i8::MIN as int } else { i8::MAX as int };
    lemma_scan_within(c, depth + 1, !maximizing, 0, -1, init, lim);
}

/// When the side to move has no line to complete and the opponent threatens to
/// complete one at a single slot, minimax plays that slot. Positions with seven
/// marks and X to move, which play never reaches, are left out: there the loss
/// and the draw both score -1.
pub proof fn lemma_threat_is_blocked(b: Seq<Option<Cell>>, depth: int, maximizing: bool, t: int)
    requires
        b.len() == 9,
        depth == count_marks(b),
        !(maximizing && depth == 7),
        winner_of(b) is None,
        0 <= t < 9,
        b[t] is None,
        forall|j: int|
            0 <= j < 9 && b[j] is None ==> winner_of(b.update(j, Some(mark_of(maximizing))))
                != Some(mark_of(maximizing)),
        winner_of(b.update(t, Some(mark_of(!maximizing)))) == Some(mark_of(!maximizing)),
        forall|j: int|
            0 <= j < 9 && b[j] is None && j != t ==> winner_of(
                b.update(j, Some(mark_of(!maximizing))),
            ) != Some(mark_of(!maximizing)),
    ensures
        outcome(b, depth, maximizing).0 == t,
{
    lemma_marks_bounds(b, 9);
    lemma_child(b, depth, maximizing, t);
    assert forall|j: int| 0 <= j < 9 && b[j] is None && j != t implies better(
        maximizing,
        child_score(b, depth, maximizing, t),
        child_score(b, depth, maximizing, j),
    ) by {
        lemma_two_empty_slots(b, 9, t, j);
        lemma_unblocked_loses(b, depth, maximizing, t, j);
        lemma_block_holds(b, depth, maximizing, t);
    }
    let init = if maximizing { i8::MIN as int } else { i8::MAX as int };
    lemma_scan_picks(b, depth, maximizing, t, 0, -1, init);
}

impl TicTacToe {
    /// Alpha-beta search from a position where `depth` moves were made. Within the
    /// window `(alpha, beta)` it returns exactly the plain minimax move and score;
    /// outside it, a bound on the same side of the window as the minimax score.
    pub fn minimax(&self, depth: i8, maximizing_player: bool, mut alpha: i8, mut beta: i8) -> (r: (
        Move,
        Score,
    ))
        requires
            depth == count_marks(self@),
            alpha < beta,
        ensures
            alpha < outcome(self@, depth as int, maximizing_player).1 < beta ==> r.0 as int
                == outcome(self@, depth as int, maximizing_player).0 && r.1 as int == outcome(
                self@,
                depth as int,
                maximizing_player,
            ).1,
            outcome(self@, depth as int, maximizing_player).1 <= alpha ==> r.1 <= alpha,
            outcome(self@, depth as int, maximizing_player).1 >= beta ==> r.1 >= beta,
            -10 <= r.1 <= 10,
            alpha == i8::MIN && beta == i8::MAX ==> r.0 as int == outcome(
                self@,
                depth as int,
                maximizing_player,
            ).0 && r.1 as int == outcome(self@, depth as int, maximizing_player).1,
            r.0 == -1 <==> is_terminal(self@, depth as int),
            r.0 != -1 ==> 0 <= r.0 < 9 && self@[r.0 as int] is None,
        decreases 9 - depth,
    {
        let ghost b = self@;
        proof {
            lemma_marks_bounds(b, 9);
            lemma_outcome_bounds(b, depth as int, maximizing_player);
        }
        match self.check_win() {
            Some(Cell::X) => return (-1, 10 - depth),
            Some(Cell::O) => return (-1, -10 + depth),
            None => {
                if depth == 9 {
                    return (-1, -1);
                }
            },
        }
        let ghost alpha0 = alpha as int;
        let ghost beta0 = beta as int;
        let ghost total = outcome(b, depth as int, maximizing_player);
        if maximizing_player {
            let mut best_score: Score = i8::MIN;
            let mut best_move: Move = -1;
            let ghost mut ubm: int = -1;
            let ghost mut ubs: int = i8::MIN as int;
            let mut i: usize = 0;
            while i < 9 && alpha < beta
                invariant
                    i <= 9,
                    b == self@,
                    b.len() == 9,
                    depth == count_marks(b),
                    0 <= depth < 9,
                    winner_of(b) is None,
                    maximizing_player,
                    beta == beta0,
                    alpha0 < beta0,
                    scan(b, depth as int, true, i as int, ubm, ubs) == total,
                    best_move == -1 ==> best_score == i8::MIN && forall|j: int|
                        0 <= j < i ==> b[j] is Some,
                    best_move != -1 ==> 0 <= best_move < 9 && b[best_move as int] is None && -10
                        <= best_score <= 10,
                    ({
                        ||| (alpha < beta && ubs > alpha0 && best_score == ubs && best_move
                            == ubm && alpha == ubs)
                        ||| (alpha < beta && ubs <= alpha0 && best_score <= alpha0 && alpha
                            == alpha0)
                        ||| (alpha >= beta && best_move != -1 && best_score >= beta && ubs >= beta)
                    }),
                decreases 9 - i,
            {
                if self.0[i].is_some() {
                    i += 1;
                    continue;
                }
                let mut ttt = self.clone();
                ttt.make_move(i, Some(Cell::X));
                proof {
                    lemma_marks_update(b, 9, i as int, Cell::X);
                }
                let (_, score) = ttt.minimax(depth + 1, !maximizing_player, alpha, beta);
                proof {
                    let s = outcome(b.update(i as int, Some(Cell::X)), depth + 1, false).1;
                    if s > ubs {
                        ubm = i as int;
                        ubs = s;
                    }
                }
                if score > best_score {
                    best_score = score;
                    if best_score > alpha {
                        alpha = best_score;
                    }
                    best_move = i as i8;
                }
                i += 1;
            }
            proof {
                lemma_scan_monotone(b, depth as int, true, i as int, ubm, ubs);
                if best_move == -1 {
                    assert(false);
                }
            }
            (best_move, best_score)
        } else {
            let mut best_score: Score = i8::MAX;
            let mut best_move: Move = -1;
            let ghost mut ubm: int = -1;
            let ghost mut ubs: int = i8::MAX as int;
            let mut i: usize = 0;
            while i < 9 && alpha < beta
                invariant
                    i <= 9,
                    b == self@,
                    b.len() == 9,
                    depth == count_marks(b),
                    0 <= depth < 9,
                    winner_of(b) is None,
                    !maximizing_player,
                    alpha == alpha0,
                    alpha0 < beta0,
                    scan(b, depth as int, false, i as int, ubm, ubs) == total,
                    best_move == -1 ==> best_score == i8::MAX && forall|j: int|
                        0 <= j < i ==> b[j] is Some,
                    best_move != -1 ==> 0 <= best_move < 9 && b[best_move as int] is None && -10
                        <= best_score <= 10,
                    ({
                        ||| (alpha < beta && ubs < beta0 && best_score == ubs && best_move
                            == ubm && beta == ubs)
                        ||| (alpha < beta && ubs >= beta0 && best_score >= beta0 && beta
                            == beta0)
                        ||| (alpha >= beta && best_move != -1 && best_score <= alpha && ubs
                            <= alpha)
                    }),
                decreases 9 - i,
            {
                if self.0[i].is_some() {
                    i += 1;
                    continue;
                }
                let mut ttt = self.clone();
                ttt.make_move(i, Some(Cell::O));
                proof {
                    lemma_marks_update(b, 9, i as int, Cell::O);
                }
                let (_, score) = ttt.minimax(depth + 1, !maximizing_player, alpha, beta);
                proof {
                    let s = outcome(b.update(i as int, Some(Cell::O)), depth + 1, true).1;
                    if s < ubs {
                        ubm = i as int;
                        ubs = s;
                    }
                }
                if score < best_score {
                    best_score = score;
                    if best_score < beta {
                        beta = best_score;
                    }
                    best_move = i as i8;
                }
                i += 1;
            }
            proof {
                lemma_scan_monotone(b, depth as int, false, i as int, ubm, ubs);
                if best_move == -1 {
                    assert(false);
                }
            }
            (best_move, best_score)
        }
    }
}

} // verus!
