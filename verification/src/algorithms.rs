use vstd::prelude::*;

use crate::OptimalMove;
use crate::components::Board;
use crate::components::Player;
use crate::components::empty_at;
use crate::components::is_mover;
use crate::components::spec_evaluate;

verus! {

/// The contestant who answers `p`'s move.
pub open spec fn opponent_of(p: Player) -> Player {
    if p == Player::Computer {
        Player::Human
    } else {
        Player::Computer
    }
}

/// The computer maximizes the score, the human minimizes it.
pub open spec fn is_maximizer(p: Player) -> bool {
    p == Player::Computer
}

/// Leaf score of a board: +1 for a computer win, -1 for a human win,
/// 0 while undecided or drawn.
pub open spec fn leaf_score(b: Seq<Player>) -> int {
    if spec_evaluate(b) == Player::Computer {
        1
    } else if spec_evaluate(b) == Player::Human {
        -1
    } else {
        0
    }
}

/// The cells after `player` marks cell `at` (1-based).
pub open spec fn place(b: Seq<Player>, at: int, player: Player) -> Seq<Player> {
    b.update(at - 1, player)
}

/// Some cell with index in j..=9 is empty.
pub open spec fn has_empty_from(b: Seq<Player>, j: int) -> bool {
    exists|m: int| j <= m <= 9 && #[trigger] empty_at(b, m)
}

/// A candidate score strictly beats the running best: strictly higher
/// for the maximizer, strictly lower for the minimizer, so the first
/// candidate wins ties.
pub open spec fn improves(player: Player, s: int, best_score: int) -> bool {
    if is_maximizer(player) {
        s > best_score
    } else {
        s < best_score
    }
}

/// The running best a scan starts from: worse than any real leaf score,
/// so the first real candidate always replaces it.
pub open spec fn sentinel(player: Player) -> int {
    if is_maximizer(player) {
        -50
    } else {
        50
    }
}

/// The optimal `(position, score)` for `player` to move on `b` with
/// `depth` plies left: the value that `minimax` computes. At a leaf
/// (no depth left, a decided board, or no empty cell) the pair is the
/// leaf evaluation with position -1; otherwise the best continuation,
/// ties broken towards the lowest cell index.
pub open spec fn spec_search(b: Seq<Player>, depth: int, player: Player) -> (int, int)
    decreases depth, 12int,
{
    if depth <= 0 || leaf_score(b) != 0 || !has_empty_from(b, 1) {
        (-1, leaf_score(b))
    } else {
        spec_scan(b, depth, player, 1, -1, sentinel(player))
    }
}

/// Folds the candidate moves with index `i..=9` over the running best
/// `(best_pos, best_score)`, replacing it whenever a candidate strictly
/// improves it.
pub open spec fn spec_scan(
    b: Seq<Player>,
    depth: int,
    player: Player,
    i: int,
    best_pos: int,
    best_score: int,
) -> (int, int)
    decreases depth, 11 - i,
{
    if depth <= 0 || i < 1 || i > 9 {
        (best_pos, best_score)
    } else if empty_at(b, i) {
        if improves(player, child_score(b, depth, player, i), best_score) {
            spec_scan(b, depth, player, i + 1, i, child_score(b, depth, player, i))
        } else {
            spec_scan(b, depth, player, i + 1, best_pos, best_score)
        }
    } else {
        spec_scan(b, depth, player, i + 1, best_pos, best_score)
    }
}

/// Score of the continuation in which `player` marks cell `at` and the
/// opponent plays on one ply deeper.
pub open spec fn child_score(b: Seq<Player>, depth: int, player: Player, at: int) -> int
    decreases depth, 0int,
{
    if depth <= 0 {
        0
    } else {
        spec_search(place(b, at, player), depth - 1, opponent_of(player)).1
    }
}

/// The better of a running best `a` and a candidate `b` for `player`:
/// the maximum for the maximizer, the minimum for the minimizer.
pub open spec fn meet(player: Player, a: int, b: int) -> int {
    if improves(player, b, a) {
        b
    } else {
        a
    }
}

/// The best score among the candidate moves with index `i..=9`, starting
/// from the sentinel: what a scan achieves before mixing in a caller's
/// running best.
pub open spec fn rest_best(b: Seq<Player>, depth: int, player: Player, i: int) -> int {
    spec_scan(b, depth, player, i, -1, sentinel(player)).1
}

/// The scan index a loop over the cache stands at: entry `j`'s cell
/// index, or 10 once the cache is exhausted.
pub open spec fn scan_idx(a: Seq<u8>, j: int) -> int {
    if j < a.len() {
        a[j] as int
    } else {
        10
    }
}

/// A scan passes over a stretch of occupied cells without change.
proof fn lemma_scan_skip(
    b: Seq<Player>,
    depth: int,
    player: Player,
    i: int,
    j: int,
    bp: int,
    bs: int,
)
    requires
        1 <= i <= j <= 10,
        forall|m: int| i <= m < j ==> !empty_at(b, m),
    ensures
        spec_scan(b, depth, player, i, bp, bs) == spec_scan(b, depth, player, j, bp, bs),
    decreases j - i,
{
    if i < j {
        assert(!empty_at(b, i));
        lemma_scan_skip(b, depth, player, i + 1, j, bp, bs);
    }
}

/// On a well-formed board every cell below the first cached index is
/// occupied, and the cache is empty exactly when the board is full.
proof fn lemma_avail_start(board: &Board)
    requires
        board.well_formed(),
    ensures
        forall|m: int|
            1 <= m < scan_idx(board.avail(), 0) ==> !empty_at(board.cells(), m),
        board.avail().len() == 0 <==> !has_empty_from(board.cells(), 1),
{
    let a = board.avail();
    assert forall|m: int| 1 <= m < scan_idx(a, 0) implies !empty_at(board.cells(), m) by {
        if empty_at(board.cells(), m) {
            assert(m <= 9);
            assert(a.contains(m as u8));
            let w = choose|w: int| 0 <= w < a.len() && a[w] == m as u8;
            if w > 0 {
                assert(a[0] < a[w]);
            }
        }
    }
    if a.len() == 0 {
        assert forall|m: int| !(1 <= m <= 9 && #[trigger] empty_at(board.cells(), m)) by {
            if 1 <= m <= 9 && empty_at(board.cells(), m) {
                assert(a.contains(m as u8));
            }
        }
    } else {
        assert(empty_at(board.cells(), a[0] as int));
    }
}

/// On a well-formed board every cell strictly between cached entry `j`
/// and the next cached entry (or past the last one) is occupied.
proof fn lemma_avail_step(board: &Board, j: int)
    requires
        board.well_formed(),
        0 <= j < board.avail().len(),
    ensures
        forall|m: int|
            board.avail()[j] < m < scan_idx(board.avail(), j + 1) ==> !empty_at(board.cells(), m),
{
    let a = board.avail();
    let nxt = scan_idx(a, j + 1);
    assert forall|m: int| a[j] < m < nxt implies !empty_at(board.cells(), m) by {
        if empty_at(board.cells(), m) {
            assert(1 <= m <= 9);
            assert(a.contains(m as u8));
            let w = choose|w: int| 0 <= w < a.len() && a[w] == m as u8;
            if w < j {
                assert(a[w] < a[j]);
            } else if w == j {
                assert(a[w] == a[j]);
            } else {
                assert(j + 1 < a.len());
                if w > j + 1 {
                    assert(a[j + 1] < a[w]);
                }
            }
        }
    }
}

/// Every reachable score is flat: +1, 0 or -1. Depth does not enter the
/// score, so a win found early and a win found late weigh the same.
pub proof fn lemma_search_score_range(b: Seq<Player>, depth: int, player: Player)
    requires
        is_mover(player),
    ensures
        -1 <= spec_search(b, depth, player).1 <= 1,
    decreases depth, 12int,
{
    if !(depth <= 0 || leaf_score(b) != 0 || !has_empty_from(b, 1)) {
        lemma_scan_split(b, depth, player, 1, -1, sentinel(player));
    }
}

/// A scan's score splits into the caller's running best against the best
/// of the remaining candidates; the latter is a real leaf score whenever
/// a candidate remains, and the sentinel otherwise.
proof fn lemma_scan_split(b: Seq<Player>, depth: int, player: Player, i: int, bp: int, bs: int)
    requires
        is_mover(player),
        depth >= 1,
        1 <= i <= 10,
        is_maximizer(player) ==> bs >= -50,
        !is_maximizer(player) ==> bs <= 50,
    ensures
        spec_scan(b, depth, player, i, bp, bs).1 == meet(player, bs, rest_best(b, depth, player, i)),
        has_empty_from(b, i) ==> -1 <= rest_best(b, depth, player, i) <= 1,
        !has_empty_from(b, i) ==> rest_best(b, depth, player, i) == sentinel(player),
    decreases depth, 11 - i,
{
    if i == 10 {
        assert(!has_empty_from(b, i));
    } else if empty_at(b, i) {
        lemma_search_score_range(place(b, i, player), depth - 1, opponent_of(player));
        let cs = child_score(b, depth, player, i);
        lemma_scan_split(b, depth, player, i + 1, i, cs);
        lemma_scan_split(b, depth, player, i + 1, bp, bs);
        lemma_scan_split(b, depth, player, i + 1, -1, sentinel(player));
        assert(has_empty_from(b, i));
    } else {
        lemma_scan_split(b, depth, player, i + 1, bp, bs);
        lemma_scan_split(b, depth, player, i + 1, -1, sentinel(player));
        assert(has_empty_from(b, i) ==> has_empty_from(b, i + 1)) by {
            if has_empty_from(b, i) {
                let m = choose|m: int| i <= m <= 9 && #[trigger] empty_at(b, m);
                assert(i + 1 <= m <= 9 && empty_at(b, m));
            }
        }
        assert(has_empty_from(b, i + 1) ==> has_empty_from(b, i)) by {
            if has_empty_from(b, i + 1) {
                let m = choose|m: int| i + 1 <= m <= 9 && #[trigger] empty_at(b, m);
                assert(i <= m <= 9 && empty_at(b, m));
            }
        }
    }
}

/// A scan either keeps the running best it was given or settles on a
/// candidate: an empty cell at or past its start, with a real leaf score.
proof fn lemma_scan_pos(b: Seq<Player>, depth: int, player: Player, i: int, bp: int, bs: int)
    requires
        is_mover(player),
        depth >= 1,
        1 <= i <= 10,
    ensures
        ({
            let r = spec_scan(b, depth, player, i, bp, bs);
            (r.0 == bp && r.1 == bs) || (i <= r.0 <= 9 && empty_at(b, r.0) && -1 <= r.1 <= 1)
        }),
    decreases 11 - i,
{
    if i <= 9 && empty_at(b, i) {
        lemma_search_score_range(place(b, i, player), depth - 1, opponent_of(player));
        let cs = child_score(b, depth, player, i);
        if improves(player, cs, bs) {
            lemma_scan_pos(b, depth, player, i + 1, i, cs);
        } else {
            lemma_scan_pos(b, depth, player, i + 1, bp, bs);
        }
    } else if i <= 9 {
        lemma_scan_pos(b, depth, player, i + 1, bp, bs);
    }
}

/// The search cannot fail on a live board: with depth left, no decided
/// line and an empty cell remaining, it names an empty cell to play;
/// only a leaf carries the position -1.
pub proof fn lemma_search_returns_a_move(b: Seq<Player>, depth: int, player: Player)
    requires
        is_mover(player),
    ensures
        (depth >= 1 && leaf_score(b) == 0 && has_empty_from(b, 1)) ==> (1 <= spec_search(
            b,
            depth,
            player,
        ).0 <= 9 && empty_at(b, spec_search(b, depth, player).0)),
        (depth <= 0 || leaf_score(b) != 0 || !has_empty_from(b, 1)) ==> spec_search(
            b,
            depth,
            player,
        ).0 == -1,
{
    if depth >= 1 && leaf_score(b) == 0 && has_empty_from(b, 1) {
        lemma_scan_pos(b, depth, player, 1, -1, sentinel(player));
        lemma_scan_split(b, depth, player, 1, -1, sentinel(player));
        assert(spec_search(b, depth, player).1 == rest_best(b, depth, player, 1));
    }
}

/// Below the value a scan finally reaches, the running best it starts
/// from is immaterial: any two starts strictly worse than that value
/// give the same final pair.
proof fn lemma_scan_acc(
    b: Seq<Player>,
    depth: int,
    player: Player,
    i: int,
    p1: int,
    s1: int,
    p2: int,
    s2: int,
)
    requires
        is_mover(player),
        depth >= 1,
        1 <= i <= 10,
        is_maximizer(player) ==> (s1 >= -50 && s2 >= -50),
        !is_maximizer(player) ==> (s1 <= 50 && s2 <= 50),
        improves(player, spec_scan(b, depth, player, i, p1, s1).1, s1),
        improves(player, spec_scan(b, depth, player, i, p1, s1).1, s2),
    ensures
        spec_scan(b, depth, player, i, p2, s2) == spec_scan(b, depth, player, i, p1, s1),
    decreases 11 - i,
{
    let v = spec_scan(b, depth, player, i, p1, s1).1;
    if i == 10 {
        assert(false);
    } else if empty_at(b, i) {
        lemma_search_score_range(place(b, i, player), depth - 1, opponent_of(player));
        let cs = child_score(b, depth, player, i);
        lemma_scan_split(b, depth, player, i, p1, s1);
        lemma_scan_split(b, depth, player, i + 1, -1, sentinel(player));
        lemma_scan_split(b, depth, player, i + 1, i, cs);
        if improves(player, cs, s1) && improves(player, cs, s2) {
            // both folds adopt the same candidate
        } else if improves(player, cs, s1) {
            // the first fold adopts the candidate, the second keeps its start
            assert(improves(player, v, cs));
            lemma_scan_acc(b, depth, player, i + 1, i, cs, p2, s2);
        } else if improves(player, cs, s2) {
            assert(improves(player, v, cs));
            lemma_scan_acc(b, depth, player, i + 1, p1, s1, i, cs);
        } else {
            lemma_scan_acc(b, depth, player, i + 1, p1, s1, p2, s2);
        }
    } else {
        lemma_scan_acc(b, depth, player, i + 1, p1, s1, p2, s2);
    }
}

/// No single candidate beats the best of the candidates it stands among.
proof fn lemma_rest_best_bounds(b: Seq<Player>, depth: int, player: Player, i: int, m: int)
    requires
        is_mover(player),
        depth >= 1,
        1 <= i <= m <= 9,
        empty_at(b, m),
    ensures
        is_maximizer(player) ==> child_score(b, depth, player, m) <= rest_best(
            b,
            depth,
            player,
            i,
        ),
        !is_maximizer(player) ==> child_score(b, depth, player, m) >= rest_best(
            b,
            depth,
            player,
            i,
        ),
    decreases m - i,
{
    if empty_at(b, i) {
        lemma_search_score_range(place(b, i, player), depth - 1, opponent_of(player));
        let cs = child_score(b, depth, player, i);
        lemma_scan_split(b, depth, player, i + 1, i, cs);
    } else {
        lemma_scan_split(b, depth, player, i + 1, -1, sentinel(player));
    }
    if i < m {
        lemma_rest_best_bounds(b, depth, player, i + 1, m);
    }
}

/// Exhaustive game-tree search: explores every continuation of `board`
/// up to `depth` plies and returns the move that is best for `player`
/// against optimal replies, together with its score. Ties go to the
/// lowest cell index; at a leaf the position is -1.
pub fn minimax(board: &Board, depth: i8, player: Player) -> (r: OptimalMove)
    requires
        board.well_formed(),
        is_mover(player),
        0 <= depth,
    ensures
        r.position as int == spec_search(board.cells(), depth as int, player).0,
        r.score as int == spec_search(board.cells(), depth as int, player).1,
    decreases depth,
{
    let opponent: Player;
    let mut optimal: OptimalMove;
    if player == Player::Computer {
        opponent = Player::Human;
        optimal = OptimalMove { position: -1, score: -50 };
    } else {
        opponent = Player::Computer;
        optimal = OptimalMove { position: -1, score: 50 };
    }

    let evaluation = board.evaluate();
    let score: i8 = match evaluation {
        Player::Computer => 1,
        Player::Human => -1,
        _ => 0,
    };
    proof {
        lemma_avail_start(board);
    }
    if depth == 0 || score != 0 || board.available_positions.len() == 0 {
        return OptimalMove { position: -1, score };
    }

    let ghost cells = board.cells();
    let ghost d = depth as int;
    let ghost goal = spec_scan(cells, d, player, 1, -1, sentinel(player));
    proof {
        lemma_scan_skip(cells, d, player, 1, scan_idx(board.avail(), 0), -1, sentinel(player));
        assert(spec_search(cells, d, player) == goal);
    }
    let len = board.available_positions.len();
    let mut j: usize = 0;
    while j < len
        invariant
            board.well_formed(),
            is_mover(player),
            opponent == opponent_of(player),
            1 <= depth,
            cells == board.cells(),
            d == depth as int,
            len == board.avail().len(),
            j <= len,
            goal == spec_scan(
                cells,
                d,
                player,
                scan_idx(board.avail(), j as int),
                optimal.position as int,
                optimal.score as int,
            ),
        decreases len - j,
    {
        let k = board.available_positions[j];
        proof {
            assert(empty_at(cells, k as int));
        }
        let mut new_board = board.clone();
        let res = new_board.place_move(k, player);
        proof {
            assert(res is Ok);
            assert(new_board.cells() == place(cells, k as int, player));
        }
        let current = minimax(&new_board, depth - 1, opponent);
        proof {
            assert(child_score(cells, d, player, k as int) == current.score as int);
        }
        let improved = if player == Player::Computer {
            current.score > optimal.score
        } else {
            current.score < optimal.score
        };
        let ghost before = optimal;
        if improved {
            optimal = OptimalMove { position: k as i8, score: current.score };
        }
        proof {
            assert(spec_scan(cells, d, player, k as int, before.position as int, before.score as int)
                == spec_scan(cells, d, player, k as int + 1, optimal.position as int, optimal.score as int));
            lemma_avail_step(board, j as int);
            lemma_scan_skip(
                cells,
                d,
                player,
                k as int + 1,
                scan_idx(board.avail(), j as int + 1),
                optimal.position as int,
                optimal.score as int,
            );
        }
        j = j + 1;
    }
    optimal
}

/// Alpha-beta search with the computer to move. Wherever the true value
/// of the position lies strictly inside the `(alpha, beta)` window the
/// result is exactly the `minimax` pair; a value at or outside a bound is
/// only reported on the correct side of that bound, since the skipped
/// candidates could not have mattered to the caller.
fn ab_computer(board: &Board, depth: i8, alpha: i8, beta: i8) -> (r: OptimalMove)
    requires
        board.well_formed(),
        0 <= depth,
        -50 <= alpha,
        alpha < beta,
        beta <= 50,
    ensures
        ({
            let pv = spec_search(board.cells(), depth as int, Player::Computer);
            &&& (alpha < pv.1 && pv.1 < beta) ==> (r.position as int == pv.0 && r.score as int
                == pv.1)
            &&& pv.1 <= alpha ==> r.score <= alpha
            &&& pv.1 >= beta ==> r.score >= beta
            &&& -50 <= r.score <= 50
        }),
    decreases depth,
{
    let mut optimal = OptimalMove { position: -1, score: -50 };
    let evaluation = board.evaluate();
    let score: i8 = match evaluation {
        Player::Computer => 1,
        Player::Human => -1,
        _ => 0,
    };
    proof {
        lemma_avail_start(board);
    }
    if depth == 0 || score != 0 || board.available_positions.len() == 0 {
        return OptimalMove { position: -1, score };
    }

    let ghost cells = board.cells();
    let ghost d = depth as int;
    let ghost pv = spec_search(cells, d, Player::Computer);
    let ghost v = pv.1;
    proof {
        lemma_scan_skip(cells, d, Player::Computer, 1, scan_idx(board.avail(), 0), -1, -50);
        lemma_scan_split(cells, d, Player::Computer, 1, -1, -50);
        assert(v == rest_best(cells, d, Player::Computer, 1));
        assert(-1 <= v <= 1);
    }
    let mut cur_alpha = alpha;
    let mut pruned = false;
    let len = board.available_positions.len();
    let mut j: usize = 0;
    while j < len && !pruned
        invariant
            board.well_formed(),
            cells == board.cells(),
            d == depth as int,
            1 <= depth,
            len == board.avail().len(),
            j <= len,
            -50 <= alpha,
            alpha < beta,
            beta <= 50,
            pv == spec_search(cells, d, Player::Computer),
            v == pv.1,
            v == rest_best(cells, d, Player::Computer, 1),
            -1 <= v <= 1,
            leaf_score(cells) == 0,
            has_empty_from(cells, 1),
            -50 <= optimal.score <= 50,
            alpha <= cur_alpha,
            cur_alpha as int == (if optimal.score > alpha {
                optimal.score as int
            } else {
                alpha as int
            }),
            !pruned ==> cur_alpha < beta,
            pruned ==> optimal.score >= beta,
            v <= alpha ==> optimal.score <= alpha && !pruned,
            (v >= beta && !pruned) ==> meet(
                Player::Computer,
                optimal.score as int,
                rest_best(cells, d, Player::Computer, scan_idx(board.avail(), j as int)),
            ) == v,
            (alpha < v && v < beta) ==> (!pruned && optimal.score as int <= v && spec_scan(
                cells,
                d,
                Player::Computer,
                scan_idx(board.avail(), j as int),
                optimal.position as int,
                optimal.score as int,
            ) == pv),
        decreases len - j,
    {
        let k = board.available_positions[j];
        proof {
            assert(empty_at(cells, k as int));
            assert(scan_idx(board.avail(), j as int) == k as int);
        }
        let mut new_board = board.clone();
        let res = new_board.place_move(k, Player::Computer);
        proof {
            assert(res is Ok);
            assert(new_board.cells() == place(cells, k as int, Player::Computer));
        }
        let child = ab_human(&new_board, depth - 1, cur_alpha, beta);
        let ghost cv = child_score(cells, d, Player::Computer, k as int);
        let ghost csv = child.score as int;
        proof {
            assert(cv == spec_search(new_board.cells(), d - 1, Player::Human).1);
            lemma_search_score_range(new_board.cells(), d - 1, Player::Human);
            lemma_rest_best_bounds(cells, d, Player::Computer, 1, k as int);
            assert(cv <= v);
            lemma_scan_split(cells, d, Player::Computer, k as int + 1, k as int, cv);
            assert(rest_best(cells, d, Player::Computer, k as int) == meet(
                Player::Computer,
                cv,
                rest_best(cells, d, Player::Computer, k as int + 1),
            ));
            lemma_avail_step(board, j as int);
            lemma_scan_skip(
                cells,
                d,
                Player::Computer,
                k as int + 1,
                scan_idx(board.avail(), j as int + 1),
                -1,
                -50,
            );
            assert(rest_best(cells, d, Player::Computer, k as int + 1) == rest_best(
                cells,
                d,
                Player::Computer,
                scan_idx(board.avail(), j as int + 1),
            ));
        }
        let ghost before = optimal;
        let ghost before_alpha = cur_alpha;
        if child.score > optimal.score {
            optimal = OptimalMove { position: k as i8, score: child.score };
        }
        if optimal.score > cur_alpha {
            cur_alpha = optimal.score;
        }
        if beta <= cur_alpha {
            pruned = true;
        }
        proof {
            let nxt = scan_idx(board.avail(), j as int + 1);
            let ki = k as int;
            let bs = before.score as int;
            let os = optimal.score as int;
            if v <= alpha {
                assert(before_alpha == alpha);
                assert(csv <= alpha);
                assert(os <= alpha);
                assert(!pruned);
            } else if v >= beta {
                if cv >= beta {
                    assert(csv >= beta);
                    assert(bs < beta);
                    assert(os == csv);
                    assert(pruned);
                } else {
                    assert(csv < beta) by {
                        if cv <= before_alpha {
                        } else {
                            assert(before_alpha < cv && cv < beta);
                        }
                    }
                    assert(meet(
                        Player::Computer,
                        bs,
                        meet(Player::Computer, cv, rest_best(cells, d, Player::Computer, nxt)),
                    ) == v);
                    assert(rest_best(cells, d, Player::Computer, nxt) == v);
                    assert(os < beta);
                    assert(!pruned);
                    assert(meet(Player::Computer, os, rest_best(cells, d, Player::Computer, nxt))
                        == v);
                }
            } else {
                // the window case: the scan with the running best as its
                // accumulator still reaches the minimax pair
                let fp = if improves(Player::Computer, cv, bs) {
                    ki
                } else {
                    before.position as int
                };
                let fs = if improves(Player::Computer, cv, bs) {
                    cv
                } else {
                    bs
                };
                assert(spec_scan(cells, d, Player::Computer, ki + 1, fp, fs) == pv);
                if optimal.position as int == fp && os == fs {
                } else {
                    assert(cv <= before_alpha && csv <= before_alpha) by {
                        if before_alpha < cv && cv < beta {
                            assert(csv == cv);
                        }
                    }
                    assert(bs < v);
                    assert(before_alpha < v);
                    assert(improves(Player::Computer, v, fs));
                    assert(improves(Player::Computer, v, os));
                    lemma_scan_acc(
                        cells,
                        d,
                        Player::Computer,
                        ki + 1,
                        fp,
                        fs,
                        optimal.position as int,
                        os,
                    );
                }
                lemma_scan_skip(cells, d, Player::Computer, ki + 1, nxt, optimal.position as int, os);
                assert(spec_scan(cells, d, Player::Computer, nxt, optimal.position as int, os)
                    == pv);
                assert(os <= v);
                assert(!pruned);
            }
        }
        j = j + 1;
    }
    proof {
        if pruned {
            if v <= alpha {
                assert(false);
            }
            if alpha < v && v < beta {
                assert(false);
            }
        } else {
            assert(scan_idx(board.avail(), j as int) == 10);
            if v >= beta {
                assert(rest_best(cells, d, Player::Computer, 10) == -50);
                assert(optimal.score as int == v);
            }
        }
    }
    optimal
}

/// Alpha-beta search with the human to move: the mirror image of
/// `ab_computer`, minimizing the score and tightening `beta` instead.
fn ab_human(board: &Board, depth: i8, alpha: i8, beta: i8) -> (r: OptimalMove)
    requires
        board.well_formed(),
        0 <= depth,
        -50 <= alpha,
        alpha < beta,
        beta <= 50,
    ensures
        ({
            let pv = spec_search(board.cells(), depth as int, Player::Human);
            &&& (alpha < pv.1 && pv.1 < beta) ==> (r.position as int == pv.0 && r.score as int
                == pv.1)
            &&& pv.1 <= alpha ==> r.score <= alpha
            &&& pv.1 >= beta ==> r.score >= beta
            &&& -50 <= r.score <= 50
        }),
    decreases depth,
{
    let mut optimal = OptimalMove { position: -1, score: 50 };
    let evaluation = board.evaluate();
    let score: i8 = match evaluation {
        Player::Computer => 1,
        Player::Human => -1,
        _ => 0,
    };
    proof {
        lemma_avail_start(board);
    }
    if depth == 0 || score != 0 || board.available_positions.len() == 0 {
        return OptimalMove { position: -1, score };
    }

    let ghost cells = board.cells();
    let ghost d = depth as int;
    let ghost pv = spec_search(cells, d, Player::Human);
    let ghost v = pv.1;
    proof {
        lemma_scan_skip(cells, d, Player::Human, 1, scan_idx(board.avail(), 0), -1, 50);
        lemma_scan_split(cells, d, Player::Human, 1, -1, 50);
        assert(v == rest_best(cells, d, Player::Human, 1));
        assert(-1 <= v <= 1);
    }
    let mut cur_beta = beta;
    let mut pruned = false;
    let len = board.available_positions.len();
    let mut j: usize = 0;
    while j < len && !pruned
        invariant
            board.well_formed(),
            cells == board.cells(),
            d == depth as int,
            1 <= depth,
            len == board.avail().len(),
            j <= len,
            -50 <= alpha,
            alpha < beta,
            beta <= 50,
            pv == spec_search(cells, d, Player::Human),
            v == pv.1,
            v == rest_best(cells, d, Player::Human, 1),
            -1 <= v <= 1,
            leaf_score(cells) == 0,
            has_empty_from(cells, 1),
            -50 <= optimal.score <= 50,
            cur_beta <= beta,
            cur_beta as int == (if optimal.score < beta {
                optimal.score as int
            } else {
                beta as int
            }),
            !pruned ==> alpha < cur_beta,
            pruned ==> optimal.score <= alpha,
            v >= beta ==> optimal.score >= beta && !pruned,
            (v <= alpha && !pruned) ==> meet(
                Player::Human,
                optimal.score as int,
                rest_best(cells, d, Player::Human, scan_idx(board.avail(), j as int)),
            ) == v,
            (alpha < v && v < beta) ==> (!pruned && optimal.score as int >= v && spec_scan(
                cells,
                d,
                Player::Human,
                scan_idx(board.avail(), j as int),
                optimal.position as int,
                optimal.score as int,
            ) == pv),
        decreases len - j,
    {
        let k = board.available_positions[j];
        proof {
            assert(empty_at(cells, k as int));
            assert(scan_idx(board.avail(), j as int) == k as int);
        }
        let mut new_board = board.clone();
        let res = new_board.place_move(k, Player::Human);
        proof {
            assert(res is Ok);
            assert(new_board.cells() == place(cells, k as int, Player::Human));
        }
        let child = ab_computer(&new_board, depth - 1, alpha, cur_beta);
        let ghost cv = child_score(cells, d, Player::Human, k as int);
        let ghost csv = child.score as int;
        proof {
            assert(cv == spec_search(new_board.cells(), d - 1, Player::Computer).1);
            lemma_search_score_range(new_board.cells(), d - 1, Player::Computer);
            lemma_rest_best_bounds(cells, d, Player::Human, 1, k as int);
            assert(cv >= v);
            lemma_scan_split(cells, d, Player::Human, k as int + 1, k as int, cv);
            assert(rest_best(cells, d, Player::Human, k as int) == meet(
                Player::Human,
                cv,
                rest_best(cells, d, Player::Human, k as int + 1),
            ));
            lemma_avail_step(board, j as int);
            lemma_scan_skip(
                cells,
                d,
                Player::Human,
                k as int + 1,
                scan_idx(board.avail(), j as int + 1),
                -1,
                50,
            );
            assert(rest_best(cells, d, Player::Human, k as int + 1) == rest_best(
                cells,
                d,
                Player::Human,
                scan_idx(board.avail(), j as int + 1),
            ));
        }
        let ghost before = optimal;
        let ghost before_beta = cur_beta;
        if child.score < optimal.score {
            optimal = OptimalMove { position: k as i8, score: child.score };
        }
        if optimal.score < cur_beta {
            cur_beta = optimal.score;
        }
        if cur_beta <= alpha {
            pruned = true;
        }
        proof {
            let nxt = scan_idx(board.avail(), j as int + 1);
            let ki = k as int;
            let bs = before.score as int;
            let os = optimal.score as int;
            if v >= beta {
                assert(before_beta == beta);
                assert(csv >= beta);
                assert(os >= beta);
                assert(!pruned);
            } else if v <= alpha {
                if cv <= alpha {
                    assert(csv <= alpha);
                    assert(bs > alpha);
                    assert(os == csv);
                    assert(pruned);
                } else {
                    assert(csv > alpha) by {
                        if cv >= before_beta {
                        } else {
                            assert(alpha < cv && cv < before_beta);
                        }
                    }
                    assert(meet(
                        Player::Human,
                        bs,
                        meet(Player::Human, cv, rest_best(cells, d, Player::Human, nxt)),
                    ) == v);
                    assert(rest_best(cells, d, Player::Human, nxt) == v);
                    assert(os > alpha);
                    assert(!pruned);
                    assert(meet(Player::Human, os, rest_best(cells, d, Player::Human, nxt)) == v);
                }
            } else {
                let fp = if improves(Player::Human, cv, bs) {
                    ki
                } else {
                    before.position as int
                };
                let fs = if improves(Player::Human, cv, bs) {
                    cv
                } else {
                    bs
                };
                assert(spec_scan(cells, d, Player::Human, ki + 1, fp, fs) == pv);
                if optimal.position as int == fp && os == fs {
                } else {
                    assert(cv >= before_beta && csv >= before_beta) by {
                        if alpha < cv && cv < before_beta {
                            assert(csv == cv);
                        }
                    }
                    assert(bs > v);
                    assert(before_beta > v);
                    assert(improves(Player::Human, v, fs));
                    assert(improves(Player::Human, v, os));
                    lemma_scan_acc(
                        cells,
                        d,
                        Player::Human,
                        ki + 1,
                        fp,
                        fs,
                        optimal.position as int,
                        os,
                    );
                }
                lemma_scan_skip(cells, d, Player::Human, ki + 1, nxt, optimal.position as int, os);
                assert(spec_scan(cells, d, Player::Human, nxt, optimal.position as int, os) == pv);
                assert(os >= v);
                assert(!pruned);
            }
        }
        j = j + 1;
    }
    proof {
        if pruned {
            if v >= beta {
                assert(false);
            }
            if alpha < v && v < beta {
                assert(false);
            }
        } else {
            assert(scan_idx(board.avail(), j as int) == 10);
            if v <= alpha {
                assert(rest_best(cells, d, Player::Human, 10) == 50);
                assert(optimal.score as int == v);
            }
        }
    }
    optimal
}

/// Alpha-beta pruned game-tree search: the same algorithm family as
/// `minimax` with a `(alpha, beta)` window threaded through the
/// recursion, cutting off candidates that cannot change the outcome.
/// Inside the window the result is exactly the `minimax` pair; in
/// particular any window that spans every leaf score, such as the usual
/// (-50, 50), makes pruning a pure shortcut with an identical answer.
pub fn minimax_alpha_beta(board: &Board, depth: i8, player: Player, alpha: i8, beta: i8) -> (r:
    OptimalMove)
    requires
        board.well_formed(),
        is_mover(player),
        0 <= depth,
        -50 <= alpha,
        alpha < beta,
        beta <= 50,
    ensures
        ({
            let pv = spec_search(board.cells(), depth as int, player);
            &&& (alpha < pv.1 && pv.1 < beta) ==> (r.position as int == pv.0 && r.score as int
                == pv.1)
            &&& pv.1 <= alpha ==> r.score <= alpha
            &&& pv.1 >= beta ==> r.score >= beta
            &&& (alpha < -1 && 1 < beta) ==> (r.position as int == pv.0 && r.score as int == pv.1)
            &&& -50 <= r.score <= 50
        }),
{
    proof {
        lemma_search_score_range(board.cells(), depth as int, player);
    }
    if player == Player::Computer {
        ab_computer(board, depth, alpha, beta)
    } else {
        ab_human(board, depth, alpha, beta)
    }
}

} // verus!
