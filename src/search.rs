use vstd::prelude::*;

use crate::board::{Board, Color, PieceType};
use crate::evaluate::{self, score_of, value_of};
use crate::movegen::{gen_move, generated, is_generated, lemma_generated_fields};
use crate::moves::Move;
use crate::position::{board_after, in_check_at, in_check_spec, move_ok, next_state, no_moves, state_of, stepped, Position, State};
use crate::movegen::move_list;
use crate::evaluate::{material, placement};
use crate::Error;
use vstd::set_lib::{lemma_int_range, lemma_len_subset, set_int_range};

verus! {

/// The widest score window, `i32::MIN + 1 ..= i32::MAX`; its bounds negate
/// without overflow.
pub const SCORE_BOUND: i32 = 2147483647;

#[derive(Debug, Clone, Copy)]
pub struct SearchStats {
    pub nodes_searched: u64,
    pub qnodes_searched: u64,
    pub cutoffs: u64,
    pub depth: u32,
}

impl Default for SearchStats {
    fn default() -> (r: SearchStats)
        ensures
            r.nodes_searched == 0 && r.qnodes_searched == 0 && r.cutoffs == 0 && r.depth == 0,
    {
        SearchStats { nodes_searched: 0, qnodes_searched: 0, cutoffs: 0, depth: 0 }
    }
}

#[derive(Debug, Clone, Copy)]
pub struct SearchResult {
    pub best_move: Option<Move>,
    pub score: i32,
    pub depth: u32,
    pub stats: SearchStats,
}

#[derive(Debug, Clone, Copy)]
pub struct SearchParams {
    pub depth: u32,
    pub time_limit_ms: Option<u64>,
    pub nodes_limit: Option<u64>,
}

impl Default for SearchParams {
    fn default() -> (r: SearchParams)
        ensures
            r.depth == 4 && r.time_limit_ms is None && r.nodes_limit is None,
    {
        SearchParams { depth: 4, time_limit_ms: None, nodes_limit: None }
    }
}

/// The score of a side that is checkmated: -20000 plus the move number, so
/// that a later mate is less bad (held at the top of the score range for
/// move numbers the 32-bit score cannot carry).
pub open spec fn mate_score(p: Position) -> int {
    if p.fullmove_number <= SCORE_BOUND + 20000 {
        -20000 + p.fullmove_number
    } else {
        SCORE_BOUND as int
    }
}

/// The score of a position in which the side to move has no move.
pub open spec fn game_over_score(p: Position) -> int {
    if in_check_spec(p) {
        mate_score(p)
    } else {
        0
    }
}

/// The occupied squares of a board.
pub open spec fn occupied_set(b: Board) -> Set<int> {
    Set::new(|i: int| 0 <= i < 64 && b.at(i) is Some)
}

/// How many pieces stand on the board.
pub open spec fn piece_total(b: Board) -> nat {
    occupied_set(b).len()
}

/// The MVV-LVA value of a capture: ten times the victim's value less the
/// attacker's, or a pawn's value for an en-passant capture.
pub open spec fn capture_value(b: Board, mv: Move) -> int {
    match (b.at(mv.from_sq() as int), b.at(mv.to_sq() as int)) {
        (Some(attacker), Some(victim)) => value_of(victim.piece_type) * 10 - value_of(
            attacker.piece_type,
        ),
        _ => if mv.ep_flag() {
            100
        } else {
            0
        },
    }
}

/// The side to move has a generated move that captures.
pub open spec fn has_capture(p: Position) -> bool {
    exists|m: Move|
        is_generated(p.board, p.side_to_move, m) && (#[trigger] crate::moves::takes_opponent(
            p.board,
            m,
        ) || m.ep_flag())
}

/// The value a promotion adds to a move's ordering key.
pub open spec fn promotion_bonus(mv: Move) -> int {
    match mv.promo() {
        Some(PieceType::Queen) => 900,
        Some(PieceType::Rook) => 500,
        Some(PieceType::Bishop) => 300,
        Some(PieceType::Knight) => 300,
        _ => 0,
    }
}

/// The ordering key of a move: its capture value when it captures, plus its
/// promotion bonus.
pub open spec fn order_key(b: Board, mv: Move) -> int {
    (if crate::moves::takes_opponent(b, mv) || mv.ep_flag() {
        capture_value(b, mv)
    } else {
        0
    }) + promotion_bonus(mv)
}

/// The move captures: an opposing piece stands on its destination, or it is en passant.
pub open spec fn is_cap(b: Board, m: Move) -> bool {
    crate::moves::takes_opponent(b, m) || m.ep_flag()
}

/// The captures among `ms`, in order, each with its MVV-LVA value.
pub open spec fn capture_pairs(b: Board, ms: Seq<Move>) -> Seq<(Move, i32)>
    decreases ms.len(),
{
    if ms.len() == 0 {
        Seq::empty()
    } else {
        capture_pairs(b, ms.drop_last()) + if is_cap(b, ms.last()) {
            seq![(ms.last(), capture_value(b, ms.last()) as i32)]
        } else {
            Seq::empty()
        }
    }
}

/// Each of `ms` with its ordering key.
pub open spec fn keyed(b: Board, ms: Seq<Move>) -> Seq<(Move, i32)> {
    Seq::new(ms.len(), |i: int| (ms[i], order_key(b, ms[i]) as i32))
}

/// The generated moves of a state.
pub open spec fn state_moves(s: State) -> Seq<Move> {
    move_list(s.board, s.side)
}

/// The static score of a state for its side to move.
pub open spec fn state_score(s: State) -> int {
    let v = material(s.board) + placement(s.board);
    if s.side == Color::Black {
        -v
    } else {
        v
    }
}

/// The score of a state whose side to move has no move.
pub open spec fn state_game_over(s: State) -> int {
    if in_check_at(s.board, s.side) {
        if s.full <= SCORE_BOUND + 20000 {
            -20000 + s.full
        } else {
            SCORE_BOUND as int
        }
    } else {
        0
    }
}

/// The captures of a state in the order quiescence tries them.
pub open spec fn capture_order(s: State) -> Seq<(Move, i32)> {
    sort_pairs(capture_pairs(s.board, state_moves(s)))
}

/// The moves of a state in the order alpha-beta tries them.
pub open spec fn move_order(s: State) -> Seq<(Move, i32)> {
    sort_pairs(keyed(s.board, state_moves(s)))
}

/// The fail-hard quiescence value of `s` in the window (`alpha`, `beta`):
/// the static score stands pat, then the captures in order, each worth the
/// negated value of the state it leads to, with a cutoff at `beta`.
pub open spec fn q_value(s: State, alpha: int, beta: int) -> int
    decreases piece_total(s.board), capture_order(s).len() + 1,
{
    let sp = state_score(s);
    if sp >= beta {
        beta
    } else {
        q_loop(
            s,
            0,
            if sp > alpha {
                sp
            } else {
                alpha
            },
            beta,
        )
    }
}

/// Quiescence from the `j`-th capture on, with `a` the best score so far.
pub open spec fn q_loop(s: State, j: int, a: int, beta: int) -> int
    decreases piece_total(s.board), capture_order(s).len() - j,
{
    if j < 0 || j >= capture_order(s).len() {
        a
    } else {
        let mv = capture_order(s)[j].0;
        let t = next_state(s, mv);
        if stepped(s, mv, t) && piece_total(t.board) < piece_total(s.board) {
            let sc = -q_value(t, -beta, -a);
            if sc >= beta {
                beta
            } else {
                q_loop(
                    s,
                    j + 1,
                    if sc > a {
                        sc
                    } else {
                        a
                    },
                    beta,
                )
            }
        } else {
            q_loop(s, j + 1, a, beta)
        }
    }
}

/// The fail-hard negamax value of `s` searched `depth` plies deep in the
/// window (`alpha`, `beta`), ending in quiescence.
pub open spec fn ab_value(s: State, depth: nat, alpha: int, beta: int) -> int
    decreases depth, 1int, 0int,
{
    if depth == 0 {
        q_value(s, alpha, beta)
    } else if state_moves(s).len() == 0 {
        state_game_over(s)
    } else {
        ab_loop(s, depth, 0, alpha, beta)
    }
}

/// Alpha-beta from the `j`-th move in order on, with `a` the best score so far.
pub open spec fn ab_loop(s: State, depth: nat, j: int, a: int, beta: int) -> int
    decreases depth, 0int, move_order(s).len() - j,
{
    if j < 0 || j >= move_order(s).len() || depth == 0 {
        a
    } else {
        let mv = move_order(s)[j].0;
        let t = next_state(s, mv);
        if stepped(s, mv, t) {
            let sc = -ab_value(t, (depth - 1) as nat, -beta, -a);
            if sc >= beta {
                beta
            } else {
                ab_loop(
                    s,
                    depth,
                    j + 1,
                    if sc > a {
                        sc
                    } else {
                        a
                    },
                    beta,
                )
            }
        } else {
            ab_loop(s, depth, j + 1, a, beta)
        }
    }
}

/// The root score of the `k`-th generated move: the negated value of the
/// state it leads to, searched with the full window.
pub open spec fn root_child(s: State, cd: nat, k: int) -> int {
    -ab_value(next_state(s, state_moves(s)[k]), cd, -(SCORE_BOUND as int), SCORE_BOUND - 1)
}

/// Over the first `n` generated moves: the best root score and the index of
/// the first move reaching it.
pub open spec fn root_best(s: State, cd: nat, n: int) -> (int, int)
    decreases n,
{
    if n <= 0 {
        (-(SCORE_BOUND as int), -1)
    } else {
        let prev = root_best(s, cd, n - 1);
        let v = root_child(s, cd, n - 1);
        if n - 1 == 0 || v > prev.0 {
            (v, n - 1)
        } else {
            prev
        }
    }
}

/// The child depth of a search `depth` plies deep (a depth of 0 counts as 1).
pub open spec fn child_depth_of(depth: u32) -> nat {
    (if depth > 0 {
        depth - 1
    } else {
        0
    }) as nat
}

/// The score a search of `s` at `depth` reports.
pub open spec fn searched_score(s: State, depth: u32) -> int {
    if state_moves(s).len() == 0 {
        state_game_over(s)
    } else {
        root_best(s, child_depth_of(depth), state_moves(s).len() as int).0
    }
}

/// The move a search of `s` at `depth` reports.
pub open spec fn searched_move(s: State, depth: u32) -> Option<Move> {
    if state_moves(s).len() == 0 {
        None
    } else {
        Some(state_moves(s)[root_best(s, child_depth_of(depth), state_moves(s).len() as int).1])
    }
}

/// The depth at which iterative deepening from `d` up to `max` stops: the
/// first whose score shows a mate (beyond 10000 either way), else `max`.
pub open spec fn stop_depth(s: State, d: int, max: int) -> int
    decreases max - d,
{
    if d >= max {
        max
    } else {
        let v = searched_score(s, d as u32);
        if v > 10000 || v < -10000 {
            d
        } else {
            stop_depth(s, d + 1, max)
        }
    }
}

/// Capturing shrinks the set of occupied squares by one.
proof fn lemma_capture_shrinks(b: Board, color: Color, mv: Move, b2: Board)
    requires
        b.wf(),
        is_generated(b, color, mv),
        b.at(mv.to_sq() as int) is Some,
        forall|i: int| #[trigger] b2.at(i) == board_after(b, mv, i),
    ensures
        piece_total(b2) < piece_total(b),
{
    let (from, to, p, q) = choose|from: u8, to: u8, p: PieceType, q: Option<PieceType>|
        generated(b, color, from, to, p, q) && mv == #[trigger] gen_move(from, to, p, q);
    lemma_generated_fields(b, color, from, to, p, q);
    assert(b.at(from as int) is Some) by {
        assert(b.bb(color, p).has(from as int));
    }
    let s = occupied_set(b);
    let s2 = occupied_set(b2);
    lemma_int_range(0, 64);
    lemma_len_subset(s, set_int_range(0, 64));
    assert(s2 =~= s.remove(from as int));
    assert(s.contains(from as int));
}

/// The position with the same placement, rights, en-passant square and
/// counters, and no history.
fn child_of(position: &Position) -> (r: Position)
    requires
        position.wf(),
    ensures
        r.wf(),
        r.board == position.board,
        r.side_to_move == position.side_to_move,
        r.castling_rights == position.castling_rights,
        r.en_passant == position.en_passant,
        r.halfmove_clock == position.halfmove_clock,
        r.fullmove_number == position.fullmove_number,
        r.history@.len() == 0,
{
    Position {
        board: position.board,
        side_to_move: position.side_to_move,
        castling_rights: position.castling_rights,
        en_passant: position.en_passant,
        halfmove_clock: position.halfmove_clock,
        fullmove_number: position.fullmove_number,
        history: Vec::new(),
    }
}

/// A generated move can always be played.
proof fn lemma_generated_playable(b: Board, color: Color, mv: Move)
    requires
        b.wf(),
        is_generated(b, color, mv),
    ensures
        move_ok(b, mv),
        !mv.ep_flag(),
{
    let (from, to, p, q) = choose|from: u8, to: u8, p: PieceType, q: Option<PieceType>|
        generated(b, color, from, to, p, q) && mv == #[trigger] gen_move(from, to, p, q);
    lemma_generated_fields(b, color, from, to, p, q);
    assert(b.bb(color, p).has(from as int));
    assert(b.at(from as int) is Some);
}

/// Search for the best move of the side to move, `params.depth` plies deep
/// (a depth of 0 searches as a depth of 1).
pub fn search(position: &Position, params: &SearchParams) -> (r: crate::Result<SearchResult>)
    requires
        position.wf(),
    ensures
        r is Ok,
        r matches Ok(res) ==> -SCORE_BOUND <= res.score <= SCORE_BOUND,
        r matches Ok(res) ==> (no_moves(*position) <==> res.best_move is None),
        r matches Ok(res) ==> no_moves(*position) ==> res.score == game_over_score(*position)
            && res.depth == 0,
        r matches Ok(res) ==> res.best_move matches Some(m) ==> is_generated(
            position.board,
            position.side_to_move,
            m,
        ) && res.depth == params.depth,
        r matches Ok(res) ==> !no_moves(*position) ==> res.stats.nodes_searched > 0,
        r matches Ok(res) ==> res.score == searched_score(state_of(*position), params.depth)
            && res.best_move == searched_move(state_of(*position), params.depth),
        r matches Ok(res) ==> !no_moves(*position) ==> {
            let best = root_best(
                state_of(*position),
                (if params.depth > 0 {
                    params.depth - 1
                } else {
                    0
                }) as nat,
                state_moves(state_of(*position)).len() as int,
            );
            &&& res.score == best.0
            &&& res.best_move == Some(state_moves(state_of(*position))[best.1])
        },
{
    let mut stats = SearchStats::default();
    stats.depth = params.depth;
    let moves = position.generate_moves();
    if moves.len() == 0 {
        return Ok(
            SearchResult { best_move: None, score: evaluate_game_over(position), depth: 0, stats },
        );
    }
    let ghost st = state_of(*position);
    let mut best_move: Option<Move> = None;
    let mut best_score: i32 = -SCORE_BOUND;
    let child_depth = if params.depth > 0 {
        params.depth - 1
    } else {
        0
    };
    let mut i: usize = 0;
    while i < moves.len()
        invariant
            i <= moves@.len(),
            position.wf(),
            forall|k: int| 0 <= k < moves@.len() ==> is_generated(position.board, position.side_to_move, #[trigger] moves@[k]),
            -SCORE_BOUND <= best_score <= SCORE_BOUND,
            i > 0 ==> best_move is Some,
            best_move matches Some(m) ==> is_generated(position.board, position.side_to_move, m),
            best_move is None ==> best_score == -SCORE_BOUND,
            i > 0 ==> stats.nodes_searched > 0,
            st == state_of(*position),
            moves@ == state_moves(st),
            i == 0 ==> best_move is None,
            i > 0 ==> 0 <= root_best(st, child_depth as nat, i as int).1 < i,
            i > 0 ==> best_score == root_best(st, child_depth as nat, i as int).0,
            i > 0 ==> best_move == Some(moves@[root_best(st, child_depth as nat, i as int).1]),
        decreases moves@.len() - i,
    {
        let mv = moves[i];
        assert(is_generated(position.board, position.side_to_move, moves@[i as int]));
        let mut child = child_of(position);
        proof {
            lemma_generated_playable(position.board, position.side_to_move, mv);
        }
        let ghost before_child = child;
        match child.make_move(&mv) {
            Ok(()) => {},
            Err(e) => return Err(e),
        }
        proof {
            assert(state_of(before_child) == st);
            crate::position::lemma_made_next(before_child, mv, child);
        }
        let score = -alpha_beta(&child, child_depth, -SCORE_BOUND, SCORE_BOUND - 1, &mut stats);
        proof {
            assert(score == root_child(st, child_depth as nat, i as int));
            let prev = root_best(st, child_depth as nat, i as int);
            assert(root_best(st, child_depth as nat, i + 1) == if i == 0 || score > prev.0 {
                (score as int, i as int)
            } else {
                prev
            });
        }
        if score > best_score || best_move.is_none() {
            best_score = score;
            best_move = Some(mv);
        }
        i = i + 1;
    }
    Ok(SearchResult { best_move, score: best_score, depth: params.depth, stats })
}

/// Negamax with a fail-hard alpha-beta window.
fn alpha_beta(position: &Position, depth: u32, alpha: i32, beta: i32, stats: &mut SearchStats) -> (r:
    i32)
    requires
        position.wf(),
        -SCORE_BOUND <= alpha <= SCORE_BOUND,
        -SCORE_BOUND <= beta <= SCORE_BOUND,
    ensures
        r == ab_value(state_of(*position), depth as nat, alpha as int, beta as int),
        -SCORE_BOUND <= r <= SCORE_BOUND,
        depth > 0 && no_moves(*position) ==> r == game_over_score(*position),
        !(depth > 0 && no_moves(*position)) && alpha <= beta ==> alpha <= r <= beta,
        final(stats).nodes_searched >= old(stats).nodes_searched,
        old(stats).nodes_searched < u64::MAX ==> final(stats).nodes_searched > old(
            stats,
        ).nodes_searched,
        final(stats).nodes_searched > 0,
    decreases depth,
{
    stats.nodes_searched = stats.nodes_searched.saturating_add(1);
    if depth == 0 {
        return quiescence_search(position, alpha, beta, stats);
    }
    let ghost st = state_of(*position);
    let moves = position.generate_moves();
    if moves.len() == 0 {
        return evaluate_game_over(position);
    }
    let mut scored: Vec<(Move, i32)> = Vec::new();
    let mut i: usize = 0;
    while i < moves.len()
        invariant
            i <= moves@.len(),
            position.wf(),
            scored@.len() == i,
            forall|k: int| 0 <= k < i ==> (#[trigger] scored@[k]).0 == moves@[k],
            scored@ =~= keyed(position.board, moves@.subrange(0, i as int)),
        decreases moves@.len() - i,
    {
        let mv = moves[i];
        let key = move_score(position, &mv);
        scored.push((mv, key));
        proof {
            assert(scored@ =~= keyed(position.board, moves@.subrange(0, i + 1)));
        }
        i = i + 1;
    }
    proof {
        assert(moves@.subrange(0, moves@.len() as int) =~= moves@);
    }
    let ordered = order_moves(scored);
    proof {
        assert forall|k: int| 0 <= k < ordered@.len() implies is_generated(
            position.board,
            position.side_to_move,
            (#[trigger] ordered@[k]).0,
        ) by {
            assert(scored@.contains(ordered@[k]));
            let idx = choose|idx: int| 0 <= idx < scored@.len() && scored@[idx] == ordered@[k];
            assert(scored@[idx].0 == moves@[idx]);
        }
    }
    let mut a = alpha;
    let mut j: usize = 0;
    while j < ordered.len()
        invariant
            j <= ordered@.len(),
            position.wf(),
            -SCORE_BOUND <= alpha <= SCORE_BOUND,
            -SCORE_BOUND <= beta <= SCORE_BOUND,
            -SCORE_BOUND <= a <= SCORE_BOUND,
            alpha <= a,
            alpha <= beta ==> a <= beta,
            depth > 0,
            !no_moves(*position),
            st == state_of(*position),
            ordered@ == move_order(st),
            forall|k: int| 0 <= k < ordered@.len() ==> is_generated(
                position.board,
                position.side_to_move,
                (#[trigger] ordered@[k]).0,
            ),
            ab_loop(st, depth as nat, j as int, a as int, beta as int) == ab_value(
                st,
                depth as nat,
                alpha as int,
                beta as int,
            ),
            stats.nodes_searched > 0,
            stats.nodes_searched >= old(stats).nodes_searched,
            old(stats).nodes_searched < u64::MAX ==> stats.nodes_searched > old(
                stats,
            ).nodes_searched,
        decreases ordered@.len() - j,
    {
        let (mv, _) = ordered[j];
        assert(is_generated(position.board, position.side_to_move, ordered@[j as int].0));
        let mut child = child_of(position);
        proof {
            lemma_generated_playable(position.board, position.side_to_move, mv);
        }
        let ghost before_child = child;
        if child.make_move(&mv).is_err() {
            j = j + 1;
            continue ;
        }
        proof {
            assert(state_of(before_child) == st);
            crate::position::lemma_made_next(before_child, mv, child);
        }
        let score = -alpha_beta(&child, depth - 1, -beta, -a, stats);
        if score >= beta {
            stats.cutoffs = stats.cutoffs.saturating_add(1);
            return beta;
        }
        if score > a {
            a = score;
        }
        j = j + 1;
    }
    a
}

/// Extends the search along captures until the position is quiet.
fn quiescence_search(position: &Position, alpha: i32, beta: i32, stats: &mut SearchStats) -> (r: i32)
    requires
        position.wf(),
        -SCORE_BOUND <= alpha <= SCORE_BOUND,
        -SCORE_BOUND <= beta <= SCORE_BOUND,
    ensures
        r == q_value(state_of(*position), alpha as int, beta as int),
        -SCORE_BOUND <= r <= SCORE_BOUND,
        alpha <= beta ==> alpha <= r <= beta,
        alpha <= beta && score_of(*position) >= beta ==> r == beta,
        alpha <= beta ==> r >= score_of(*position) || r == beta,
        final(stats).nodes_searched == old(stats).nodes_searched,
        alpha <= beta && score_of(*position) < beta && !has_capture(*position) ==> r == (if alpha
            >= score_of(*position) {
            alpha as int
        } else {
            score_of(*position)
        }),
    decreases piece_total(position.board),
{
    stats.qnodes_searched = stats.qnodes_searched.saturating_add(1);
    let stand_pat = evaluate::evaluate(position);
    if stand_pat >= beta {
        return beta;
    }
    let mut a = alpha;
    if stand_pat > a {
        a = stand_pat;
    }
    let ghost st = state_of(*position);
    let moves = position.generate_moves();
    let mut scored: Vec<(Move, i32)> = Vec::new();
    let mut i: usize = 0;
    while i < moves.len()
        invariant
            i <= moves@.len(),
            position.wf(),
            st == state_of(*position),
            moves@ == state_moves(st),
            scored@ == capture_pairs(position.board, moves@.subrange(0, i as int)),
            forall|k: int| 0 <= k < moves@.len() ==> is_generated(position.board, position.side_to_move, #[trigger] moves@[k]),
            forall|k: int|
                0 <= k < scored@.len() ==> is_generated(position.board, position.side_to_move, (#[trigger] scored@[k]).0)
                    && position.board.at(scored@[k].0.to_sq() as int) is Some,
            scored@.len() > 0 ==> has_capture(*position),
        decreases moves@.len() - i,
    {
        let mv = moves[i];
        assert(is_generated(position.board, position.side_to_move, moves@[i as int]));
        let ghost pre = scored@;
        proof {
            assert(moves@.subrange(0, i + 1).drop_last() =~= moves@.subrange(0, i as int));
            assert(moves@.subrange(0, i + 1).last() == mv);
        }
        if mv.is_capture(&position.board) {
            proof {
                lemma_generated_playable(position.board, position.side_to_move, mv);
            }
            let key = capture_score(position, &mv);
            scored.push((mv, key));
            proof {
                assert(scored@ =~= pre + seq![(mv, capture_value(position.board, mv) as i32)]);
            }
        } else {
            proof {
                assert(scored@ =~= pre + Seq::<(Move, i32)>::empty());
            }
        }
        i = i + 1;
    }
    proof {
        assert(moves@.subrange(0, moves@.len() as int) =~= moves@);
    }
    let ordered = order_moves(scored);
    let mut j: usize = 0;
    while j < ordered.len()
        invariant
            j <= ordered@.len(),
            position.wf(),
            st == state_of(*position),
            ordered@ == capture_order(st),
            q_loop(st, j as int, a as int, beta as int) == q_value(st, alpha as int, beta as int),
            forall|k: int|
                0 <= k < ordered@.len() ==> is_generated(position.board, position.side_to_move, (#[trigger] ordered@[k]).0)
                    && position.board.at(ordered@[k].0.to_sq() as int) is Some,
            -SCORE_BOUND <= alpha <= SCORE_BOUND,
            -SCORE_BOUND <= beta <= SCORE_BOUND,
            -SCORE_BOUND <= a <= SCORE_BOUND,
            alpha <= a,
            stand_pat <= a,
            stand_pat == score_of(*position),
            stand_pat < beta,
            alpha <= beta ==> a <= beta,
            stats.nodes_searched == old(stats).nodes_searched,
            ordered@.len() > 0 ==> has_capture(*position),
            j == 0 ==> a == (if alpha >= stand_pat {
                alpha
            } else {
                stand_pat
            }),
        decreases ordered@.len() - j,
    {
        let (mv, _) = ordered[j];
        assert(is_generated(position.board, position.side_to_move, ordered@[j as int].0));
        let mut child = child_of(position);
        proof {
            lemma_generated_playable(position.board, position.side_to_move, mv);
        }
        let ghost before_child = child;
        if child.make_move(&mv).is_err() {
            j = j + 1;
            continue ;
        }
        proof {
            lemma_capture_shrinks(position.board, position.side_to_move, mv, child.board);
            assert(state_of(before_child) == st);
            crate::position::lemma_made_next(before_child, mv, child);
        }
        let score = -quiescence_search(&child, -beta, -a, stats);
        if score >= beta {
            return beta;
        }
        if score > a {
            a = score;
        }
        j = j + 1;
    }
    a
}

/// The first index from `j` on whose key is below `k`, or the length.
pub open spec fn first_below(l: Seq<(Move, i32)>, k: i32, j: int) -> int
    decreases l.len() - j,
{
    if j < 0 || j >= l.len() {
        l.len() as int
    } else if l[j].1 < k {
        j
    } else {
        first_below(l, k, j + 1)
    }
}

/// Stable insertion by decreasing key: `item` goes after every entry whose key
/// is at least its own.
pub open spec fn insert_sorted(l: Seq<(Move, i32)>, item: (Move, i32)) -> Seq<(Move, i32)> {
    l.insert(first_below(l, item.1, 0), item)
}

/// The stable sort by decreasing key: a permutation of `l` in which entries
/// with equal keys keep their order.
pub open spec fn sort_pairs(l: Seq<(Move, i32)>) -> Seq<(Move, i32)>
    decreases l.len(),
{
    if l.len() == 0 {
        l
    } else {
        insert_sorted(sort_pairs(l.drop_last()), l.last())
    }
}

/// Sorts scored moves by decreasing score; moves with equal scores keep their order.
fn order_moves(scored: Vec<(Move, i32)>) -> (r: Vec<(Move, i32)>)
    ensures
        r@ == sort_pairs(scored@),
        r@.len() == scored@.len(),
        forall|k: int| 0 <= k < r@.len() ==> scored@.contains(#[trigger] r@[k]),
        forall|a: int, b: int| 0 <= a < b < r@.len() ==> r@[a].1 >= r@[b].1,
{
    let mut out: Vec<(Move, i32)> = Vec::new();
    let mut i: usize = 0;
    while i < scored.len()
        invariant
            i <= scored@.len(),
            out@.len() == i,
            out@ == sort_pairs(scored@.subrange(0, i as int)),
            forall|k: int| 0 <= k < out@.len() ==> scored@.contains(#[trigger] out@[k]),
            forall|a: int, b: int| 0 <= a < b < out@.len() ==> out@[a].1 >= out@[b].1,
        decreases scored@.len() - i,
    {
        let item = scored[i];
        let mut p: usize = 0;
        while p < out.len() && out[p].1 >= item.1
            invariant
                p <= out@.len(),
                forall|k: int| 0 <= k < p ==> out@[k].1 >= item.1,
                first_below(out@, item.1, 0) == first_below(out@, item.1, p as int),
            decreases out@.len() - p,
        {
            p = p + 1;
        }
        let ghost before = out@;
        out.insert(p, item);
        proof {
            assert(first_below(before, item.1, p as int) == p);
            assert(scored@.subrange(0, i + 1).drop_last() =~= scored@.subrange(0, i as int));
            assert(scored@.subrange(0, i + 1).last() == item);
            assert(out@ == sort_pairs(scored@.subrange(0, i + 1)));
            assert(scored@.contains(item)) by {
                assert(scored@[i as int] == item);
            }
            assert forall|k: int| 0 <= k < out@.len() implies scored@.contains(#[trigger] out@[k]) by {
                if k < p {
                    assert(out@[k] == before[k]);
                } else if k > p {
                    assert(out@[k] == before[k - 1]);
                }
            }
            assert forall|a: int, b: int| 0 <= a < b < out@.len() implies out@[a].1 >= out@[b].1 by {
                if b < p {
                    assert(out@[a] == before[a] && out@[b] == before[b]);
                } else if b == p {
                    assert(out@[a] == before[a]);
                } else if a < p {
                    assert(out@[a] == before[a] && out@[b] == before[b - 1]);
                    if p < before.len() {
                        assert(before[p as int].1 < item.1);
                        assert(before[a].1 >= before[p as int].1 || a >= p);
                    }
                } else if a == p {
                    assert(out@[b] == before[b - 1]);
                    assert(before[p as int].1 < item.1);
                    assert(before[p as int].1 >= before[b - 1].1 || b - 1 == p);
                } else {
                    assert(out@[a] == before[a - 1] && out@[b] == before[b - 1]);
                }
            }
        }
        i = i + 1;
    }
    proof {
        assert(scored@.subrange(0, scored@.len() as int) =~= scored@);
    }
    out
}

/// The score of a position in which the side to move has no move: a mate
/// score when in check, a draw otherwise.
fn evaluate_game_over(position: &Position) -> (r: i32)
    requires
        position.wf(),
    ensures
        r == game_over_score(*position),
        -20000 <= r <= SCORE_BOUND,
{
    if position.in_check() {
        let m: i64 = position.fullmove_number as i64 - 20000;
        if m <= SCORE_BOUND as i64 {
            m as i32
        } else {
            SCORE_BOUND
        }
    } else {
        0
    }
}

/// The ordering key of a move at an interior node.
fn move_score(position: &Position, mv: &Move) -> (r: i32)
    requires
        position.wf(),
    ensures
        r == order_key(position.board, *mv),
{
    let mut score: i32 = 0;
    if mv.is_capture(&position.board) {
        score = score + capture_score(position, mv);
    }
    if let Some(promotion) = mv.promotion_piece() {
        score = score + match promotion {
            PieceType::Queen => 900,
            PieceType::Rook => 500,
            PieceType::Bishop => 300,
            PieceType::Knight => 300,
            _ => 0,
        };
    }
    score
}

/// The MVV-LVA value of a capture.
fn capture_score(position: &Position, mv: &Move) -> (r: i32)
    ensures
        r == capture_value(position.board, *mv),
        -20000 <= r <= 200000,
{
    let from_piece = position.board.piece_at(mv.from());
    let to_piece = position.board.piece_at(mv.to());
    match (from_piece, to_piece) {
        (Some(attacker), Some(victim)) => piece_value(victim.piece_type) * 10 - piece_value(
            attacker.piece_type,
        ),
        _ => if mv.is_en_passant() {
            100
        } else {
            0
        },
    }
}

fn piece_value(piece_type: PieceType) -> (r: i32)
    ensures
        r == value_of(piece_type),
        100 <= r <= 20000,
{
    match piece_type {
        PieceType::Pawn => 100,
        PieceType::Knight => 300,
        PieceType::Bishop => 300,
        PieceType::Rook => 500,
        PieceType::Queen => 900,
        PieceType::King => 20000,
    }
}

/// Searches at depths 1, 2, ... up to `max_depth`, stopping early once a mate
/// score shows up; the last completed search is returned.
pub fn iterative_deepening(position: &Position, max_depth: u32, time_limit_ms: Option<u64>) -> (r:
    crate::Result<SearchResult>)
    requires
        position.wf(),
    ensures
        r is Err <==> max_depth == 0,
        r matches Err(e) ==> e is InvalidMove,
        r matches Ok(res) ==> res.best_move matches Some(m) ==> is_generated(
            position.board,
            position.side_to_move,
            m,
        ),
        r matches Ok(res) ==> res.depth <= max_depth,
        r matches Ok(res) ==> res.score == searched_score(
            state_of(*position),
            stop_depth(state_of(*position), 1, max_depth as int) as u32,
        ) && res.best_move == searched_move(
            state_of(*position),
            stop_depth(state_of(*position), 1, max_depth as int) as u32,
        ),
        r matches Ok(res) ==> (res.best_move is None <==> no_moves(*position)),
        r matches Ok(res) ==> no_moves(*position) ==> res.depth == 0 && res.score
            == game_over_score(*position),
        r matches Ok(res) ==> !no_moves(*position) ==> 1 <= res.depth,
        r matches Ok(res) ==> res.depth == max_depth || res.depth == 0 || res.score > 10000
            || res.score < -10000,
{
    let mut best_result: Option<SearchResult> = None;
    let mut depth: u32 = 1;
    while depth <= max_depth
        invariant
            position.wf(),
            1 <= depth,
            depth <= max_depth + 1,
            depth > 1 <==> best_result is Some,
            best_result matches Some(res) ==> res.best_move matches Some(m) ==> is_generated(
                position.board,
                position.side_to_move,
                m,
            ),
            best_result matches Some(res) ==> res.depth == depth - 1 || res.depth == 0,
            best_result matches Some(res) ==> (res.best_move is None <==> no_moves(*position)),
            best_result matches Some(res) ==> no_moves(*position) ==> res.depth == 0 && res.score
                == game_over_score(*position),
            best_result matches Some(res) ==> !no_moves(*position) ==> res.depth == depth - 1,
            depth <= max_depth ==> stop_depth(state_of(*position), 1, max_depth as int)
                == stop_depth(state_of(*position), depth as int, max_depth as int),
            depth > max_depth ==> stop_depth(state_of(*position), 1, max_depth as int)
                == max_depth,
            best_result matches Some(res) ==> res.score == searched_score(
                state_of(*position),
                (depth - 1) as u32,
            ) && res.best_move == searched_move(state_of(*position), (depth - 1) as u32),
        decreases max_depth + 1 - depth,
    {
        let params = SearchParams { depth, time_limit_ms, nodes_limit: None };
        let result = match search(position, &params) {
            Ok(res) => res,
            Err(e) => return Err(e),
        };
        best_result = Some(result);
        if result.score > 10000 || result.score < -10000 {
            return Ok(result);
        }
        if depth == u32::MAX {
            return Ok(result);
        }
        proof {
            if depth < max_depth {
                assert(stop_depth(state_of(*position), depth as int, max_depth as int)
                    == stop_depth(state_of(*position), depth + 1, max_depth as int));
            }
        }
        depth = depth + 1;
    }
    match best_result {
        Some(res) => Ok(res),
        None => Err(Error::InvalidMove("No moves found".to_owned())),
    }
}

} // verus!
