use vstd::prelude::*;

use crate::bitboard::Bitboard;
use crate::board::{Board, Color, PieceType, Square};
use crate::magic_simple::{self as magic, bishop_attack, rook_attack};
use crate::moves::{type_code, Move};

verus! {

/// Whether `t` is one leap of (`dr` ranks, `df` files) away from `sq`.
pub open spec fn leap(sq: int, t: int, dr: int, df: int) -> bool {
    0 <= sq / 8 + dr < 8 && 0 <= sq % 8 + df < 8 && t == (sq / 8 + dr) * 8 + sq % 8 + df
}

pub open spec fn knight_attack(sq: int, t: int) -> bool {
    leap(sq, t, 2, 1) || leap(sq, t, 2, -1) || leap(sq, t, -2, 1) || leap(sq, t, -2, -1) || leap(
        sq,
        t,
        1,
        2,
    ) || leap(sq, t, 1, -2) || leap(sq, t, -1, 2) || leap(sq, t, -1, -2)
}

pub open spec fn king_attack(sq: int, t: int) -> bool {
    leap(sq, t, -1, -1) || leap(sq, t, -1, 0) || leap(sq, t, -1, 1) || leap(sq, t, 0, -1) || leap(
        sq,
        t,
        0,
        1,
    ) || leap(sq, t, 1, -1) || leap(sq, t, 1, 0) || leap(sq, t, 1, 1)
}

/// Where a pawn of `color` on `from` may go: one square ahead onto an empty
/// square, two from its starting rank when both squares ahead are empty, or one
/// square diagonally ahead onto an opposing piece.
pub open spec fn pawn_target(b: Board, color: Color, from: int, t: int) -> bool {
    match color {
        Color::White => {
            ||| (t == from + 8 && from + 8 < 64 && b.empty.has(from + 8))
            ||| (t == from + 16 && from / 8 == 1 && b.empty.has(from + 8) && b.empty.has(from + 16))
            ||| (t == from + 9 && from + 9 < 64 && from % 8 < 7 && b.black.has(from + 9))
            ||| (t == from + 7 && from + 7 < 64 && from % 8 > 0 && b.black.has(from + 7))
        },
        Color::Black => {
            ||| (t == from - 8 && from - 8 >= 0 && b.empty.has(from - 8))
            ||| (t == from - 16 && from / 8 == 6 && b.empty.has(from - 8) && b.empty.has(from - 16))
            ||| (t == from - 7 && from - 7 >= 0 && from % 8 < 7 && b.white.has(from - 7))
            ||| (t == from - 9 && from - 9 >= 0 && from % 8 > 0 && b.white.has(from - 9))
        },
    }
}

/// The squares a piece of type `p` attacks from `from`, before own pieces are removed.
pub open spec fn piece_reach(b: Board, color: Color, p: PieceType, from: int, t: int) -> bool {
    match p {
        PieceType::Pawn => pawn_target(b, color, from, t),
        PieceType::Knight => knight_attack(from, t),
        PieceType::Bishop => bishop_attack(from, b.occupied, t),
        PieceType::Rook => rook_attack(from, b.occupied, t),
        PieceType::Queen => rook_attack(from, b.occupied, t) || bishop_attack(from, b.occupied, t),
        PieceType::King => king_attack(from, t),
    }
}

/// The squares a piece of type `p` of `color` on `from` may move to.
pub open spec fn piece_target(b: Board, color: Color, p: PieceType, from: int, t: int) -> bool {
    piece_reach(b, color, p, from, t) && 0 <= t < 64 && !b.side(color).has(t)
}

/// The last rank of a pawn of `color`.
pub open spec fn promotion_rank(t: int, color: Color) -> bool {
    match color {
        Color::White => t / 8 == 7,
        Color::Black => t / 8 == 0,
    }
}

pub open spec fn promotion_choice(q: PieceType) -> bool {
    q == PieceType::Knight || q == PieceType::Bishop || q == PieceType::Rook || q
        == PieceType::Queen
}

/// Which promotion, if any, a move of `p` to `t` carries: none, except for a
/// pawn reaching its last rank, which promotes to a knight, bishop, rook or queen.
pub open spec fn promo_ok(p: PieceType, color: Color, t: int, q: Option<PieceType>) -> bool {
    if p == PieceType::Pawn && promotion_rank(t, color) {
        q matches Some(x) && promotion_choice(x)
    } else {
        q is None
    }
}

pub open spec fn gen_move(from: u8, to: u8, p: PieceType, q: Option<PieceType>) -> Move {
    match q {
        Some(x) => Move::promoting(from, to, p, x),
        None => Move::plain(from, to, p),
    }
}

/// A move that the generator emits for `color` on board `b`.
pub open spec fn generated(b: Board, color: Color, from: u8, to: u8, p: PieceType, q: Option<PieceType>) -> bool {
    &&& from < 64
    &&& to < 64
    &&& b.bb(color, p).has(from as int)
    &&& piece_target(b, color, p, from as int, to as int)
    &&& promo_ok(p, color, to as int, q)
}

/// Sets the square one leap of (`dr`, `df`) from (`rank`, `file`), if it is on the board.
fn add_leap(attacks: &mut Bitboard, rank: i8, file: i8, dr: i8, df: i8)
    requires
        0 <= rank < 8,
        0 <= file < 8,
        -2 <= dr <= 2,
        -2 <= df <= 2,
    ensures
        forall|t: int|
            final(attacks).has(t) <==> (old(attacks).has(t) || (0 <= rank + dr < 8 && 0 <= file
                + df < 8 && t == (rank + dr) * 8 + file + df)),
{
    let nr = rank + dr;
    let nf = file + df;
    if nr >= 0 && nr < 8 && nf >= 0 && nf < 8 {
        attacks.set_square((nr * 8 + nf) as u8);
    }
}

pub fn compute_knight_attacks(square: u8) -> (r: Bitboard)
    requires
        square < 64,
    ensures
        forall|t: int| r.has(t) <==> knight_attack(square as int, t),
{
    let mut attacks = Bitboard::empty();
    let rank = (square / 8) as i8;
    let file = (square % 8) as i8;
    add_leap(&mut attacks, rank, file, 2, 1);
    add_leap(&mut attacks, rank, file, 2, -1);
    add_leap(&mut attacks, rank, file, -2, 1);
    add_leap(&mut attacks, rank, file, -2, -1);
    add_leap(&mut attacks, rank, file, 1, 2);
    add_leap(&mut attacks, rank, file, 1, -2);
    add_leap(&mut attacks, rank, file, -1, 2);
    add_leap(&mut attacks, rank, file, -1, -2);
    attacks
}

pub fn compute_king_attacks(square: u8) -> (r: Bitboard)
    requires
        square < 64,
    ensures
        forall|t: int| r.has(t) <==> king_attack(square as int, t),
{
    let mut attacks = Bitboard::empty();
    let rank = (square / 8) as i8;
    let file = (square % 8) as i8;
    add_leap(&mut attacks, rank, file, -1, -1);
    add_leap(&mut attacks, rank, file, -1, 0);
    add_leap(&mut attacks, rank, file, -1, 1);
    add_leap(&mut attacks, rank, file, 0, -1);
    add_leap(&mut attacks, rank, file, 0, 1);
    add_leap(&mut attacks, rank, file, 1, -1);
    add_leap(&mut attacks, rank, file, 1, 0);
    add_leap(&mut attacks, rank, file, 1, 1);
    attacks
}

fn is_promotion_rank(square: u8, color: Color) -> (r: bool)
    ensures
        r == promotion_rank(square as int, color),
{
    let rank = square / 8;
    match color {
        Color::White => rank == 7,
        Color::Black => rank == 0,
    }
}

pub fn generate_pawn_moves(board: &Board, color: Color, from: Square) -> (r: Bitboard)
    requires
        from.0 < 64,
    ensures
        forall|t: int| r.has(t) <==> pawn_target(*board, color, from.0 as int, t),
{
    let mut moves = Bitboard::empty();
    let from_idx = from.index();
    match color {
        Color::White => {
            let single_push = from_idx + 8;
            if single_push < 64 && board.empty.has_square(single_push) {
                moves.set_square(single_push);
                if from.is_on_rank(1) {
                    let double_push = from_idx + 16;
                    if double_push < 64 && board.empty.has_square(double_push) {
                        moves.set_square(double_push);
                    }
                }
            }
            let capture_east = from_idx + 9;
            if capture_east < 64 && from.file() < 7 && board.black.has_square(capture_east) {
                moves.set_square(capture_east);
            }
            let capture_west = from_idx + 7;
            if capture_west < 64 && from.file() > 0 && board.black.has_square(capture_west) {
                moves.set_square(capture_west);
            }
        },
        Color::Black => {
            if from_idx >= 8 && board.empty.has_square(from_idx - 8) {
                moves.set_square(from_idx - 8);
                if from.is_on_rank(6) {
                    if from_idx >= 16 && board.empty.has_square(from_idx - 16) {
                        moves.set_square(from_idx - 16);
                    }
                }
            }
            if from_idx >= 7 && from.file() < 7 && board.white.has_square(from_idx - 7) {
                moves.set_square(from_idx - 7);
            }
            if from_idx >= 9 && from.file() > 0 && board.white.has_square(from_idx - 9) {
                moves.set_square(from_idx - 9);
            }
        },
    }
    moves
}

pub fn generate_knight_moves(board: &Board, color: Color, from: Square) -> (r: Bitboard)
    requires
        from.0 < 64,
    ensures
        forall|t: int|
            r.has(t) <==> (knight_attack(from.0 as int, t) && !board.side(color).has(t)),
{
    compute_knight_attacks(from.index()).and(board.color_bitboard(color).not())
}

pub fn generate_bishop_moves(board: &Board, color: Color, from: Square) -> (r: Bitboard)
    requires
        from.0 < 64,
    ensures
        forall|t: int|
            r.has(t) <==> (bishop_attack(from.0 as int, board.occupied, t) && !board.side(
                color,
            ).has(t)),
{
    magic::get_bishop_attacks(from.index(), board.occupied).and(board.color_bitboard(color).not())
}

pub fn generate_bishop_attacks(board: &Board, from: Square) -> (r: Bitboard)
    requires
        from.0 < 64,
    ensures
        forall|t: int| r.has(t) <==> bishop_attack(from.0 as int, board.occupied, t),
{
    magic::get_bishop_attacks(from.index(), board.occupied)
}

pub fn generate_rook_moves(board: &Board, color: Color, from: Square) -> (r: Bitboard)
    requires
        from.0 < 64,
    ensures
        forall|t: int|
            r.has(t) <==> (rook_attack(from.0 as int, board.occupied, t) && !board.side(
                color,
            ).has(t)),
{
    magic::get_rook_attacks(from.index(), board.occupied).and(board.color_bitboard(color).not())
}

pub fn generate_rook_attacks(board: &Board, from: Square) -> (r: Bitboard)
    requires
        from.0 < 64,
    ensures
        forall|t: int| r.has(t) <==> rook_attack(from.0 as int, board.occupied, t),
{
    magic::get_rook_attacks(from.index(), board.occupied)
}

pub fn generate_queen_moves(board: &Board, color: Color, from: Square) -> (r: Bitboard)
    requires
        from.0 < 64,
    ensures
        forall|t: int|
            r.has(t) <==> ((rook_attack(from.0 as int, board.occupied, t) || bishop_attack(
                from.0 as int,
                board.occupied,
                t,
            )) && !board.side(color).has(t)),
{
    magic::get_queen_attacks(from.index(), board.occupied).and(board.color_bitboard(color).not())
}

pub fn generate_king_moves(board: &Board, color: Color, from: Square) -> (r: Bitboard)
    requires
        from.0 < 64,
    ensures
        forall|t: int|
            r.has(t) <==> (king_attack(from.0 as int, t) && !board.side(color).has(t)),
{
    compute_king_attacks(from.index()).and(board.color_bitboard(color).not())
}

/// The squares the piece of type `piece_type` on `from_square` may move to.
pub fn generate_piece_moves(board: &Board, color: Color, piece_type: PieceType, from_square: u8) -> (r:
    Bitboard)
    requires
        from_square < 64,
    ensures
        forall|t: int| r.has(t) <==> piece_target(*board, color, piece_type, from_square as int, t),
{
    let from = Square(from_square);
    let targets = match piece_type {
        PieceType::Pawn => generate_pawn_moves(board, color, from),
        PieceType::Knight => generate_knight_moves(board, color, from),
        PieceType::Bishop => generate_bishop_moves(board, color, from),
        PieceType::Rook => generate_rook_moves(board, color, from),
        PieceType::Queen => generate_queen_moves(board, color, from),
        PieceType::King => generate_king_moves(board, color, from),
    };
    targets.and(board.color_bitboard(color).not())
}

/// The fields of a generated move: its squares, and that they differ.
pub proof fn lemma_generated_fields(b: Board, color: Color, from: u8, to: u8, p: PieceType, q: Option<PieceType>)
    requires
        b.wf(),
        generated(b, color, from, to, p, q),
    ensures
        gen_move(from, to, p, q).from_sq() == from,
        gen_move(from, to, p, q).to_sq() == to,
        gen_move(from, to, p, q).piece_code() == type_code(p),
        gen_move(from, to, p, q).promo() == q,
        gen_move(from, to, p, q).promo_flag() == (q is Some),
        !gen_move(from, to, p, q).ep_flag(),
        !gen_move(from, to, p, q).castle_flag(),
        from != to,
{
    match q {
        Some(x) => Move::lemma_promoting_fields(from, to, p, x),
        None => Move::lemma_plain_fields(from, to, p),
    }
    assert(b.type_at(color, from as int) is Some);
    assert(b.side(color).has(from as int));
}

/// The moves of the piece of type `p` on `from` to square `t`: the four
/// promotions, knight first and queen last, for a pawn reaching its last rank,
/// else the one plain move.
pub open spec fn expand(from: u8, t: int, p: PieceType, color: Color) -> Seq<Move> {
    if p == PieceType::Pawn && promotion_rank(t, color) {
        seq![
            Move::promoting(from, t as u8, p, PieceType::Knight),
            Move::promoting(from, t as u8, p, PieceType::Bishop),
            Move::promoting(from, t as u8, p, PieceType::Rook),
            Move::promoting(from, t as u8, p, PieceType::Queen),
        ]
    } else {
        seq![Move::plain(from, t as u8, p)]
    }
}

/// The moves of the piece of type `p` on `from` to the target squares below
/// `n`, in increasing order of target.
pub open spec fn moves_to(b: Board, color: Color, p: PieceType, from: u8, n: int) -> Seq<Move>
    decreases n,
{
    if n <= 0 {
        Seq::empty()
    } else {
        moves_to(b, color, p, from, n - 1) + if piece_target(b, color, p, from as int, n - 1) {
            expand(from, n - 1, p, color)
        } else {
            Seq::empty()
        }
    }
}

/// The moves of the pieces of type `p` on the squares below `n`, in
/// increasing order of source square.
pub open spec fn moves_from(b: Board, color: Color, p: PieceType, n: int) -> Seq<Move>
    decreases n,
{
    if n <= 0 {
        Seq::empty()
    } else {
        moves_from(b, color, p, n - 1) + if b.bb(color, p).has(n - 1) {
            moves_to(b, color, p, (n - 1) as u8, 64)
        } else {
            Seq::empty()
        }
    }
}

/// The generator's list for `color`: pawn moves first and king moves last.
pub open spec fn move_list(b: Board, color: Color) -> Seq<Move> {
    moves_from(b, color, PieceType::Pawn, 64) + moves_from(b, color, PieceType::Knight, 64)
        + moves_from(b, color, PieceType::Bishop, 64) + moves_from(b, color, PieceType::Rook, 64)
        + moves_from(b, color, PieceType::Queen, 64) + moves_from(b, color, PieceType::King, 64)
}

proof fn lemma_moves_to_gap(b: Board, color: Color, p: PieceType, from: u8, a: int, c: int)
    requires
        0 <= a <= c,
        forall|x: int| a <= x < c ==> !piece_target(b, color, p, from as int, x),
    ensures
        moves_to(b, color, p, from, c) == moves_to(b, color, p, from, a),
    decreases c - a,
{
    if a < c {
        lemma_moves_to_gap(b, color, p, from, a, c - 1);
        assert(moves_to(b, color, p, from, c) =~= moves_to(b, color, p, from, c - 1));
    }
}

proof fn lemma_moves_from_gap(b: Board, color: Color, p: PieceType, a: int, c: int)
    requires
        0 <= a <= c,
        forall|x: int| a <= x < c ==> !b.bb(color, p).has(x),
    ensures
        moves_from(b, color, p, c) == moves_from(b, color, p, a),
    decreases c - a,
{
    if a < c {
        lemma_moves_from_gap(b, color, p, a, c - 1);
        assert(moves_from(b, color, p, c) =~= moves_from(b, color, p, c - 1));
    }
}

/// The move `m` goes from `from` to a square of `targets`.
pub open spec fn emitted_from(m: Move, from: u8, targets: Bitboard, p: PieceType, color: Color) -> bool {
    exists|t: u8, q: Option<PieceType>|
        t < 64 && targets.has(t as int) && promo_ok(p, color, t as int, q) && m == #[trigger] gen_move(
            from,
            t,
            p,
            q,
        )
}

/// Appends one move for each square of `targets`: four when a pawn promotes.
#[verifier::rlimit(80)]
fn push_moves(moves: &mut Vec<Move>, board: &Board, from: u8, targets: Bitboard, p: PieceType, color: Color)
    requires
        from < 64,
        forall|t: int| targets.has(t) <==> piece_target(*board, color, p, from as int, t),
    ensures
        final(moves)@ == old(moves)@ + moves_to(*board, color, p, from, 64),
        old(moves)@.len() <= final(moves)@.len(),
        forall|k: int| 0 <= k < old(moves)@.len() ==> final(moves)@[k] == old(moves)@[k],
        forall|k: int|
            old(moves)@.len() <= k < final(moves)@.len() ==> emitted_from(
                #[trigger] final(moves)@[k],
                from,
                targets,
                p,
                color,
            ),
        forall|t: u8, q: Option<PieceType>|
            t < 64 && targets.has(t as int) && promo_ok(p, color, t as int, q) ==> final(moves)@.contains(#[trigger] gen_move(from, t, p, q)),
{
    let tos = targets.squares().collect();
    let ghost start = moves@;
    proof {
        let lim = if tos@.len() > 0 { tos@[0] as int } else { 64 };
        assert forall|x: int| 0 <= x < lim implies !piece_target(*board, color, p, from as int, x) by {
            if piece_target(*board, color, p, from as int, x) {
                assert(targets.has(x));
                assert(tos@.contains(x as u8));
                let k = choose|k: int| 0 <= k < tos@.len() && tos@[k] == x as u8;
                if k > 0 {
                    assert(tos@[0] < tos@[k]);
                }
            }
        }
        lemma_moves_to_gap(*board, color, p, from, 0, lim);
        assert(moves@ =~= start + moves_to(*board, color, p, from, lim));
    }
    let mut i: usize = 0;
    while i < tos.len()
        invariant
            from < 64,
            i <= tos@.len(),
            forall|t: int| targets.has(t) <==> piece_target(*board, color, p, from as int, t),
            forall|a: int, c: int| 0 <= a < c < tos@.len() ==> tos@[a] < tos@[c],
            moves@ == start + moves_to(
                *board,
                color,
                p,
                from,
                if i < tos@.len() {
                    tos@[i as int] as int
                } else {
                    64
                },
            ),
            forall|k: int| 0 <= k < tos@.len() ==> tos@[k] < 64,
            forall|x: int| 0 <= x < 64 ==> (targets.has(x) <==> tos@.contains(x as u8)),
            start.len() <= moves@.len(),
            forall|k: int| 0 <= k < start.len() ==> moves@[k] == start[k],
            forall|k: int|
                start.len() <= k < moves@.len() ==> emitted_from(
                    #[trigger] moves@[k],
                    from,
                    targets,
                    p,
                    color,
                ),
            forall|j: int, q: Option<PieceType>|
                0 <= j < i && promo_ok(p, color, tos@[j] as int, q) ==> moves@.contains(
                    #[trigger] gen_move(from, tos@[j], p, q),
                ),
        decreases tos@.len() - i,
    {
        let to = tos[i];
        assert(tos@.contains(to));
        let ghost before = moves@;
        if p == PieceType::Pawn && is_promotion_rank(to, color) {
            moves.push(Move::new_promotion(Square(from), Square(to), p, PieceType::Knight));
            moves.push(Move::new_promotion(Square(from), Square(to), p, PieceType::Bishop));
            moves.push(Move::new_promotion(Square(from), Square(to), p, PieceType::Rook));
            moves.push(Move::new_promotion(Square(from), Square(to), p, PieceType::Queen));
            proof {
                let n = before.len() as int;
                assert(moves@[n] == gen_move(from, to, p, Some(PieceType::Knight)));
                assert(moves@[n + 1] == gen_move(from, to, p, Some(PieceType::Bishop)));
                assert(moves@[n + 2] == gen_move(from, to, p, Some(PieceType::Rook)));
                assert(moves@[n + 3] == gen_move(from, to, p, Some(PieceType::Queen)));
                assert(emitted_from(moves@[n], from, targets, p, color));
                assert(emitted_from(moves@[n + 1], from, targets, p, color));
                assert(emitted_from(moves@[n + 2], from, targets, p, color));
                assert(emitted_from(moves@[n + 3], from, targets, p, color));
                assert forall|k: int| 0 <= k < n implies moves@[k] == before[k] by {}
                assert forall|j: int, q: Option<PieceType>|
                    0 <= j < i + 1 && promo_ok(p, color, tos@[j] as int, q) implies moves@.contains(
                    #[trigger] gen_move(from, tos@[j], p, q)) by {
                    if j < i {
                        let k = choose|k: int| 0 <= k < before.len() && before[k] == gen_move(from, tos@[j], p, q);
                        assert(moves@[k] == before[k]);
                    } else {
                        let x = q->0;
                        if x == PieceType::Knight {
                            assert(moves@[n] == gen_move(from, tos@[j], p, q));
                        } else if x == PieceType::Bishop {
                            assert(moves@[n + 1] == gen_move(from, tos@[j], p, q));
                        } else if x == PieceType::Rook {
                            assert(moves@[n + 2] == gen_move(from, tos@[j], p, q));
                        } else {
                            assert(moves@[n + 3] == gen_move(from, tos@[j], p, q));
                        }
                    }
                }
            }
        } else {
            moves.push(Move::new(Square(from), Square(to), p));
            proof {
                let n = before.len() as int;
                assert(moves@[n] == gen_move(from, to, p, None));
                assert(emitted_from(moves@[n], from, targets, p, color));
                assert forall|k: int| 0 <= k < n implies moves@[k] == before[k] by {}
                assert forall|j: int, q: Option<PieceType>|
                    0 <= j < i + 1 && promo_ok(p, color, tos@[j] as int, q) implies moves@.contains(
                    #[trigger] gen_move(from, tos@[j], p, q)) by {
                    if j < i {
                        let k = choose|k: int| 0 <= k < before.len() && before[k] == gen_move(from, tos@[j], p, q);
                        assert(moves@[k] == before[k]);
                    } else {
                        assert(moves@[n] == gen_move(from, tos@[j], p, q));
                    }
                }
            }
        }
        proof {
            let t = to as int;
            assert(moves@ =~= before + expand(from, t, p, color));
            assert(tos@[i as int] == to);
            assert(tos@.contains(to));
            assert(targets.has(t));
            assert(piece_target(*board, color, p, from as int, t));
            assert(moves_to(*board, color, p, from, t + 1) == moves_to(*board, color, p, from, t)
                + expand(from, t, p, color));
            let lim = if i + 1 < tos@.len() { tos@[i + 1] as int } else { 64 };
            assert forall|x: int| t + 1 <= x < lim implies !piece_target(*board, color, p, from as int, x) by {
                if piece_target(*board, color, p, from as int, x) {
                    assert(targets.has(x));
                    assert(tos@.contains(x as u8));
                    let k = choose|k: int| 0 <= k < tos@.len() && tos@[k] == x as u8;
                    if k <= i {
                        if k < i {
                            assert(tos@[k] < tos@[i as int]);
                        }
                    } else if i + 1 < tos@.len() && k > i + 1 {
                        assert(tos@[i + 1] < tos@[k]);
                    }
                }
            }
            lemma_moves_to_gap(*board, color, p, from, t + 1, lim);
        }
        i = i + 1;
    }
    proof {
        assert forall|t: u8, q: Option<PieceType>|
            t < 64 && targets.has(t as int) && promo_ok(p, color, t as int, q) implies moves@.contains(
            #[trigger] gen_move(from, t, p, q)) by {
            assert(tos@.contains(t));
            let j = choose|j: int| 0 <= j < tos@.len() && tos@[j] == t;
            assert(promo_ok(p, color, tos@[j] as int, q));
        }
    }
}

/// The move `m` is one the generator emits for `color` on board `b`.
pub open spec fn is_generated(b: Board, color: Color, m: Move) -> bool {
    exists|from: u8, to: u8, p: PieceType, q: Option<PieceType>|
        generated(b, color, from, to, p, q) && m == #[trigger] gen_move(from, to, p, q)
}

/// Appends the moves of every piece of `color` and type `p`.
fn push_piece_moves(moves: &mut Vec<Move>, board: &Board, color: Color, p: PieceType)
    ensures
        final(moves)@ == old(moves)@ + moves_from(*board, color, p, 64),
        old(moves)@.len() <= final(moves)@.len(),
        forall|k: int| 0 <= k < old(moves)@.len() ==> final(moves)@[k] == old(moves)@[k],
        forall|k: int|
            old(moves)@.len() <= k < final(moves)@.len() ==> is_generated(
                *board,
                color,
                #[trigger] final(moves)@[k],
            ),
        forall|from: u8, to: u8, q: Option<PieceType>|
            generated(*board, color, from, to, p, q) ==> final(moves)@.contains(
                #[trigger] gen_move(from, to, p, q),
            ),
{
    let froms = board.piece_bitboard(color, p).squares().collect();
    let ghost start = moves@;
    proof {
        let lim = if froms@.len() > 0 { froms@[0] as int } else { 64 };
        assert forall|x: int| 0 <= x < lim implies !board.bb(color, p).has(x) by {
            if board.bb(color, p).has(x) {
                assert(froms@.contains(x as u8));
                let k = choose|k: int| 0 <= k < froms@.len() && froms@[k] == x as u8;
                if k > 0 {
                    assert(froms@[0] < froms@[k]);
                }
            }
        }
        lemma_moves_from_gap(*board, color, p, 0, lim);
        assert(moves@ =~= start + moves_from(*board, color, p, lim));
    }
    let mut i: usize = 0;
    while i < froms.len()
        invariant
            i <= froms@.len(),
            forall|a: int, c: int| 0 <= a < c < froms@.len() ==> froms@[a] < froms@[c],
            moves@ == start + moves_from(
                *board,
                color,
                p,
                if i < froms@.len() {
                    froms@[i as int] as int
                } else {
                    64
                },
            ),
            forall|k: int| 0 <= k < froms@.len() ==> froms@[k] < 64,
            forall|x: int|
                0 <= x < 64 ==> (board.bb(color, p).has(x) <==> froms@.contains(x as u8)),
            start.len() <= moves@.len(),
            forall|k: int| 0 <= k < start.len() ==> moves@[k] == start[k],
            forall|k: int|
                start.len() <= k < moves@.len() ==> is_generated(*board, color, #[trigger] moves@[k]),
            forall|j: int, to: u8, q: Option<PieceType>|
                0 <= j < i && generated(*board, color, froms@[j], to, p, q) ==> moves@.contains(
                    #[trigger] gen_move(froms@[j], to, p, q),
                ),
        decreases froms@.len() - i,
    {
        let from = froms[i];
        assert(froms@.contains(from));
        let targets = generate_piece_moves(board, color, p, from);
        let ghost before = moves@;
        push_moves(moves, board, from, targets, p, color);
        proof {
            let f = from as int;
            assert(board.bb(color, p).has(f));
            assert(moves_from(*board, color, p, f + 1) == moves_from(*board, color, p, f) + moves_to(
                *board,
                color,
                p,
                from,
                64,
            ));
            assert(moves@ =~= start + moves_from(*board, color, p, f + 1));
            let lim = if i + 1 < froms@.len() { froms@[i + 1] as int } else { 64 };
            assert forall|x: int| f + 1 <= x < lim implies !board.bb(color, p).has(x) by {
                if board.bb(color, p).has(x) {
                    assert(froms@.contains(x as u8));
                    let k = choose|k: int| 0 <= k < froms@.len() && froms@[k] == x as u8;
                    if k <= i {
                        if k < i {
                            assert(froms@[k] < froms@[i as int]);
                        }
                    } else if i + 1 < froms@.len() && k > i + 1 {
                        assert(froms@[i + 1] < froms@[k]);
                    }
                }
            }
            lemma_moves_from_gap(*board, color, p, f + 1, lim);
            assert forall|k: int|
                start.len() <= k < moves@.len() implies is_generated(*board, color, #[trigger] moves@[k]) by {
                if k < before.len() {
                    assert(moves@[k] == before[k]);
                } else {
                    assert(emitted_from(moves@[k], from, targets, p, color));
                    let (t, q) = choose|t: u8, q: Option<PieceType>|
                        t < 64 && targets.has(t as int) && promo_ok(p, color, t as int, q) && moves@[k] == #[trigger] gen_move(from, t, p, q);
                    assert(generated(*board, color, from, t, p, q));
                }
            }
            assert forall|j: int, to: u8, q: Option<PieceType>|
                0 <= j < i + 1 && generated(*board, color, froms@[j], to, p, q) implies moves@.contains(
                    #[trigger] gen_move(froms@[j], to, p, q)) by {
                if j < i {
                    let k = choose|k: int| 0 <= k < before.len() && before[k] == gen_move(froms@[j], to, p, q);
                    assert(moves@[k] == before[k]);
                } else {
                    assert(targets.has(to as int));
                }
            }
        }
        i = i + 1;
    }
    proof {
        assert forall|from: u8, to: u8, q: Option<PieceType>|
            generated(*board, color, from, to, p, q) implies moves@.contains(#[trigger] gen_move(from, to, p, q)) by {
            assert(froms@.contains(from));
            let j = choose|j: int| 0 <= j < froms@.len() && froms@[j] == from;
            assert(generated(*board, color, froms@[j], to, p, q));
        }
    }
}

/// Every pseudo-legal move of `color`: piece type by piece type from pawn to
/// king, source squares in increasing order, then target squares in increasing
/// order. Castling and en-passant captures are not produced.
pub fn generate_moves(board: &Board, color: Color) -> (r: Vec<Move>)
    requires
        board.wf(),
    ensures
        r@ == move_list(*board, color),
        forall|k: int| 0 <= k < r@.len() ==> is_generated(*board, color, #[trigger] r@[k]),
        forall|from: u8, to: u8, p: PieceType, q: Option<PieceType>|
            generated(*board, color, from, to, p, q) ==> r@.contains(
                #[trigger] gen_move(from, to, p, q),
            ),
        forall|k: int|
            0 <= k < r@.len() ==> (#[trigger] r@[k]).from_sq() != r@[k].to_sq() && r@[k].from_sq()
                < 64 && r@[k].to_sq() < 64,
{
    let mut moves: Vec<Move> = Vec::new();
    push_piece_moves(&mut moves, board, color, PieceType::Pawn);
    let ghost m1 = moves@;
    push_piece_moves(&mut moves, board, color, PieceType::Knight);
    let ghost m2 = moves@;
    push_piece_moves(&mut moves, board, color, PieceType::Bishop);
    let ghost m3 = moves@;
    push_piece_moves(&mut moves, board, color, PieceType::Rook);
    let ghost m4 = moves@;
    push_piece_moves(&mut moves, board, color, PieceType::Queen);
    let ghost m5 = moves@;
    push_piece_moves(&mut moves, board, color, PieceType::King);
    proof {
        assert(moves@ =~= move_list(*board, color));
        assert forall|from: u8, to: u8, p: PieceType, q: Option<PieceType>|
            generated(*board, color, from, to, p, q) implies moves@.contains(#[trigger] gen_move(from, to, p, q)) by {
            let m = gen_move(from, to, p, q);
            let earlier = match p {
                PieceType::Pawn => m1,
                PieceType::Knight => m2,
                PieceType::Bishop => m3,
                PieceType::Rook => m4,
                PieceType::Queen => m5,
                PieceType::King => moves@,
            };
            assert(earlier.contains(m));
            let k = choose|k: int| 0 <= k < earlier.len() && earlier[k] == m;
            assert(moves@[k] == m);
        }
        assert forall|k: int| 0 <= k < moves@.len() implies (#[trigger] moves@[k]).from_sq() != moves@[k].to_sq()
            && moves@[k].from_sq() < 64 && moves@[k].to_sq() < 64 by {
            let (from, to, p, q) = choose|from: u8, to: u8, p: PieceType, q: Option<PieceType>|
                generated(*board, color, from, to, p, q) && moves@[k] == #[trigger] gen_move(from, to, p, q);
            lemma_generated_fields(*board, color, from, to, p, q);
        }
    }
    moves
}

} // verus!
