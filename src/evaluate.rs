use vstd::prelude::*;

use crate::bitboard::{bit, bits_below, lemma_bit_ops, lemma_bits_ext, popcount};
use crate::board::lemma_sides_partition;
use crate::board::{Board, Color, PieceType};
use crate::position::Position;

verus! {

/// The material value of a piece type, in centipawns.
pub open spec fn value_of(p: PieceType) -> int {
    match p {
        PieceType::Pawn => 100,
        PieceType::Knight => 300,
        PieceType::Bishop => 300,
        PieceType::Rook => 500,
        PieceType::Queen => 900,
        PieceType::King => 20000,
    }
}

/// The pawn bonus of each square, seen from White's side.
pub open spec fn pawn_squares() -> Seq<i32> {
    seq![
        0i32, 0i32, 0i32, 0i32, 0i32, 0i32, 0i32, 0i32,
        50i32, 50i32, 50i32, 50i32, 50i32, 50i32, 50i32, 50i32,
        10i32, 10i32, 20i32, 30i32, 30i32, 20i32, 10i32, 10i32,
        5i32, 5i32, 10i32, 25i32, 25i32, 10i32, 5i32, 5i32,
        0i32, 0i32, 0i32, 20i32, 20i32, 0i32, 0i32, 0i32,
        5i32, -5i32, -10i32, 0i32, 0i32, -10i32, -5i32, 5i32,
        5i32, 10i32, 10i32, -20i32, -20i32, 10i32, 10i32, 5i32,
        0i32, 0i32, 0i32, 0i32, 0i32, 0i32, 0i32, 0i32,
    ]
}

/// The knight bonus of each square, seen from White's side.
pub open spec fn knight_squares() -> Seq<i32> {
    seq![
        -50i32, -40i32, -30i32, -30i32, -30i32, -30i32, -40i32, -50i32,
        -40i32, -20i32, 0i32, 0i32, 0i32, 0i32, -20i32, -40i32,
        -30i32, 0i32, 10i32, 15i32, 15i32, 10i32, 0i32, -30i32,
        -30i32, 5i32, 15i32, 20i32, 20i32, 15i32, 5i32, -30i32,
        -30i32, 0i32, 15i32, 20i32, 20i32, 15i32, 0i32, -30i32,
        -30i32, 5i32, 10i32, 15i32, 15i32, 10i32, 5i32, -30i32,
        -40i32, -20i32, 0i32, 5i32, 5i32, 0i32, -20i32, -40i32,
        -50i32, -40i32, -30i32, -30i32, -30i32, -30i32, -40i32, -50i32,
    ]
}

/// The bishop bonus of each square, seen from White's side.
pub open spec fn bishop_squares() -> Seq<i32> {
    seq![
        -20i32, -10i32, -10i32, -10i32, -10i32, -10i32, -10i32, -20i32,
        -10i32, 0i32, 0i32, 0i32, 0i32, 0i32, 0i32, -10i32,
        -10i32, 0i32, 5i32, 10i32, 10i32, 5i32, 0i32, -10i32,
        -10i32, 5i32, 5i32, 10i32, 10i32, 5i32, 5i32, -10i32,
        -10i32, 0i32, 10i32, 10i32, 10i32, 10i32, 0i32, -10i32,
        -10i32, 10i32, 10i32, 10i32, 10i32, 10i32, 10i32, -10i32,
        -10i32, 5i32, 0i32, 0i32, 0i32, 0i32, 5i32, -10i32,
        -20i32, -10i32, -10i32, -10i32, -10i32, -10i32, -10i32, -20i32,
    ]
}

/// The rook bonus of each square, seen from White's side.
pub open spec fn rook_squares() -> Seq<i32> {
    seq![
        0i32, 0i32, 0i32, 0i32, 0i32, 0i32, 0i32, 0i32,
        5i32, 10i32, 10i32, 10i32, 10i32, 10i32, 10i32, 5i32,
        -5i32, 0i32, 0i32, 0i32, 0i32, 0i32, 0i32, -5i32,
        -5i32, 0i32, 0i32, 0i32, 0i32, 0i32, 0i32, -5i32,
        -5i32, 0i32, 0i32, 0i32, 0i32, 0i32, 0i32, -5i32,
        -5i32, 0i32, 0i32, 0i32, 0i32, 0i32, 0i32, -5i32,
        -5i32, 0i32, 0i32, 0i32, 0i32, 0i32, 0i32, -5i32,
        0i32, 0i32, 0i32, 5i32, 5i32, 0i32, 0i32, 0i32,
    ]
}

/// The queen bonus of each square, seen from White's side.
pub open spec fn queen_squares() -> Seq<i32> {
    seq![
        -20i32, -10i32, -10i32, -5i32, -5i32, -10i32, -10i32, -20i32,
        -10i32, 0i32, 0i32, 0i32, 0i32, 0i32, 0i32, -10i32,
        -10i32, 0i32, 5i32, 5i32, 5i32, 5i32, 0i32, -10i32,
        -5i32, 0i32, 5i32, 5i32, 5i32, 5i32, 0i32, -5i32,
        0i32, 0i32, 5i32, 5i32, 5i32, 5i32, 0i32, -5i32,
        -10i32, 5i32, 5i32, 5i32, 5i32, 5i32, 0i32, -10i32,
        -10i32, 0i32, 5i32, 0i32, 0i32, 0i32, 0i32, -10i32,
        -20i32, -10i32, -10i32, -5i32, -5i32, -10i32, -10i32, -20i32,
    ]
}

/// The king bonus of each square, seen from White's side.
pub open spec fn king_squares() -> Seq<i32> {
    seq![
        -30i32, -40i32, -40i32, -50i32, -50i32, -40i32, -40i32, -30i32,
        -30i32, -40i32, -40i32, -50i32, -50i32, -40i32, -40i32, -30i32,
        -30i32, -40i32, -40i32, -50i32, -50i32, -40i32, -40i32, -30i32,
        -30i32, -40i32, -40i32, -50i32, -50i32, -40i32, -40i32, -30i32,
        -20i32, -30i32, -30i32, -40i32, -40i32, -30i32, -30i32, -20i32,
        -10i32, -20i32, -20i32, -20i32, -20i32, -20i32, -20i32, -10i32,
        20i32, 20i32, 0i32, 0i32, 0i32, 0i32, 20i32, 20i32,
        20i32, 30i32, 10i32, 0i32, 0i32, 10i32, 30i32, 20i32,
    ]
}

/// The bonus table of a piece type.
pub open spec fn squares_of(p: PieceType) -> Seq<i32> {
    match p {
        PieceType::Pawn => pawn_squares(),
        PieceType::Knight => knight_squares(),
        PieceType::Bishop => bishop_squares(),
        PieceType::Rook => rook_squares(),
        PieceType::Queen => queen_squares(),
        PieceType::King => king_squares(),
    }
}

/// The bonus of a piece of type `p` and color `c` on square `sq`: Black reads
/// the table upside down.
pub open spec fn bonus(p: PieceType, c: Color, sq: int) -> int {
    match c {
        Color::White => squares_of(p)[sq] as int,
        Color::Black => squares_of(p)[63 - sq] as int,
    }
}

/// The sum of the bonuses of the pieces of type `p` and color `c` on the set
/// squares of `x` below `n`.
pub open spec fn bonus_below(x: u64, n: nat, p: PieceType, c: Color) -> int
    decreases n,
{
    if n == 0 {
        0
    } else {
        bonus_below(x, (n - 1) as nat, p, c) + if bit(x, (n - 1) as u64) {
            bonus(p, c, n - 1)
        } else {
            0
        }
    }
}

/// The material balance of White over Black.
pub open spec fn material(b: Board) -> int {
    material_from(b, 6)
}

/// The material balance counted over the first `k` piece types.
pub open spec fn material_from(b: Board, k: int) -> int
    decreases k,
{
    if k <= 0 {
        0
    } else {
        let p = type_at_index(k - 1);
        material_from(b, k - 1) + (popcount(b.bb(Color::White, p).0) - popcount(
            b.bb(Color::Black, p).0,
        )) * value_of(p)
    }
}

pub open spec fn type_at_index(k: int) -> PieceType {
    if k == 0 {
        PieceType::Pawn
    } else if k == 1 {
        PieceType::Knight
    } else if k == 2 {
        PieceType::Bishop
    } else if k == 3 {
        PieceType::Rook
    } else if k == 4 {
        PieceType::Queen
    } else {
        PieceType::King
    }
}

/// The piece-square balance counted over the first `k` piece types.
pub open spec fn placement_from(b: Board, k: int) -> int
    decreases k,
{
    if k <= 0 {
        0
    } else {
        let p = type_at_index(k - 1);
        placement_from(b, k - 1) + bonus_below(b.bb(Color::White, p).0, 64, p, Color::White)
            - bonus_below(b.bb(Color::Black, p).0, 64, p, Color::Black)
    }
}

/// The piece-square balance of White over Black.
pub open spec fn placement(b: Board) -> int {
    placement_from(b, 6)
}

/// The static score of a position for the side to move.
pub open spec fn score_of(p: Position) -> int {
    let s = material(p.board) + placement(p.board);
    if p.side_to_move == Color::Black {
        -s
    } else {
        s
    }
}

fn pawn_table() -> (r: [i32; 64])
    ensures
        r@ == pawn_squares(),
{
    let r: [i32; 64] = [
        0, 0, 0, 0, 0, 0, 0, 0,
        50, 50, 50, 50, 50, 50, 50, 50,
        10, 10, 20, 30, 30, 20, 10, 10,
        5, 5, 10, 25, 25, 10, 5, 5,
        0, 0, 0, 20, 20, 0, 0, 0,
        5, -5, -10, 0, 0, -10, -5, 5,
        5, 10, 10, -20, -20, 10, 10, 5,
        0, 0, 0, 0, 0, 0, 0, 0,
    ];
    assert(r@ =~= pawn_squares());
    r
}

fn knight_table() -> (r: [i32; 64])
    ensures
        r@ == knight_squares(),
{
    let r: [i32; 64] = [
        -50, -40, -30, -30, -30, -30, -40, -50,
        -40, -20, 0, 0, 0, 0, -20, -40,
        -30, 0, 10, 15, 15, 10, 0, -30,
        -30, 5, 15, 20, 20, 15, 5, -30,
        -30, 0, 15, 20, 20, 15, 0, -30,
        -30, 5, 10, 15, 15, 10, 5, -30,
        -40, -20, 0, 5, 5, 0, -20, -40,
        -50, -40, -30, -30, -30, -30, -40, -50,
    ];
    assert(r@ =~= knight_squares());
    r
}

fn bishop_table() -> (r: [i32; 64])
    ensures
        r@ == bishop_squares(),
{
    let r: [i32; 64] = [
        -20, -10, -10, -10, -10, -10, -10, -20,
        -10, 0, 0, 0, 0, 0, 0, -10,
        -10, 0, 5, 10, 10, 5, 0, -10,
        -10, 5, 5, 10, 10, 5, 5, -10,
        -10, 0, 10, 10, 10, 10, 0, -10,
        -10, 10, 10, 10, 10, 10, 10, -10,
        -10, 5, 0, 0, 0, 0, 5, -10,
        -20, -10, -10, -10, -10, -10, -10, -20,
    ];
    assert(r@ =~= bishop_squares());
    r
}

fn rook_table() -> (r: [i32; 64])
    ensures
        r@ == rook_squares(),
{
    let r: [i32; 64] = [
        0, 0, 0, 0, 0, 0, 0, 0,
        5, 10, 10, 10, 10, 10, 10, 5,
        -5, 0, 0, 0, 0, 0, 0, -5,
        -5, 0, 0, 0, 0, 0, 0, -5,
        -5, 0, 0, 0, 0, 0, 0, -5,
        -5, 0, 0, 0, 0, 0, 0, -5,
        -5, 0, 0, 0, 0, 0, 0, -5,
        0, 0, 0, 5, 5, 0, 0, 0,
    ];
    assert(r@ =~= rook_squares());
    r
}

fn queen_table() -> (r: [i32; 64])
    ensures
        r@ == queen_squares(),
{
    let r: [i32; 64] = [
        -20, -10, -10, -5, -5, -10, -10, -20,
        -10, 0, 0, 0, 0, 0, 0, -10,
        -10, 0, 5, 5, 5, 5, 0, -10,
        -5, 0, 5, 5, 5, 5, 0, -5,
        0, 0, 5, 5, 5, 5, 0, -5,
        -10, 5, 5, 5, 5, 5, 0, -10,
        -10, 0, 5, 0, 0, 0, 0, -10,
        -20, -10, -10, -5, -5, -10, -10, -20,
    ];
    assert(r@ =~= queen_squares());
    r
}

fn king_table() -> (r: [i32; 64])
    ensures
        r@ == king_squares(),
{
    let r: [i32; 64] = [
        -30, -40, -40, -50, -50, -40, -40, -30,
        -30, -40, -40, -50, -50, -40, -40, -30,
        -30, -40, -40, -50, -50, -40, -40, -30,
        -30, -40, -40, -50, -50, -40, -40, -30,
        -20, -30, -30, -40, -40, -30, -30, -20,
        -10, -20, -20, -20, -20, -20, -20, -10,
        20, 20, 0, 0, 0, 0, 20, 20,
        20, 30, 10, 0, 0, 10, 30, 20,
    ];
    assert(r@ =~= king_squares());
    r
}

fn piece_value(p: PieceType) -> (r: i32)
    ensures
        r == value_of(p),
{
    match p {
        PieceType::Pawn => 100,
        PieceType::Knight => 300,
        PieceType::Bishop => 300,
        PieceType::Rook => 500,
        PieceType::Queen => 900,
        PieceType::King => 20000,
    }
}

fn piece_type_at(k: usize) -> (r: PieceType)
    requires
        k < 6,
    ensures
        r == type_at_index(k as int),
{
    if k == 0 {
        PieceType::Pawn
    } else if k == 1 {
        PieceType::Knight
    } else if k == 2 {
        PieceType::Bishop
    } else if k == 3 {
        PieceType::Rook
    } else if k == 4 {
        PieceType::Queen
    } else {
        PieceType::King
    }
}

/// The score of a position for the side to move: material plus piece-square
/// bonuses, for White, negated when Black is to move.
pub fn evaluate(position: &Position) -> (r: i32)
    ensures
        r == score_of(*position),
        -2_000_000 <= r <= 2_000_000,
{
    let mut score: i32 = material_score(&position.board);
    score = score + piece_square_score(&position.board);
    if position.side_to_move == Color::Black {
        score = -score;
    }
    score
}

pub fn material_score(board: &Board) -> (r: i32)
    ensures
        r == material(*board),
        -1_500_000 <= r <= 1_500_000,
{
    proof {
        lemma_material_bound(6);
    }
    let mut score: i32 = 0;
    let mut k: usize = 0;
    while k < 6
        invariant
            k <= 6,
            score == material_from(*board, k as int),
            -(material_bound(k as int)) <= score <= material_bound(k as int),
        decreases 6 - k,
    {
        let p = piece_type_at(k);
        let white_count = board.piece_bitboard(Color::White, p).count() as i32;
        let black_count = board.piece_bitboard(Color::Black, p).count() as i32;
        let value = piece_value(p);
        proof {
            assert(-64 * value <= (white_count - black_count) * value <= 64 * value) by (nonlinear_arith)
                requires
                    0 <= white_count <= 64,
                    0 <= black_count <= 64,
                    0 <= value,
            ;
        }
        proof {
            lemma_material_bound(k as int + 1);
        }
        score = score + (white_count - black_count) * value;
        k = k + 1;
    }
    score
}

/// A bound on the material balance over the first `k` piece types.
pub open spec fn material_bound(k: int) -> int
    decreases k,
{
    if k <= 0 {
        0
    } else {
        material_bound(k - 1) + 64 * value_of(type_at_index(k - 1))
    }
}

proof fn lemma_material_bound(k: int)
    requires
        0 <= k <= 6,
    ensures
        0 <= material_bound(k) <= 1_414_400,
    decreases 6 - k,
{
    assert(material_bound(0) == 0);
    assert(material_bound(1) == 6400);
    assert(material_bound(2) == 25600);
    assert(material_bound(3) == 44800);
    assert(material_bound(4) == 76800);
    assert(material_bound(5) == 134400);
    assert(material_bound(6) == 1414400);
    if k < 6 {
        lemma_material_bound(k + 1);
    }
}

/// The summed bonuses of the pieces of type `p` and color `c`.
fn bonus_sum(bits: u64, p: PieceType, c: Color) -> (r: i32)
    ensures
        r == bonus_below(bits, 64, p, c),
        -3200 <= r <= 3200,
{
    let table = match p {
        PieceType::Pawn => pawn_table(),
        PieceType::Knight => knight_table(),
        PieceType::Bishop => bishop_table(),
        PieceType::Rook => rook_table(),
        PieceType::Queen => queen_table(),
        PieceType::King => king_table(),
    };
    proof {
        assert forall|i: int| 0 <= i < 64 implies -50 <= #[trigger] table@[i] <= 50 by {
            assert(table@ == squares_of(p));
        }
    }
    let mut sum: i32 = 0;
    let mut i: u64 = 0;
    while i < 64
        invariant
            i <= 64,
            table@ == squares_of(p),
            forall|j: int| 0 <= j < 64 ==> -50 <= #[trigger] table@[j] <= 50,
            sum == bonus_below(bits, i as nat, p, c),
            -50 * i <= sum <= 50 * i,
        decreases 64 - i,
    {
        if (bits >> i) & 1 == 1 {
            let idx: usize = match c {
                Color::White => i as usize,
                Color::Black => (63 - i) as usize,
            };
            sum = sum + table[idx];
        }
        i = i + 1;
    }
    sum
}

fn piece_square_score(board: &Board) -> (r: i32)
    ensures
        r == placement(*board),
        -40000 <= r <= 40000,
{
    let mut score: i32 = 0;
    let mut k: usize = 0;
    while k < 6
        invariant
            k <= 6,
            score == placement_from(*board, k as int),
            -6400 * k <= score <= 6400 * k,
        decreases 6 - k,
    {
        let p = piece_type_at(k);
        score = score + bonus_sum(board.piece_bitboard(Color::White, p).0, p, Color::White);
        score = score - bonus_sum(board.piece_bitboard(Color::Black, p).0, p, Color::Black);
        k = k + 1;
    }
    score
}

/// The material-draw rule: only the two kings remain, or three pieces remain
/// and the side with two holds exactly one bishop or exactly one knight.
pub open spec fn insufficient(b: Board) -> bool {
    let total = popcount(b.occupied.0);
    let w = popcount(b.white.0);
    let k = popcount(b.black.0);
    ||| total == 2
    ||| total == 3 && w == 2 && k == 1 && (popcount(b.bb(Color::White, PieceType::Bishop).0) == 1
        || popcount(b.bb(Color::White, PieceType::Knight).0) == 1)
    ||| total == 3 && k == 2 && w == 1 && (popcount(b.bb(Color::Black, PieceType::Bishop).0) == 1
        || popcount(b.bb(Color::Black, PieceType::Knight).0) == 1)
}

pub fn is_insufficient_material(board: &Board) -> (r: bool)
    ensures
        r == insufficient(*board),
{
    let total_pieces = board.occupied.count();
    if total_pieces == 2 {
        return true;
    }
    if total_pieces == 3 {
        let white_pieces = board.white.count();
        let black_pieces = board.black.count();
        if white_pieces == 2 && black_pieces == 1 {
            return board.piece_bitboard(Color::White, PieceType::Bishop).count() == 1
                || board.piece_bitboard(Color::White, PieceType::Knight).count() == 1;
        }
        if black_pieces == 2 && white_pieces == 1 {
            return board.piece_bitboard(Color::Black, PieceType::Bishop).count() == 1
                || board.piece_bitboard(Color::Black, PieceType::Knight).count() == 1;
        }
    }
    false
}

/// How many of the first `n` texts of `s` equal `x`.
pub open spec fn occurrences(s: Seq<String>, x: Seq<char>, n: int) -> nat
    decreases n,
{
    if n <= 0 {
        0
    } else {
        occurrences(s, x, n - 1) + if s[n - 1]@ == x {
            1nat
        } else {
            0nat
        }
    }
}

/// Some position text occurs at least three times among at least six.
pub open spec fn threefold(s: Seq<String>) -> bool {
    s.len() >= 6 && exists|i: int| 0 <= i < s.len() && occurrences(s, #[trigger] s[i]@, s.len() as int) >= 3
}

fn count_equal(positions: &[String], i: usize) -> (r: usize)
    requires
        i < positions@.len(),
    ensures
        r == occurrences(positions@, positions@[i as int]@, positions@.len() as int),
{
    let mut c: usize = 0;
    let mut j: usize = 0;
    while j < positions.len()
        invariant
            i < positions@.len(),
            j <= positions@.len(),
            c == occurrences(positions@, positions@[i as int]@, j as int),
            c <= j,
        decreases positions@.len() - j,
    {
        if positions[j] == positions[i] {
            c = c + 1;
        }
        j = j + 1;
    }
    c
}

pub fn is_threefold_repetition(positions: &[String]) -> (r: bool)
    ensures
        r == threefold(positions@),
{
    if positions.len() < 6 {
        return false;
    }
    let mut i: usize = 0;
    while i < positions.len()
        invariant
            i <= positions@.len(),
            positions@.len() >= 6,
            forall|j: int| 0 <= j < i ==> occurrences(positions@, #[trigger] positions@[j]@, positions@.len() as int) < 3,
        decreases positions@.len() - i,
    {
        if count_equal(positions, i) >= 3 {
            return true;
        }
        i = i + 1;
    }
    false
}

/// Bits of `x` and `y` never coincide.
pub open spec fn bits_disjoint(x: u64, y: u64) -> bool {
    forall|i: u64| i < 64 ==> !(bit(x, i) && bit(y, i))
}

proof fn lemma_bits_below_or(x: u64, y: u64, n: nat)
    requires
        n <= 64,
        bits_disjoint(x, y),
    ensures
        bits_below(x | y, n) == bits_below(x, n) + bits_below(y, n),
    decreases n,
{
    if n > 0 {
        lemma_bits_below_or(x, y, (n - 1) as nat);
        lemma_bit_ops(x, y, (n - 1) as u64);
    }
}

/// The number of pieces of color `c` and type `p`.
pub open spec fn count_of(b: Board, c: Color, p: PieceType) -> nat {
    popcount(b.bb(c, p).0)
}

/// The number of pieces of color `c`, type by type.
pub open spec fn side_count(b: Board, c: Color) -> nat {
    count_of(b, c, PieceType::Pawn) + count_of(b, c, PieceType::Knight) + count_of(
        b,
        c,
        PieceType::Bishop,
    ) + count_of(b, c, PieceType::Rook) + count_of(b, c, PieceType::Queen) + count_of(
        b,
        c,
        PieceType::King,
    )
}

/// A side's set holds exactly its pieces of the six types.
proof fn lemma_side_count(b: Board, c: Color)
    requires
        b.wf(),
    ensures
        popcount(b.side(c).0) == side_count(b, c),
{
    let x0 = b.bb(c, PieceType::Pawn).0;
    let x1 = b.bb(c, PieceType::Knight).0;
    let x2 = b.bb(c, PieceType::Bishop).0;
    let x3 = b.bb(c, PieceType::Rook).0;
    let x4 = b.bb(c, PieceType::Queen).0;
    let x5 = b.bb(c, PieceType::King).0;
    let u1 = x0 | x1;
    let u2 = u1 | x2;
    let u3 = u2 | x3;
    let u4 = u3 | x4;
    let u5 = u4 | x5;
    assert forall|i: u64| i < 64 implies {
        &&& bit(u1, i) == (bit(x0, i) || bit(x1, i))
        &&& bit(u2, i) == (bit(u1, i) || bit(x2, i))
        &&& bit(u3, i) == (bit(u2, i) || bit(x3, i))
        &&& bit(u4, i) == (bit(u3, i) || bit(x4, i))
        &&& bit(u5, i) == (bit(u4, i) || bit(x5, i))
    } by {
        lemma_bit_ops(x0, x1, i);
        lemma_bit_ops(u1, x2, i);
        lemma_bit_ops(u2, x3, i);
        lemma_bit_ops(u3, x4, i);
        lemma_bit_ops(u4, x5, i);
    }
    assert forall|i: u64| i < 64 implies bit(b.side(c).0, i) == bit(u5, i) by {
        assert(b.side(c).has(i as int) == (b.type_at(c, i as int) is Some));
    }
    lemma_bits_ext(b.side(c).0, u5);
    assert forall|i: u64| i < 64 implies {
        &&& !(bit(x0, i) && bit(x1, i))
        &&& !(bit(u1, i) && bit(x2, i))
        &&& !(bit(u2, i) && bit(x3, i))
        &&& !(bit(u3, i) && bit(x4, i))
        &&& !(bit(u4, i) && bit(x5, i))
    } by {
        let k = i as int;
        assert(b.bb(c, PieceType::Pawn).has(k) == bit(x0, i));
        assert(b.bb(c, PieceType::Knight).has(k) == bit(x1, i));
        assert(b.bb(c, PieceType::Bishop).has(k) == bit(x2, i));
        assert(b.bb(c, PieceType::Rook).has(k) == bit(x3, i));
        assert(b.bb(c, PieceType::Queen).has(k) == bit(x4, i));
        assert(b.bb(c, PieceType::King).has(k) == bit(x5, i));
    }
    lemma_bits_below_or(x0, x1, 64);
    lemma_bits_below_or(u1, x2, 64);
    lemma_bits_below_or(u2, x3, 64);
    lemma_bits_below_or(u3, x4, 64);
    lemma_bits_below_or(u4, x5, 64);
}

/// Every piece on the board is White's or Black's.
proof fn lemma_total_count(b: Board)
    requires
        b.wf(),
    ensures
        popcount(b.occupied.0) == side_count(b, Color::White) + side_count(b, Color::Black),
        popcount(b.white.0) == side_count(b, Color::White),
        popcount(b.black.0) == side_count(b, Color::Black),
{
    lemma_side_count(b, Color::White);
    lemma_side_count(b, Color::Black);
    lemma_sides_partition(b);
    assert forall|i: u64| i < 64 implies !(bit(b.white.0, i) && bit(b.black.0, i)) by {
        lemma_bit_ops(b.white.0, b.black.0, i);
        crate::bitboard::lemma_bit_zero(i);
    }
    lemma_bits_below_or(b.white.0, b.black.0, 64);
}

/// The material-draw rule on a board with one king on each side: it holds
/// with nothing else on the board, and with one extra knight or bishop
/// (`extra`, of color `extra_color`), and fails while any pawn, rook or queen remains.
pub proof fn lemma_insufficient_material_rule(b: Board, extra_color: Color, extra: PieceType)
    requires
        b.wf(),
        count_of(b, Color::White, PieceType::King) == 1,
        count_of(b, Color::Black, PieceType::King) == 1,
    ensures
        (forall|c: Color, p: PieceType| p != PieceType::King ==> #[trigger] count_of(b, c, p) == 0)
            ==> insufficient(b),
        (extra == PieceType::Knight || extra == PieceType::Bishop) && count_of(b, extra_color, extra)
            == 1 && (forall|c: Color, p: PieceType|
            p != PieceType::King && !(c == extra_color && p == extra) ==> #[trigger] count_of(b, c, p)
                == 0) ==> insufficient(b),
        (exists|c: Color, p: PieceType|
            (p == PieceType::Pawn || p == PieceType::Rook || p == PieceType::Queen) && #[trigger] count_of(
                b,
                c,
                p,
            ) > 0) ==> !insufficient(b),
{
    lemma_total_count(b);
    assert(popcount(b.bb(Color::White, PieceType::Bishop).0) == count_of(b, Color::White, PieceType::Bishop));
    if forall|c: Color, p: PieceType| p != PieceType::King ==> #[trigger] count_of(b, c, p) == 0 {
        assert(count_of(b, Color::White, PieceType::Pawn) == 0);
        assert(count_of(b, Color::White, PieceType::Knight) == 0);
        assert(count_of(b, Color::White, PieceType::Bishop) == 0);
        assert(count_of(b, Color::White, PieceType::Rook) == 0);
        assert(count_of(b, Color::White, PieceType::Queen) == 0);
        assert(count_of(b, Color::Black, PieceType::Pawn) == 0);
        assert(count_of(b, Color::Black, PieceType::Knight) == 0);
        assert(count_of(b, Color::Black, PieceType::Bishop) == 0);
        assert(count_of(b, Color::Black, PieceType::Rook) == 0);
        assert(count_of(b, Color::Black, PieceType::Queen) == 0);
    }
    if (extra == PieceType::Knight || extra == PieceType::Bishop) && count_of(b, extra_color, extra)
        == 1 && (forall|c: Color, p: PieceType|
        p != PieceType::King && !(c == extra_color && p == extra) ==> #[trigger] count_of(b, c, p)
            == 0) {
        let other = extra_color.other();
        assert(count_of(b, other, PieceType::Pawn) == 0);
        assert(count_of(b, other, PieceType::Knight) == 0);
        assert(count_of(b, other, PieceType::Bishop) == 0);
        assert(count_of(b, other, PieceType::Rook) == 0);
        assert(count_of(b, other, PieceType::Queen) == 0);
        assert(count_of(b, extra_color, PieceType::Pawn) == 0);
        assert(count_of(b, extra_color, PieceType::Rook) == 0);
        assert(count_of(b, extra_color, PieceType::Queen) == 0);
        if extra == PieceType::Knight {
            assert(count_of(b, extra_color, PieceType::Bishop) == 0);
        } else {
            assert(count_of(b, extra_color, PieceType::Knight) == 0);
        }
    }
    if exists|c: Color, p: PieceType|
        (p == PieceType::Pawn || p == PieceType::Rook || p == PieceType::Queen) && #[trigger] count_of(
            b,
            c,
            p,
        ) > 0 {
        let (c, p) = choose|c: Color, p: PieceType|
            (p == PieceType::Pawn || p == PieceType::Rook || p == PieceType::Queen) && #[trigger] count_of(
                b,
                c,
                p,
            ) > 0;
        let other = c.other();
        if popcount(b.occupied.0) == 3 {
            assert(count_of(b, c, p) == 1);
            assert(count_of(b, c, PieceType::Knight) == 0);
            assert(count_of(b, c, PieceType::Bishop) == 0);
            assert(side_count(b, other) == 1);
        }
    }
}

} // verus!
