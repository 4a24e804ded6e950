use vstd::prelude::*;

use crate::bitboard::Bitboard;
use crate::magic_simple::{bishop_attack, ray_on_board, ray_reaches, ray_square, rook_attack};

verus! {

/// Whether `t` is an inner square of the ray from `sq` in direction
/// (`dr`, `df`): on the ray, with the next square of the ray still on the board.
pub open spec fn inner_ray(sq: int, dr: int, df: int, t: int) -> bool {
    exists|k: int| 1 <= k && #[trigger] ray_on_board(sq, dr, df, k + 1) && t == ray_square(sq, dr, df, k)
}

/// The squares whose occupancy can change a rook's attacks from `sq`.
pub open spec fn rook_blockers(sq: int, t: int) -> bool {
    inner_ray(sq, 1, 0, t) || inner_ray(sq, -1, 0, t) || inner_ray(sq, 0, 1, t) || inner_ray(sq, 0, -1, t)
}

/// The squares whose occupancy can change a bishop's attacks from `sq`.
pub open spec fn bishop_blockers(sq: int, t: int) -> bool {
    inner_ray(sq, 1, 1, t) || inner_ray(sq, 1, -1, t) || inner_ray(sq, -1, 1, t) || inner_ray(sq, -1, -1, t)
}

/// A table entry: an occupancy of the relevant squares and the attacks under it.
pub open spec fn rook_entry_ok(sq: int, e: (u64, Bitboard)) -> bool {
    forall|t: int| e.1.has(t) <==> rook_attack(sq, Bitboard(e.0), t)
}

pub open spec fn bishop_entry_ok(sq: int, e: (u64, Bitboard)) -> bool {
    forall|t: int| e.1.has(t) <==> bishop_attack(sq, Bitboard(e.0), t)
}

/// Attack tables for rooks and bishops, indexed by square and then by the
/// magic index of the relevant occupancy. Each entry keeps the occupancy it
/// was computed for, so that a lookup can tell a hit from a collision.
pub struct MagicTables {
    rook: Vec<Vec<(u64, Bitboard)>>,
    bishop: Vec<Vec<(u64, Bitboard)>>,
    rook_params: Vec<(u64, u64, u32)>,
    bishop_params: Vec<(u64, u64, u32)>,
    complete: bool,
}

/// The table index of occupancy `occ` under a mask, a magic multiplier and a shift.
pub open spec fn slot(occ: u64, mask: u64, magic: u64, shift: u32) -> usize {
    (vstd::wrapping::u64_specs::wrapping_mul(occ & mask, magic) >> shift) as usize
}

/// Every subset of `mask` is stored, under its own key, at its index in `row`.
pub open spec fn row_stores_all(row: Seq<(u64, Bitboard)>, mask: u64, magic: u64, shift: u32) -> bool {
    forall|y: u64|
        #![trigger slot(y, mask, magic, shift)]
        y & !mask == 0 ==> slot(y, mask, magic, shift) < row.len() && row[slot(y, mask, magic, shift) as int].0 == y
}

impl MagicTables {
    #[verifier::type_invariant]
    spec fn inv(self) -> bool {
        &&& self.rook@.len() == 64
        &&& self.bishop@.len() == 64
        &&& self.rook_params@.len() == 64
        &&& self.bishop_params@.len() == 64
        &&& forall|sq: int, j: int|
            0 <= sq < 64 && 0 <= j < self.rook@[sq]@.len() ==> rook_entry_ok(sq, #[trigger] self.rook@[sq]@[j])
        &&& forall|sq: int, j: int|
            0 <= sq < 64 && 0 <= j < self.bishop@[sq]@.len() ==> bishop_entry_ok(sq, #[trigger] self.bishop@[sq]@[j])
        &&& forall|sq: int|
            0 <= sq < 64 ==> (#[trigger] self.rook_params@[sq]).2 < 64 && forall|t: int|
                Bitboard(self.rook_params@[sq].0).has(t) <==> rook_blockers(sq, t)
        &&& forall|sq: int|
            0 <= sq < 64 ==> (#[trigger] self.bishop_params@[sq]).2 < 64 && forall|t: int|
                Bitboard(self.bishop_params@[sq].0).has(t) <==> bishop_blockers(sq, t)
        &&& self.complete ==> self.stores_all()
    }

    /// For every square, every subset of its rook mask and of its bishop mask
    /// is stored at its magic index, so that every lookup finds its entry.
    pub closed spec fn stores_all(self) -> bool {
        &&& forall|sq: int|
            0 <= sq < 64 ==> row_stores_all(
                #[trigger] self.rook@[sq]@,
                self.rook_params@[sq].0,
                self.rook_params@[sq].1,
                self.rook_params@[sq].2,
            )
        &&& forall|sq: int|
            0 <= sq < 64 ==> row_stores_all(
                #[trigger] self.bishop@[sq]@,
                self.bishop_params@[sq].0,
                self.bishop_params@[sq].1,
                self.bishop_params@[sq].2,
            )
    }

    /// Whether the magic multipliers sent every subset of every mask to a slot
    /// of its own: then every lookup hits its table entry.
    pub fn is_complete(&self) -> (r: bool)
        ensures
            r ==> self.stores_all(),
    {
        proof {
            use_type_invariant(self);
        }
        self.complete
    }
}

/// Carry-Rippler: the subset of `m` after `x` is the least subset above it.
proof fn lemma_next_subset(x: u64, y: u64, m: u64)
    by (bit_vector)
    requires
        x & !m == 0,
        y & !m == 0,
        x < y,
    ensures
        (x | !m) < 0xffff_ffff_ffff_ffffu64,
        x < (vstd::prelude::add(x | !m, 1) & m),
        (vstd::prelude::add(x | !m, 1) & m) <= y,
        (vstd::prelude::add(x | !m, 1) & m) & !m == 0,
{
}

proof fn lemma_subset_bound(y: u64, m: u64)
    by (bit_vector)
    requires
        y & !m == 0,
    ensures
        y <= m,
        y & m == y,
{
}

proof fn lemma_mask_subsets(m: u64)
    by (bit_vector)
    ensures
        0u64 & !m == 0,
        m & !m == 0,
{
}

/// Whether every subset of `mask` is stored at its index in `row`.
fn check_row(row: &Vec<(u64, Bitboard)>, mask: u64, magic: u64, shift: u32) -> (r: bool)
    requires
        shift < 64,
    ensures
        r ==> row_stores_all(row@, mask, magic, shift),
{
    let mut occ: u64 = 0;
    proof {
        lemma_mask_subsets(mask);
    }
    loop
        invariant
            shift < 64,
            occ & !mask == 0,
            mask & !mask == 0,
            forall|y: u64|
                #![trigger slot(y, mask, magic, shift)]
                y & !mask == 0 && y < occ ==> slot(y, mask, magic, shift) < row@.len()
                    && row@[slot(y, mask, magic, shift) as int].0 == y,
        decreases mask - occ,
    {
        proof {
            lemma_subset_bound(occ, mask);
        }
        let index = magic_index(occ, Bitboard(mask), magic, shift);
        if index >= row.len() || row[index].0 != occ {
            return false;
        }
        if occ == mask {
            proof {
                assert forall|y: u64| #![trigger slot(y, mask, magic, shift)] y & !mask == 0 implies slot(y, mask, magic, shift) < row@.len()
                    && row@[slot(y, mask, magic, shift) as int].0 == y by {
                    lemma_subset_bound(y, mask);
                }
            }
            return true;
        }
        proof {
            lemma_next_subset(occ, mask, mask);
        }
        let next = ((occ | !mask) + 1) & mask;
        proof {
            assert forall|y: u64| #![trigger slot(y, mask, magic, shift)] y & !mask == 0 && y < next implies slot(y, mask, magic, shift) < row@.len()
                && row@[slot(y, mask, magic, shift) as int].0 == y by {
                if y > occ {
                    lemma_next_subset(occ, y, mask);
                }
            }
        }
        occ = next;
    }
}

fn rook_magic(square: usize) -> u64
    requires
        square < 64,
{
    let magics: [u64; 64] = [
        0x0080001020400080, 0x0040001000200040, 0x0080081000200080, 0x0080040800100080,
        0x0080020400080080, 0x0080010200040080, 0x0080008001000200, 0x0080002040800100,
        0x0000800020400080, 0x0000400020005000, 0x0000801000200080, 0x0000800800100080,
        0x0000800400080080, 0x0000800200040080, 0x0000800100020080, 0x0000800040800100,
        0x0000208000400080, 0x0000404000201000, 0x0000808010002000, 0x0000808008001000,
        0x0000808004000800, 0x0000808002000400, 0x0000010100020004, 0x0000020000408104,
        0x0000208080004000, 0x0000200040005000, 0x0000100080200080, 0x0000080080100080,
        0x0000040080080080, 0x0000020080040080, 0x0000010080800200, 0x0000800080004100,
        0x0000204000800080, 0x0000200040401000, 0x0000100080802000, 0x0000080080801000,
        0x0000040080800800, 0x0000020080800400, 0x0000020001010004, 0x0000800040800100,
        0x0000204000808000, 0x0000200040008080, 0x0000100020008080, 0x0000080010008080,
        0x0000040008008080, 0x0000020004008080, 0x0000010002008080, 0x0000004081020004,
        0x0000204000800080, 0x0000200040008080, 0x0000100020008080, 0x0000080010008080,
        0x0000040008008080, 0x0000020004008080, 0x0000800100020080, 0x0000800041000080,
        0x00FFFCDDFCED714A, 0x007FFCDDFCED714A, 0x003FFFCDFFD88096, 0x0000040810002101,
        0x0001000204080011, 0x0001000204000801, 0x0001000082000401, 0x0001FFFAABFAD1A2,
    ];
    magics[square]
}

fn bishop_magic(square: usize) -> u64
    requires
        square < 64,
{
    let magics: [u64; 64] = [
        0x0002020202020200, 0x0002020202020000, 0x0004010202000000, 0x0004040080000000,
        0x0001104000000000, 0x0000821040000000, 0x0000410410400000, 0x0000104104104000,
        0x0000040404040400, 0x0000020202020200, 0x0000040102020000, 0x0000040400800000,
        0x0000011040000000, 0x0000008210400000, 0x0000004104104000, 0x0000002082082000,
        0x0004000808080800, 0x0002000404040400, 0x0001000202020200, 0x0000800802004000,
        0x0000800400A00000, 0x0000200100884000, 0x0000400082082000, 0x0000200041041000,
        0x0002080010101000, 0x0001040008080800, 0x0000208004010400, 0x0000404004010200,
        0x0000840000802000, 0x0000404002011000, 0x0000808001041000, 0x0000404000820800,
        0x0001041000202000, 0x0000820800101000, 0x0000104400080800, 0x0000020080080080,
        0x0000404040040100, 0x0000808100020100, 0x0001010100020800, 0x0000808080010400,
        0x0000820820004000, 0x0000410410002000, 0x0000082088001000, 0x0000002011000800,
        0x0000080100400400, 0x0001010101000200, 0x0000608090A00C00, 0x0001010101000200,
        0x0000804040800100, 0x0001002020200100, 0x000080809000A100, 0x0000808080050100,
        0x0000808080080100, 0x0000808080100100, 0x0000404040004280, 0x0000404040002140,
        0x0000208104000080, 0x0000404040002120, 0x0000208104000040, 0x0000208104000020,
        0x0000208104000010, 0x0000081040000400, 0x0000041040000200, 0x0000021040000100,
    ];
    magics[square]
}

/// Coordinate `x` after `k` steps in direction `d`.
fn step_exec(x: i8, d: i8, k: i8) -> (r: i8)
    requires
        0 <= x < 8,
        -1 <= d <= 1,
        0 <= k <= 8,
    ensures
        r == crate::magic_simple::step(x as int, d as int, k as int),
{
    if d > 0 {
        x + k
    } else if d < 0 {
        x - k
    } else {
        x
    }
}

/// The inner squares of one ray.
fn inner_ray_squares(square: u8, dr: i8, df: i8) -> (r: Bitboard)
    requires
        square < 64,
        -1 <= dr <= 1,
        -1 <= df <= 1,
        dr != 0 || df != 0,
    ensures
        forall|t: int| r.has(t) <==> inner_ray(square as int, dr as int, df as int, t),
{
    let ghost sq = square as int;
    let rank: i8 = (square / 8) as i8;
    let file: i8 = (square % 8) as i8;
    let mut squares = Bitboard::empty();
    let mut k: i8 = 1;
    while k < 8
        invariant
            1 <= k <= 8,
            -1 <= dr <= 1,
            -1 <= df <= 1,
            0 <= sq < 64,
            rank == sq / 8,
            file == sq % 8,
            forall|t: int|
                squares.has(t) <==> exists|j: int|
                    1 <= j < k && #[trigger] ray_on_board(sq, dr as int, df as int, j + 1) && t == ray_square(sq, dr as int, df as int, j),
        decreases 8 - k,
    {
        let r = step_exec(rank, dr, k + 1);
        let f = step_exec(file, df, k + 1);
        let ghost before = squares;
        if 0 <= r && r < 8 && 0 <= f && f < 8 {
            let r1 = step_exec(rank, dr, k);
            let f1 = step_exec(file, df, k);
            squares.set_square((r1 * 8 + f1) as u8);
            proof {
                assert((r1 * 8 + f1) as u8 == ray_square(sq, dr as int, df as int, k as int));
            }
        }
        proof {
            assert(ray_on_board(sq, dr as int, df as int, k + 1) == (0 <= r < 8 && 0 <= f < 8));
        }
        proof {
            assert forall|t: int|
                squares.has(t) <==> exists|j: int|
                    1 <= j < k + 1 && #[trigger] ray_on_board(sq, dr as int, df as int, j + 1) && t == ray_square(sq, dr as int, df as int, j) by {
                if exists|j: int| 1 <= j < k + 1 && #[trigger] ray_on_board(sq, dr as int, df as int, j + 1) && t == ray_square(sq, dr as int, df as int, j) {
                    let j = choose|j: int| 1 <= j < k + 1 && #[trigger] ray_on_board(sq, dr as int, df as int, j + 1) && t == ray_square(sq, dr as int, df as int, j);
                    if j < k {
                        assert(before.has(t));
                    }
                }
            }
        }
        k = k + 1;
    }
    proof {
        assert forall|t: int| squares.has(t) <==> inner_ray(sq, dr as int, df as int, t) by {
            if inner_ray(sq, dr as int, df as int, t) {
                let j = choose|j: int| 1 <= j && #[trigger] ray_on_board(sq, dr as int, df as int, j + 1) && t == ray_square(sq, dr as int, df as int, j);
                assert(j < 8);
            }
        }
    }
    squares
}

/// Masking the occupancy to the inner squares of a ray leaves what the ray reaches unchanged.
proof fn lemma_ray_masked(sq: int, occ: Bitboard, mask: Bitboard, dr: int, df: int, t: int)
    requires
        0 <= sq < 64,
        -1 <= dr <= 1,
        -1 <= df <= 1,
        forall|u: int| inner_ray(sq, dr, df, u) ==> mask.has(u),
    ensures
        ray_reaches(sq, Bitboard(occ.0 & mask.0), dr, df, t) == ray_reaches(sq, occ, dr, df, t),
{
    let masked = Bitboard(occ.0 & mask.0);
    assert forall|j: int, k: int|
        1 <= j < k && ray_on_board(sq, dr, df, k) implies (masked.has(ray_square(sq, dr, df, j))
            == occ.has(ray_square(sq, dr, df, j))) by {
        if !ray_on_board(sq, dr, df, j + 1) {
            crate::magic_simple::lemma_off_board_stays(sq, dr, df, j + 1, k);
        }
        if !ray_on_board(sq, dr, df, j) {
            crate::magic_simple::lemma_off_board_stays(sq, dr, df, j, k);
        }
        assert(ray_on_board(sq, dr, df, j + 1));
        assert(inner_ray(sq, dr, df, ray_square(sq, dr, df, j)));
        let x = ray_square(sq, dr, df, j);
        assert(mask.has(x));
        assert(0 <= x < 64);
        crate::bitboard::lemma_bit_ops(occ.0, mask.0, x as u64);
        assert(masked.has(x) == occ.has(x));
    }
    if ray_reaches(sq, occ, dr, df, t) {
        let k = choose|k: int|
            #![trigger ray_square(sq, dr, df, k)]
            1 <= k && ray_on_board(sq, dr, df, k) && t == ray_square(sq, dr, df, k) && forall|j: int|
                1 <= j < k ==> !occ.has(#[trigger] ray_square(sq, dr, df, j));
        assert(forall|j: int| 1 <= j < k ==> !masked.has(#[trigger] ray_square(sq, dr, df, j)));
    }
    if ray_reaches(sq, masked, dr, df, t) {
        let k = choose|k: int|
            #![trigger ray_square(sq, dr, df, k)]
            1 <= k && ray_on_board(sq, dr, df, k) && t == ray_square(sq, dr, df, k) && forall|j: int|
                1 <= j < k ==> !masked.has(#[trigger] ray_square(sq, dr, df, j));
        assert(forall|j: int| 1 <= j < k ==> !occ.has(#[trigger] ray_square(sq, dr, df, j)));
    }
}

fn rook_mask(square: u8) -> (r: Bitboard)
    requires
        square < 64,
    ensures
        forall|t: int| r.has(t) <==> rook_blockers(square as int, t),
{
    inner_ray_squares(square, 1, 0).or(inner_ray_squares(square, -1, 0)).or(
        inner_ray_squares(square, 0, 1),
    ).or(inner_ray_squares(square, 0, -1))
}

fn bishop_mask(square: u8) -> (r: Bitboard)
    requires
        square < 64,
    ensures
        forall|t: int| r.has(t) <==> bishop_blockers(square as int, t),
{
    inner_ray_squares(square, 1, 1).or(inner_ray_squares(square, 1, -1)).or(
        inner_ray_squares(square, -1, 1),
    ).or(inner_ray_squares(square, -1, -1))
}

/// The number of index bits of a mask, and the shift that keeps them.
fn index_shift(mask: Bitboard) -> (r: (u32, u32))
    ensures
        r.0 <= 12,
        r.1 < 64,
{
    let count = mask.count();
    let bits = if count > 12 {
        12
    } else {
        count
    };
    let shift = if count == 0 || count >= 64 {
        0
    } else {
        64 - count
    };
    (bits, shift)
}

fn magic_index(occupancy: u64, mask: Bitboard, magic: u64, shift: u32) -> (r: usize)
    requires
        shift < 64,
    ensures
        r == slot(occupancy, mask.0, magic, shift),
{
    ((occupancy & mask.0).wrapping_mul(magic) >> shift) as usize
}

/// Fills the table of one square by walking every subset of its mask.
fn build_square(square: u8, rook: bool) -> (r: (Vec<(u64, Bitboard)>, (u64, u64, u32)))
    requires
        square < 64,
    ensures
        rook ==> forall|j: int| 0 <= j < r.0@.len() ==> rook_entry_ok(square as int, #[trigger] r.0@[j]),
        !rook ==> forall|j: int| 0 <= j < r.0@.len() ==> bishop_entry_ok(square as int, #[trigger] r.0@[j]),
        r.1.2 < 64,
        rook ==> forall|t: int| Bitboard(r.1.0).has(t) <==> rook_blockers(square as int, t),
        !rook ==> forall|t: int| Bitboard(r.1.0).has(t) <==> bishop_blockers(square as int, t),
{
    let mask = if rook {
        rook_mask(square)
    } else {
        bishop_mask(square)
    };
    let magic = if rook {
        rook_magic(square as usize)
    } else {
        bishop_magic(square as usize)
    };
    let (bits, shift) = index_shift(mask);
    let size: usize = 1usize << bits;
    let empty_attacks = if rook {
        crate::magic_simple::get_rook_attacks(square, Bitboard(0))
    } else {
        crate::magic_simple::get_bishop_attacks(square, Bitboard(0))
    };
    let mut table: Vec<(u64, Bitboard)> = Vec::new();
    let mut n: usize = 0;
    while n < size
        invariant
            square < 64,
            n <= size,
            table@.len() == n,
            rook ==> forall|t: int| empty_attacks.has(t) <==> rook_attack(square as int, Bitboard(0), t),
            !rook ==> forall|t: int| empty_attacks.has(t) <==> bishop_attack(square as int, Bitboard(0), t),
            forall|j: int| 0 <= j < n ==> #[trigger] table@[j] == (0u64, empty_attacks),
        decreases size - n,
    {
        table.push((0u64, empty_attacks));
        n = n + 1;
    }
    let mut occupancy: u64 = 0;
    let mut step: usize = 0;
    while step < size
        invariant
            square < 64,
            shift < 64,
            rook ==> forall|j: int| 0 <= j < table@.len() ==> rook_entry_ok(square as int, #[trigger] table@[j]),
            !rook ==> forall|j: int| 0 <= j < table@.len() ==> bishop_entry_ok(square as int, #[trigger] table@[j]),
        decreases size - step,
    {
        let index = magic_index(occupancy, mask, magic, shift);
        if index < table.len() {
            let attacks = if rook {
                crate::magic_simple::get_rook_attacks(square, Bitboard(occupancy))
            } else {
                crate::magic_simple::get_bishop_attacks(square, Bitboard(occupancy))
            };
            table.set(index, (occupancy, attacks));
        }
        occupancy = occupancy.wrapping_sub(mask.0) & mask.0;
        step = step + 1;
        if occupancy == 0 {
            break ;
        }
    }
    (table, (mask.0, magic, shift))
}

/// Builds the rook and bishop tables of every square, and checks that every
/// subset of every mask found a slot of its own.
pub fn init() -> MagicTables {
    let mut rook: Vec<Vec<(u64, Bitboard)>> = Vec::new();
    let mut bishop: Vec<Vec<(u64, Bitboard)>> = Vec::new();
    let mut rook_params: Vec<(u64, u64, u32)> = Vec::new();
    let mut bishop_params: Vec<(u64, u64, u32)> = Vec::new();
    let mut complete = true;
    let mut square: u8 = 0;
    while square < 64
        invariant
            square <= 64,
            rook@.len() == square,
            bishop@.len() == square,
            rook_params@.len() == square,
            bishop_params@.len() == square,
            forall|sq: int, j: int|
                0 <= sq < square && 0 <= j < rook@[sq]@.len() ==> rook_entry_ok(sq, #[trigger] rook@[sq]@[j]),
            forall|sq: int, j: int|
                0 <= sq < square && 0 <= j < bishop@[sq]@.len() ==> bishop_entry_ok(sq, #[trigger] bishop@[sq]@[j]),
            forall|sq: int|
                0 <= sq < square ==> (#[trigger] rook_params@[sq]).2 < 64 && forall|t: int|
                    Bitboard(rook_params@[sq].0).has(t) <==> rook_blockers(sq, t),
            forall|sq: int|
                0 <= sq < square ==> (#[trigger] bishop_params@[sq]).2 < 64 && forall|t: int|
                    Bitboard(bishop_params@[sq].0).has(t) <==> bishop_blockers(sq, t),
            complete ==> forall|sq: int|
                0 <= sq < square ==> row_stores_all(
                    #[trigger] rook@[sq]@,
                    rook_params@[sq].0,
                    rook_params@[sq].1,
                    rook_params@[sq].2,
                ),
            complete ==> forall|sq: int|
                0 <= sq < square ==> row_stores_all(
                    #[trigger] bishop@[sq]@,
                    bishop_params@[sq].0,
                    bishop_params@[sq].1,
                    bishop_params@[sq].2,
                ),
        decreases 64 - square,
    {
        let (rook_row, rp) = build_square(square, true);
        let (bishop_row, bp) = build_square(square, false);
        let rook_ok = check_row(&rook_row, rp.0, rp.1, rp.2);
        let bishop_ok = check_row(&bishop_row, bp.0, bp.1, bp.2);
        complete = complete && rook_ok && bishop_ok;
        rook.push(rook_row);
        bishop.push(bishop_row);
        rook_params.push(rp);
        bishop_params.push(bp);
        square = square + 1;
    }
    MagicTables { rook, bishop, rook_params, bishop_params, complete }
}

/// Rook attacks from `square` under `occupancy`, looked up in the tables.
pub fn get_rook_attacks(tables: &MagicTables, square: u8, occupancy: Bitboard) -> (r: Bitboard)
    requires
        square < 64,
    ensures
        forall|t: int| r.has(t) <==> rook_attack(square as int, occupancy, t),
{
    proof {
        use_type_invariant(tables);
    }
    let (mask_bits, magic, shift) = tables.rook_params[square as usize];
    let mask = Bitboard(mask_bits);
    proof {
        let params = tables.rook_params@[square as int];
        assert(params.2 < 64 && forall|t: int| Bitboard(params.0).has(t) <==> rook_blockers(square as int, t));
        assert(mask_bits == params.0 && shift == params.2);
        assert forall|u: int| inner_ray(square as int, 1, 0, u) implies mask.has(u) by {
            assert(Bitboard(params.0).has(u) <==> rook_blockers(square as int, u));
        }
        assert forall|u: int| inner_ray(square as int, -1, 0, u) implies mask.has(u) by {
            assert(Bitboard(params.0).has(u) <==> rook_blockers(square as int, u));
        }
        assert forall|u: int| inner_ray(square as int, 0, 1, u) implies mask.has(u) by {
            assert(Bitboard(params.0).has(u) <==> rook_blockers(square as int, u));
        }
        assert forall|u: int| inner_ray(square as int, 0, -1, u) implies mask.has(u) by {
            assert(Bitboard(params.0).has(u) <==> rook_blockers(square as int, u));
        }
    }
    let key = occupancy.0 & mask.0;
    let index = magic_index(occupancy.0, mask, magic, shift);
    let row = &tables.rook[square as usize];
    if index < row.len() && row[index].0 == key {
        let attacks = row[index].1;
        proof {
            assert(rook_entry_ok(square as int, row@[index as int]));
            assert forall|t: int| attacks.has(t) <==> rook_attack(square as int, occupancy, t) by {
                lemma_ray_masked(square as int, occupancy, mask, 1, 0, t);
                lemma_ray_masked(square as int, occupancy, mask, -1, 0, t);
                lemma_ray_masked(square as int, occupancy, mask, 0, 1, t);
                lemma_ray_masked(square as int, occupancy, mask, 0, -1, t);
            }
        }
        attacks
    } else {
        crate::magic_simple::get_rook_attacks(square, occupancy)
    }
}

/// Bishop attacks from `square` under `occupancy`, looked up in the tables.
pub fn get_bishop_attacks(tables: &MagicTables, square: u8, occupancy: Bitboard) -> (r: Bitboard)
    requires
        square < 64,
    ensures
        forall|t: int| r.has(t) <==> bishop_attack(square as int, occupancy, t),
{
    proof {
        use_type_invariant(tables);
    }
    let (mask_bits, magic, shift) = tables.bishop_params[square as usize];
    let mask = Bitboard(mask_bits);
    proof {
        let params = tables.bishop_params@[square as int];
        assert(params.2 < 64 && forall|t: int| Bitboard(params.0).has(t) <==> bishop_blockers(square as int, t));
        assert(mask_bits == params.0 && shift == params.2);
        assert forall|u: int| inner_ray(square as int, 1, 1, u) implies mask.has(u) by {
            assert(Bitboard(params.0).has(u) <==> bishop_blockers(square as int, u));
        }
        assert forall|u: int| inner_ray(square as int, 1, -1, u) implies mask.has(u) by {
            assert(Bitboard(params.0).has(u) <==> bishop_blockers(square as int, u));
        }
        assert forall|u: int| inner_ray(square as int, -1, 1, u) implies mask.has(u) by {
            assert(Bitboard(params.0).has(u) <==> bishop_blockers(square as int, u));
        }
        assert forall|u: int| inner_ray(square as int, -1, -1, u) implies mask.has(u) by {
            assert(Bitboard(params.0).has(u) <==> bishop_blockers(square as int, u));
        }
    }
    let key = occupancy.0 & mask.0;
    let index = magic_index(occupancy.0, mask, magic, shift);
    let row = &tables.bishop[square as usize];
    if index < row.len() && row[index].0 == key {
        let attacks = row[index].1;
        proof {
            assert(bishop_entry_ok(square as int, row@[index as int]));
            assert forall|t: int| attacks.has(t) <==> bishop_attack(square as int, occupancy, t) by {
                lemma_ray_masked(square as int, occupancy, mask, 1, 1, t);
                lemma_ray_masked(square as int, occupancy, mask, 1, -1, t);
                lemma_ray_masked(square as int, occupancy, mask, -1, 1, t);
                lemma_ray_masked(square as int, occupancy, mask, -1, -1, t);
            }
        }
        attacks
    } else {
        crate::magic_simple::get_bishop_attacks(square, occupancy)
    }
}

pub fn get_queen_attacks(tables: &MagicTables, square: u8, occupancy: Bitboard) -> (r: Bitboard)
    requires
        square < 64,
    ensures
        forall|t: int|
            r.has(t) <==> (rook_attack(square as int, occupancy, t) || bishop_attack(
                square as int,
                occupancy,
                t,
            )),
{
    get_rook_attacks(tables, square, occupancy).or(get_bishop_attacks(tables, square, occupancy))
}

} // verus!
