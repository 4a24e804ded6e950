use vstd::prelude::*;

use crate::bitboard::Bitboard;

verus! {

/// Coordinate `x` after `k` steps in direction `d` (one of -1, 0, 1).
pub open spec fn step(x: int, d: int, k: int) -> int {
    if d > 0 {
        x + k
    } else if d < 0 {
        x - k
    } else {
        x
    }
}

pub open spec fn on_board(rank: int, file: int) -> bool {
    0 <= rank < 8 && 0 <= file < 8
}

/// The square `k` steps from `sq` in direction (`dr` ranks, `df` files).
pub open spec fn ray_square(sq: int, dr: int, df: int, k: int) -> int {
    step(sq / 8, dr, k) * 8 + step(sq % 8, df, k)
}

/// Whether the `k`-th square from `sq` in direction (`dr`, `df`) is on the board.
pub open spec fn ray_on_board(sq: int, dr: int, df: int, k: int) -> bool {
    on_board(step(sq / 8, dr, k), step(sq % 8, df, k))
}

/// Whether a slider on `sq` moving in direction (`dr`, `df`) reaches `t`: `t`
/// lies on that ray, and no square strictly between `sq` and `t` is occupied.
pub open spec fn ray_reaches(sq: int, occ: Bitboard, dr: int, df: int, t: int) -> bool {
    exists|k: int|
        #![trigger ray_square(sq, dr, df, k)]
        1 <= k && ray_on_board(sq, dr, df, k) && t == ray_square(sq, dr, df, k) && forall|j: int|
            1 <= j < k ==> !occ.has(#[trigger] ray_square(sq, dr, df, j))
}

/// The squares a rook on `sq` attacks under occupancy `occ`.
pub open spec fn rook_attack(sq: int, occ: Bitboard, t: int) -> bool {
    ray_reaches(sq, occ, 1, 0, t) || ray_reaches(sq, occ, -1, 0, t) || ray_reaches(sq, occ, 0, 1, t)
        || ray_reaches(sq, occ, 0, -1, t)
}

/// The squares a bishop on `sq` attacks under occupancy `occ`.
pub open spec fn bishop_attack(sq: int, occ: Bitboard, t: int) -> bool {
    ray_reaches(sq, occ, 1, 1, t) || ray_reaches(sq, occ, 1, -1, t) || ray_reaches(sq, occ, -1, 1, t)
        || ray_reaches(sq, occ, -1, -1, t)
}

/// Once a ray has left the board it stays off it.
pub proof fn lemma_off_board_stays(sq: int, dr: int, df: int, k: int, k2: int)
    requires
        0 <= sq < 64,
        -1 <= dr <= 1,
        -1 <= df <= 1,
        1 <= k <= k2,
        !ray_on_board(sq, dr, df, k),
    ensures
        !ray_on_board(sq, dr, df, k2),
{
}

/// The squares reached from `square` in direction (`dr`, `df`), up to and
/// including the first occupied one.
fn ray_attacks(square: u8, occupancy: Bitboard, dr: i8, df: i8) -> (r: Bitboard)
    requires
        square < 64,
        -1 <= dr <= 1,
        -1 <= df <= 1,
        dr != 0 || df != 0,
    ensures
        forall|t: int| r.has(t) <==> ray_reaches(square as int, occupancy, dr as int, df as int, t),
{
    let ghost sq = square as int;
    let rank: i8 = (square / 8) as i8;
    let file: i8 = (square % 8) as i8;
    let mut attacks = Bitboard::empty();
    let mut r: i8 = rank + dr;
    let mut f: i8 = file + df;
    let mut k: i8 = 1;
    let mut blocked = false;
    while 0 <= r && r < 8 && 0 <= f && f < 8
        invariant_except_break
            1 <= k <= 8,
            -1 <= dr <= 1,
            -1 <= df <= 1,
            dr != 0 || df != 0,
            0 <= sq < 64,
            r == step(sq / 8, dr as int, k as int),
            f == step(sq % 8, df as int, k as int),
            forall|j: int| 1 <= j < k ==> ray_on_board(sq, dr as int, df as int, j),
            forall|j: int|
                1 <= j < k ==> !occupancy.has(#[trigger] ray_square(sq, dr as int, df as int, j)),
            forall|t: int|
                attacks.has(t) <==> exists|j: int|
                    1 <= j < k && t == #[trigger] ray_square(sq, dr as int, df as int, j),
            !blocked,
        ensures
            1 <= k <= 8,
            forall|j: int| 1 <= j < k ==> ray_on_board(sq, dr as int, df as int, j),
            forall|j: int|
                1 <= j < k ==> !occupancy.has(#[trigger] ray_square(sq, dr as int, df as int, j)),
            blocked ==> ray_on_board(sq, dr as int, df as int, k as int) && occupancy.has(
                ray_square(sq, dr as int, df as int, k as int),
            ),
            blocked ==> forall|t: int|
                attacks.has(t) <==> exists|j: int|
                    1 <= j <= k && t == #[trigger] ray_square(sq, dr as int, df as int, j),
            !blocked ==> !ray_on_board(sq, dr as int, df as int, k as int),
            !blocked ==> forall|t: int|
                attacks.has(t) <==> exists|j: int|
                    1 <= j < k && t == #[trigger] ray_square(sq, dr as int, df as int, j),
        decreases 8 - k,
    {
        let s = (r * 8 + f) as u8;
        assert(s == ray_square(sq, dr as int, df as int, k as int));
        let ghost before = attacks;
        attacks.set_square(s);
        proof {
            assert forall|t: int|
                attacks.has(t) <==> exists|j: int|
                    1 <= j <= k && t == #[trigger] ray_square(sq, dr as int, df as int, j) by {
                if attacks.has(t) {
                    if t != s {
                        assert(before.has(t));
                    }
                }
                if exists|j: int| 1 <= j <= k && t == #[trigger] ray_square(sq, dr as int, df as int, j) {
                    let j = choose|j: int| 1 <= j <= k && t == #[trigger] ray_square(sq, dr as int, df as int, j);
                    if j < k {
                        assert(before.has(t));
                    }
                }
            }
        }
        if occupancy.has_square(s) {
            blocked = true;
            break ;
        }
        r = r + dr;
        f = f + df;
        k = k + 1;
        proof {
            if k == 8 {
                assert(!ray_on_board(sq, dr as int, df as int, 8));
            }
        }
    }
    proof {
        assert forall|t: int| attacks.has(t) <==> ray_reaches(sq, occupancy, dr as int, df as int, t) by {
            if attacks.has(t) {
                let j = if blocked {
                    choose|j: int| 1 <= j <= k && t == #[trigger] ray_square(sq, dr as int, df as int, j)
                } else {
                    choose|j: int| 1 <= j < k && t == #[trigger] ray_square(sq, dr as int, df as int, j)
                };
                assert(forall|i: int| 1 <= i < j ==> !occupancy.has(#[trigger] ray_square(sq, dr as int, df as int, i)));
                assert(ray_on_board(sq, dr as int, df as int, j));
            }
            if ray_reaches(sq, occupancy, dr as int, df as int, t) {
                let k2 = choose|k2: int|
                    #![trigger ray_square(sq, dr as int, df as int, k2)]
                    1 <= k2 && ray_on_board(sq, dr as int, df as int, k2) && t == ray_square(sq, dr as int, df as int, k2) && forall|j: int|
                        1 <= j < k2 ==> !occupancy.has(#[trigger] ray_square(sq, dr as int, df as int, j));
                if blocked {
                    if k2 > k {
                        assert(!occupancy.has(ray_square(sq, dr as int, df as int, k as int)));
                    }
                } else {
                    if k2 >= k {
                        lemma_off_board_stays(sq, dr as int, df as int, k as int, k2);
                    }
                }
            }
        }
    }
    attacks
}

pub fn get_rook_attacks(square: u8, occupancy: Bitboard) -> (r: Bitboard)
    requires
        square < 64,
    ensures
        forall|t: int| r.has(t) <==> rook_attack(square as int, occupancy, t),
{
    let north = ray_attacks(square, occupancy, 1, 0);
    let south = ray_attacks(square, occupancy, -1, 0);
    let east = ray_attacks(square, occupancy, 0, 1);
    let west = ray_attacks(square, occupancy, 0, -1);
    north.or(south).or(east).or(west)
}

pub fn get_bishop_attacks(square: u8, occupancy: Bitboard) -> (r: Bitboard)
    requires
        square < 64,
    ensures
        forall|t: int| r.has(t) <==> bishop_attack(square as int, occupancy, t),
{
    let northeast = ray_attacks(square, occupancy, 1, 1);
    let northwest = ray_attacks(square, occupancy, 1, -1);
    let southeast = ray_attacks(square, occupancy, -1, 1);
    let southwest = ray_attacks(square, occupancy, -1, -1);
    northeast.or(northwest).or(southeast).or(southwest)
}

pub fn get_queen_attacks(square: u8, occupancy: Bitboard) -> (r: Bitboard)
    requires
        square < 64,
    ensures
        forall|t: int|
            r.has(t) <==> (rook_attack(square as int, occupancy, t) || bishop_attack(
                square as int,
                occupancy,
                t,
            )),
{
    get_rook_attacks(square, occupancy).or(get_bishop_attacks(square, occupancy))
}

/// Ray-walk attacks need no tables, so there is nothing to set up.
pub fn init() {
}

} // verus!
