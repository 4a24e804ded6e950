use vstd::prelude::*;

use crate::board::{Board, Color, Piece, PieceType, Square};
use crate::magic_simple::{bishop_attack, rook_attack};
use crate::movegen::{self, generated, is_generated, king_attack, knight_attack};
use crate::moves::{type_of_code, Move};
use crate::board::{piece_char, push_square_name, square_name};
use crate::text::{lemma_decimal_digits, lemma_decimal_parses, lemma_spans_word, is_space, word_chars, ascii_bytes, digit_char, as_spans, decimal, fields, parse_u32, parse_u32_spec, push_char, push_decimal, split_fields};
use crate::board::{parse_square, piece_of_char};
use crate::moves::square_from_bytes;
use vstd::string::StringSliceAdditionalSpecFns;
use vstd::utf8::encode_utf8;
use crate::Error;

verus! {

#[derive(Debug, Clone, Copy, PartialEq, Eq, Structural)]
pub struct CastlingRights {
    pub white_kingside: bool,
    pub white_queenside: bool,
    pub black_kingside: bool,
    pub black_queenside: bool,
}

/// The castling rights after the piece on `from` moves: a king gives up both
/// of its side's rights, a rook leaving its home corner gives up that one.
pub open spec fn rights_after_leaving(cr: CastlingRights, piece: Option<Piece>, from: int) -> CastlingRights {
    match piece {
        Some(p) => match p.piece_type {
            PieceType::King => match p.color {
                Color::White => CastlingRights {
                    white_kingside: false,
                    white_queenside: false,
                    ..cr
                },
                Color::Black => CastlingRights {
                    black_kingside: false,
                    black_queenside: false,
                    ..cr
                },
            },
            PieceType::Rook => match p.color {
                Color::White => if from == 0 {
                    CastlingRights { white_queenside: false, ..cr }
                } else if from == 7 {
                    CastlingRights { white_kingside: false, ..cr }
                } else {
                    cr
                },
                Color::Black => if from == 56 {
                    CastlingRights { black_queenside: false, ..cr }
                } else if from == 63 {
                    CastlingRights { black_kingside: false, ..cr }
                } else {
                    cr
                },
            },
            _ => cr,
        },
        None => cr,
    }
}

/// The castling rights after a move from `from` to `to`: those given up by the
/// piece leaving `from`, and the right whose rook stands on `to`, which is
/// taken there.
pub open spec fn rights_after(cr: CastlingRights, piece: Option<Piece>, from: int, to: int) -> CastlingRights {
    let r = rights_after_leaving(cr, piece, from);
    if to == 0 {
        CastlingRights { white_queenside: false, ..r }
    } else if to == 7 {
        CastlingRights { white_kingside: false, ..r }
    } else if to == 56 {
        CastlingRights { black_queenside: false, ..r }
    } else if to == 63 {
        CastlingRights { black_kingside: false, ..r }
    } else {
        r
    }
}

impl CastlingRights {
    pub fn all() -> (r: CastlingRights)
        ensures
            r.white_kingside && r.white_queenside && r.black_kingside && r.black_queenside,
    {
        CastlingRights {
            white_kingside: true,
            white_queenside: true,
            black_kingside: true,
            black_queenside: true,
        }
    }

    pub fn none() -> (r: CastlingRights)
        ensures
            !r.white_kingside && !r.white_queenside && !r.black_kingside && !r.black_queenside,
    {
        CastlingRights {
            white_kingside: false,
            white_queenside: false,
            black_kingside: false,
            black_queenside: false,
        }
    }

    /// Drops the rights that `mv` gives up, judged by the piece on its source
    /// square, and the right whose rook corner is its destination.
    pub fn update(&mut self, mv: &Move, board: &Board)
        ensures
            *final(self) == rights_after(
                *old(self),
                board.at(mv.from_sq() as int),
                mv.from_sq() as int,
                mv.to_sq() as int,
            ),
    {
        let from = mv.from();
        let to = mv.to();
        if let Some(piece) = board.piece_at(from) {
            match piece.piece_type {
                PieceType::King => match piece.color {
                    Color::White => {
                        self.white_kingside = false;
                        self.white_queenside = false;
                    },
                    Color::Black => {
                        self.black_kingside = false;
                        self.black_queenside = false;
                    },
                },
                PieceType::Rook => match piece.color {
                    Color::White => {
                        if from.0 == 0 {
                            self.white_queenside = false;
                        } else if from.0 == 7 {
                            self.white_kingside = false;
                        }
                    },
                    Color::Black => {
                        if from.0 == 56 {
                            self.black_queenside = false;
                        } else if from.0 == 63 {
                            self.black_kingside = false;
                        }
                    },
                },
                _ => {},
            }
        }
        if to.0 == 0 {
            self.white_queenside = false;
        } else if to.0 == 7 {
            self.white_kingside = false;
        } else if to.0 == 56 {
            self.black_queenside = false;
        } else if to.0 == 63 {
            self.black_kingside = false;
        }
    }
}

/// What `make_move` saves so that `undo_move` can restore it.
#[derive(Debug, Clone, Copy)]
pub struct PositionState {
    pub board: Board,
    pub castling_rights: CastlingRights,
    pub en_passant: Option<Square>,
    pub halfmove_clock: u32,
}

#[derive(Debug, Clone)]
pub struct Position {
    pub board: Board,
    pub side_to_move: Color,
    pub castling_rights: CastlingRights,
    pub en_passant: Option<Square>,
    pub halfmove_clock: u32,
    pub fullmove_number: u32,
    pub history: Vec<PositionState>,
}

/// The board after the piece `p` moves from `from` to `to`.
pub open spec fn moved_view(b: Board, from: int, to: int, p: Option<Piece>, i: int) -> Option<Piece> {
    if i == to {
        p
    } else if i == from {
        None
    } else {
        b.at(i)
    }
}

/// For a castling king landing on `to`, the rook's source and destination.
pub open spec fn castle_rook(to: int) -> Option<(int, int)> {
    if to == 6 {
        Some((7, 5))
    } else if to == 2 {
        Some((0, 3))
    } else if to == 62 {
        Some((63, 61))
    } else if to == 58 {
        Some((56, 59))
    } else {
        None
    }
}

/// The square of the pawn taken en passant by a pawn of `c` landing on `to`.
pub open spec fn ep_victim(to: int, c: Color) -> int {
    match c {
        Color::White => to - 8,
        Color::Black => to + 8,
    }
}

/// Whether `make_move` can play `mv` on board `b`: a piece stands on the
/// source square, an en-passant victim square is on the board, a castling king
/// lands on c1, g1, c8 or g8 with a rook to move, and a promotion names its piece.
pub open spec fn move_ok(b: Board, mv: Move) -> bool {
    let from = mv.from_sq() as int;
    let to = mv.to_sq() as int;
    match b.at(from) {
        None => false,
        Some(pc) => if mv.ep_flag() {
            0 <= ep_victim(to, pc.color) < 64
        } else if mv.castle_flag() {
            match castle_rook(to) {
                Some((rf, rt)) => moved_view(b, from, to, Some(pc), rf) is Some,
                None => false,
            }
        } else if mv.promo_flag() {
            mv.promo() is Some
        } else {
            true
        },
    }
}

/// The piece on square `i` after `mv` is played on `b`.
pub open spec fn board_after(b: Board, mv: Move, i: int) -> Option<Piece> {
    let from = mv.from_sq() as int;
    let to = mv.to_sq() as int;
    let pc = b.at(from)->0;
    if mv.ep_flag() {
        if i == ep_victim(to, pc.color) {
            None
        } else {
            moved_view(b, from, to, Some(pc), i)
        }
    } else if mv.castle_flag() {
        let (rf, rt) = castle_rook(to)->0;
        if i == rt {
            moved_view(b, from, to, Some(pc), rf)
        } else if i == rf {
            None
        } else {
            moved_view(b, from, to, Some(pc), i)
        }
    } else if mv.promo_flag() {
        moved_view(b, from, to, Some(Piece { color: pc.color, piece_type: mv.promo()->0 }), i)
    } else {
        moved_view(b, from, to, Some(pc), i)
    }
}

/// The en-passant target after `mv`: the square passed over by a pawn's
/// two-rank push, and none after any other move.
pub open spec fn ep_after(b: Board, mv: Move) -> Option<Square> {
    let from = mv.from_sq() as int;
    let to = mv.to_sq() as int;
    if !mv.ep_flag() && !mv.castle_flag() && !mv.promo_flag() && b.at(from)->0.piece_type
        == PieceType::Pawn && (to / 8 - from / 8 == 2 || from / 8 - to / 8 == 2) {
        Some(Square((((from / 8 + to / 8) / 2) * 8 + from % 8) as u8))
    } else {
        None
    }
}

/// The halfmove clock after `mv`: zero after a pawn move or onto an occupied
/// square, one more otherwise (wrapping at the top of the 32-bit range).
pub open spec fn halfmove_after(p: Position, mv: Move) -> u32 {
    if type_of_code(mv.piece_code()) == PieceType::Pawn || p.board.at(mv.to_sq() as int) is Some {
        0
    } else {
        next_count(p.halfmove_clock)
    }
}

/// One more than `n`, wrapping at the top of the 32-bit range.
pub open spec fn next_count(n: u32) -> u32 {
    if n == u32::MAX {
        0
    } else {
        (n + 1) as u32
    }
}

/// One less than `n`, wrapping at zero.
pub open spec fn prev_count(n: u32) -> u32 {
    if n == 0 {
        u32::MAX
    } else {
        (n - 1) as u32
    }
}

/// The fullmove number after the side to move of `p` has moved.
pub open spec fn fullmove_after(p: Position) -> u32 {
    if p.side_to_move == Color::Black {
        next_count(p.fullmove_number)
    } else {
        p.fullmove_number
    }
}

/// The snapshot of `p` that `make_move` saves.
pub open spec fn snapshot(p: Position) -> PositionState {
    PositionState {
        board: p.board,
        castling_rights: p.castling_rights,
        en_passant: p.en_passant,
        halfmove_clock: p.halfmove_clock,
    }
}

/// `q` is `p` after `mv` was played.
pub open spec fn made(p: Position, mv: Move, q: Position) -> bool {
    &&& q.board.wf()
    &&& forall|i: int| #[trigger] q.board.at(i) == board_after(p.board, mv, i)
    &&& q.castling_rights == rights_after(
        p.castling_rights,
        p.board.at(mv.from_sq() as int),
        mv.from_sq() as int,
        mv.to_sq() as int,
    )
    &&& q.en_passant == ep_after(p.board, mv)
    &&& q.halfmove_clock == halfmove_after(p, mv)
    &&& q.fullmove_number == fullmove_after(p)
    &&& q.side_to_move == p.side_to_move.other()
    &&& q.history@ == p.history@.push(snapshot(p))
}

/// `q` is `p` with its last move taken back.
pub open spec fn undone(p: Position, q: Position) -> bool {
    let s = p.history@.last();
    &&& p.history@.len() > 0
    &&& q.board == s.board
    &&& q.castling_rights == s.castling_rights
    &&& q.en_passant == s.en_passant
    &&& q.halfmove_clock == s.halfmove_clock
    &&& q.side_to_move == p.side_to_move.other()
    &&& q.fullmove_number == if q.side_to_move == Color::Black {
        prev_count(p.fullmove_number)
    } else {
        p.fullmove_number
    }
    &&& q.history@ == p.history@.drop_last()
}

/// Taking back a move that was just played restores every field of the position.
pub proof fn lemma_make_then_undo(p: Position, mv: Move, q: Position, r: Position)
    requires
        made(p, mv, q),
        undone(q, r),
    ensures
        r.board == p.board,
        r.side_to_move == p.side_to_move,
        r.castling_rights == p.castling_rights,
        r.en_passant == p.en_passant,
        r.halfmove_clock == p.halfmove_clock,
        r.fullmove_number == p.fullmove_number,
        r.history@ == p.history@,
{
    assert(q.history@.last() == snapshot(p));
    assert(q.history@.drop_last() =~= p.history@);
}

/// A pawn of `by` attacks `sq` diagonally.
pub open spec fn pawn_attacks(b: Board, sq: int, by: Color) -> bool {
    match by {
        Color::White => (sq % 8 != 0 && b.bb(by, PieceType::Pawn).has(sq - 9)) || (sq % 8 != 7
            && b.bb(by, PieceType::Pawn).has(sq - 7)),
        Color::Black => (sq % 8 != 0 && b.bb(by, PieceType::Pawn).has(sq + 7)) || (sq % 8 != 7
            && b.bb(by, PieceType::Pawn).has(sq + 9)),
    }
}

/// Whether a piece of `by` attacks square `sq`.
pub open spec fn attacked(b: Board, sq: int, by: Color) -> bool {
    ||| pawn_attacks(b, sq, by)
    ||| exists|t: int| knight_attack(sq, t) && #[trigger] b.bb(by, PieceType::Knight).has(t)
    ||| exists|t: int| king_attack(sq, t) && #[trigger] b.bb(by, PieceType::King).has(t)
    ||| exists|t: int|
        bishop_attack(sq, b.occupied, t) && (#[trigger] b.bb(by, PieceType::Bishop).has(t) || b.bb(
            by,
            PieceType::Queen,
        ).has(t))
    ||| exists|t: int|
        rook_attack(sq, b.occupied, t) && (#[trigger] b.bb(by, PieceType::Rook).has(t) || b.bb(
            by,
            PieceType::Queen,
        ).has(t))
}

/// `k` is the lowest square holding a king of color `c`.
pub open spec fn king_square(b: Board, c: Color, k: int) -> bool {
    b.bb(c, PieceType::King).has(k) && forall|j: int| 0 <= j < k ==> !b.bb(c, PieceType::King).has(j)
}

/// The side to move has a king, and the opponent attacks it.
pub open spec fn in_check_spec(p: Position) -> bool {
    in_check_at(p.board, p.side_to_move)
}

/// Side `c` has a king, and the opponent attacks it.
pub open spec fn in_check_at(b: Board, c: Color) -> bool {
    exists|k: int| king_square(b, c, k) && #[trigger] attacked(b, k, c.other())
}

/// The side to move has no pseudo-legal move.
pub open spec fn no_moves(p: Position) -> bool {
    forall|from: u8, to: u8, pt: PieceType, q: Option<PieceType>|
        !#[trigger] generated(p.board, p.side_to_move, from, to, pt, q)
}

fn invalid_move(msg: &str) -> (r: Error)
    ensures
        r is InvalidMove,
{
    Error::InvalidMove(msg.to_owned())
}

/// `p` is the standard starting position with no history.
pub open spec fn is_initial(p: Position) -> bool {
    &&& p.wf()
    &&& forall|i: int| 0 <= i < 64 ==> #[trigger] p.board.at(i) == crate::board::start_piece(i)
    &&& p.side_to_move == Color::White
    &&& p.castling_rights == (CastlingRights {
        white_kingside: true,
        white_queenside: true,
        black_kingside: true,
        black_queenside: true,
    })
    &&& p.en_passant is None
    &&& p.halfmove_clock == 0
    &&& p.fullmove_number == 1
    &&& p.history@.len() == 0
}

impl Position {
    pub open spec fn wf(self) -> bool {
        &&& self.board.wf()
        &&& self.en_passant matches Some(s) ==> s.0 < 64
    }

    pub fn new() -> (r: Position)
        ensures
            is_initial(r),
    {
        Position {
            board: Board::starting_position(),
            side_to_move: Color::White,
            castling_rights: CastlingRights::all(),
            en_passant: None,
            halfmove_clock: 0,
            fullmove_number: 1,
            history: Vec::new(),
        }
    }

    /// Plays `mv`. When it cannot be played (see `move_ok`) the position is left
    /// as it was and `InvalidMove` comes back.
    pub fn make_move(&mut self, mv: &Move) -> (r: crate::Result<()>)
        requires
            old(self).wf(),
        ensures
            r is Ok <==> move_ok(old(self).board, *mv),
            r is Ok ==> made(*old(self), *mv, *final(self)) && final(self).wf(),
            r is Err ==> *final(self) == *old(self) && r matches Err(Error::InvalidMove(_)),
    {
        let from = mv.from();
        let to = mv.to();
        let piece = match self.board.piece_at(from) {
            Some(p) => p,
            None => return Err(invalid_move("No piece at from square")),
        };
        let mut rook_squares: (u8, u8) = (0, 0);
        if mv.is_en_passant() {
            let ok = match piece.color {
                Color::White => to.0 >= 8,
                Color::Black => to.0 < 56,
            };
            if !ok {
                return Err(invalid_move("No pawn to take en passant"));
            }
        } else if mv.is_castling() {
            rook_squares = match castling_rook_squares(to.0) {
                Some(rs) => rs,
                None => return Err(invalid_move("Invalid castling move")),
            };
            let rook_present = if rook_squares.0 == to.0 {
                true
            } else if rook_squares.0 == from.0 {
                false
            } else {
                self.board.piece_at(Square(rook_squares.0)).is_some()
            };
            if !rook_present {
                return Err(invalid_move("No rook at castling square"));
            }
        } else if mv.is_promotion() {
            if mv.promotion_piece().is_none() {
                return Err(invalid_move("No promotion piece specified"));
            }
        }
        let ghost pre = *self;
        let state = PositionState {
            board: self.board,
            castling_rights: self.castling_rights,
            en_passant: self.en_passant,
            halfmove_clock: self.halfmove_clock,
        };
        self.history.push(state);
        let captured = self.board.piece_at(to).is_some();
        self.castling_rights.update(mv, &self.board);
        self.en_passant = None;
        if mv.is_en_passant() {
            self.make_en_passant_move(mv, piece);
        } else if mv.is_castling() {
            self.make_castling_move(mv, piece, rook_squares);
        } else if mv.is_promotion() {
            self.make_promotion_move(mv, piece);
        } else {
            self.make_normal_move(mv, piece);
        }
        if mv.piece_type() == PieceType::Pawn || captured {
            self.halfmove_clock = 0;
        } else {
            self.halfmove_clock = self.halfmove_clock.wrapping_add(1);
        }
        if self.side_to_move == Color::Black {
            self.fullmove_number = self.fullmove_number.wrapping_add(1);
        }
        self.side_to_move = self.side_to_move.opposite();
        proof {
            assert(self.history@ == pre.history@.push(snapshot(pre)));
            assert(self.halfmove_clock == halfmove_after(pre, *mv));
            assert(self.fullmove_number == fullmove_after(pre));
            assert(self.en_passant == ep_after(pre.board, *mv));
            assert(forall|i: int| #[trigger] self.board.at(i) == board_after(pre.board, *mv, i));
        }
        Ok(())
    }

    /// Takes back the last move played; `InvalidMove` when there is none.
    pub fn undo_move(&mut self) -> (r: crate::Result<()>)
        ensures
            r is Ok <==> old(self).history@.len() > 0,
            r is Ok ==> undone(*old(self), *final(self)),
            r is Err ==> *final(self) == *old(self) && r matches Err(Error::InvalidMove(_)),
    {
        if self.history.len() == 0 {
            return Err(invalid_move("No moves to undo"));
        }
        match self.history.pop() {
            Some(state) => {
                self.board = state.board;
                self.castling_rights = state.castling_rights;
                self.en_passant = state.en_passant;
                self.halfmove_clock = state.halfmove_clock;
                self.side_to_move = self.side_to_move.opposite();
                if self.side_to_move == Color::Black {
                    self.fullmove_number = self.fullmove_number.wrapping_sub(1);
                }
                Ok(())
            },
            None => Err(invalid_move("No moves to undo")),
        }
    }

    pub fn generate_moves(&self) -> (r: Vec<Move>)
        requires
            self.wf(),
        ensures
            r@ == movegen::move_list(self.board, self.side_to_move),
            forall|k: int| 0 <= k < r@.len() ==> is_generated(self.board, self.side_to_move, #[trigger] r@[k]),
            forall|from: u8, to: u8, p: PieceType, q: Option<PieceType>|
                generated(self.board, self.side_to_move, from, to, p, q) ==> r@.contains(
                    #[trigger] movegen::gen_move(from, to, p, q),
                ),
            forall|k: int|
                0 <= k < r@.len() ==> (#[trigger] r@[k]).from_sq() != r@[k].to_sq()
                    && r@[k].from_sq() < 64 && r@[k].to_sq() < 64,
            r@.len() == 0 <==> no_moves(*self),
    {
        let r = movegen::generate_moves(&self.board, self.side_to_move);
        proof {
            if r@.len() == 0 {
                assert forall|from: u8, to: u8, pt: PieceType, q: Option<PieceType>|
                    !#[trigger] generated(self.board, self.side_to_move, from, to, pt, q) by {
                    if generated(self.board, self.side_to_move, from, to, pt, q) {
                        assert(r@.contains(movegen::gen_move(from, to, pt, q)));
                    }
                }
            } else {
                assert(is_generated(self.board, self.side_to_move, r@[0]));
            }
        }
        r
    }

    pub fn in_check(&self) -> (r: bool)
        requires
            self.wf(),
        ensures
            r == in_check_spec(*self),
    {
        match self.find_king(self.side_to_move) {
            Some(king) => {
                let r = self.is_square_attacked(king, self.side_to_move.opposite());
                proof {
                    if !r {
                        assert forall|k: int| king_square(self.board, self.side_to_move, k) implies !#[trigger] attacked(
                            self.board,
                            k,
                            self.side_to_move.other(),
                        ) by {
                            assert(k == king.0);
                        }
                    }
                }
                r
            },
            None => false,
        }
    }

    /// Whether the side to move has no pseudo-legal move at all.
    pub fn is_game_over(&self) -> (r: bool)
        requires
            self.wf(),
        ensures
            r == no_moves(*self),
    {
        self.generate_moves().len() == 0
    }

    pub fn is_checkmate(&self) -> (r: bool)
        requires
            self.wf(),
        ensures
            r == (in_check_spec(*self) && no_moves(*self)),
    {
        self.in_check() && self.generate_moves().len() == 0
    }

    pub fn is_stalemate(&self) -> (r: bool)
        requires
            self.wf(),
        ensures
            r == (!in_check_spec(*self) && no_moves(*self)),
    {
        !self.in_check() && self.generate_moves().len() == 0
    }

    /// The lowest square holding a king of `color`.
    fn find_king(&self, color: Color) -> (r: Option<Square>)
        ensures
            r matches Some(s) ==> s.0 < 64 && king_square(self.board, color, s.0 as int),
            r is None ==> forall|k: int| !king_square(self.board, color, k),
    {
        let king_bb = self.board.piece_bitboard(color, PieceType::King);
        match king_bb.lsb() {
            Some(s) => Some(Square(s)),
            None => {
                proof {
                    assert forall|k: int| !king_square(self.board, color, k) by {
                        if 0 <= k < 64 {
                            crate::bitboard::lemma_bit_zero(k as u64);
                        }
                    }
                }
                None
            },
        }
    }

    fn is_square_attacked(&self, square: Square, by_color: Color) -> (r: bool)
        requires
            square.0 < 64,
        ensures
            r == attacked(self.board, square.0 as int, by_color),
    {
        let sq_bb = square.bitboard();
        proof {
            let sq = square.0 as int;
            assert(sq >= 9 ==> ((sq - 9) % 8 != 7 <==> sq % 8 != 0));
            assert(sq >= 7 ==> ((sq - 7) % 8 != 0 <==> sq % 8 != 7));
            assert(sq < 57 ==> ((sq + 7) % 8 != 7 <==> sq % 8 != 0));
            assert(sq < 55 ==> ((sq + 9) % 8 != 0 <==> sq % 8 != 7));
        }
        let pawn_reach = match by_color {
            Color::White => sq_bb.southwest().or(sq_bb.southeast()),
            Color::Black => sq_bb.northwest().or(sq_bb.northeast()),
        };
        let pawns = self.board.piece_bitboard(by_color, PieceType::Pawn);
        let hits = pawn_reach.and(pawns);
        if !hits.is_empty() {
            proof {
                let i = choose|i: int| hits.has(i);
                let sq = square.0 as int;
                assert(pawns.has(i));
                assert(pawn_reach.has(i));
                match by_color {
                    Color::White => {
                        if i + 9 == sq {
                            assert(sq % 8 != 0);
                        } else {
                            assert(i + 7 == sq);
                            assert(sq % 8 != 7);
                        }
                    },
                    Color::Black => {
                        if i == sq + 7 {
                            assert(sq % 8 != 0);
                        } else {
                            assert(i == sq + 9);
                            assert(sq % 8 != 7);
                        }
                    },
                }
                assert(pawn_attacks(self.board, sq, by_color));
            }
            return true;
        }
        let knights = self.board.piece_bitboard(by_color, PieceType::Knight);
        let knight_hits = movegen::compute_knight_attacks(square.0).and(knights);
        if !knight_hits.is_empty() {
            proof {
                let t = choose|t: int| knight_hits.has(t);
                assert(knights.has(t));
            }
            return true;
        }
        let kings = self.board.piece_bitboard(by_color, PieceType::King);
        let king_hits = movegen::compute_king_attacks(square.0).and(kings);
        if !king_hits.is_empty() {
            proof {
                let t = choose|t: int| king_hits.has(t);
                assert(kings.has(t));
            }
            return true;
        }
        let queens = self.board.piece_bitboard(by_color, PieceType::Queen);
        let diagonal = self.board.piece_bitboard(by_color, PieceType::Bishop).or(queens);
        let diagonal_hits = movegen::generate_bishop_attacks(&self.board, square).and(diagonal);
        if !diagonal_hits.is_empty() {
            proof {
                let t = choose|t: int| diagonal_hits.has(t);
                assert(diagonal.has(t));
                assert(self.board.bb(by_color, PieceType::Bishop).has(t) || self.board.bb(by_color, PieceType::Queen).has(t));
                assert(bishop_attack(square.0 as int, self.board.occupied, t));
                assert(exists|u: int|
                    bishop_attack(square.0 as int, self.board.occupied, u) && (
                    #[trigger] self.board.bb(by_color, PieceType::Bishop).has(u) || self.board.bb(
                        by_color,
                        PieceType::Queen,
                    ).has(u)));
            }
            return true;
        }
        let straight = self.board.piece_bitboard(by_color, PieceType::Rook).or(queens);
        let straight_hits = movegen::generate_rook_attacks(&self.board, square).and(straight);
        if !straight_hits.is_empty() {
            proof {
                let t = choose|t: int| straight_hits.has(t);
                assert(straight.has(t));
                assert(self.board.bb(by_color, PieceType::Rook).has(t) || self.board.bb(by_color, PieceType::Queen).has(t));
                assert(rook_attack(square.0 as int, self.board.occupied, t));
                assert(exists|u: int|
                    rook_attack(square.0 as int, self.board.occupied, u) && (
                    #[trigger] self.board.bb(by_color, PieceType::Rook).has(u) || self.board.bb(
                        by_color,
                        PieceType::Queen,
                    ).has(u)));
            }
            return true;
        }
        false
    }

    fn make_normal_move(&mut self, mv: &Move, piece: Piece)
        requires
            old(self).board.wf(),
            old(self).board.at(mv.from_sq() as int) == Some(piece),
            !mv.ep_flag(),
            !mv.castle_flag(),
            !mv.promo_flag(),
        ensures
            final(self).board.wf(),
            forall|i: int| #[trigger] final(self).board.at(i) == board_after(old(self).board, *mv, i),
            final(self).en_passant == (if ep_after(old(self).board, *mv) is Some {
                ep_after(old(self).board, *mv)
            } else {
                old(self).en_passant
            }),
            final(self).castling_rights == old(self).castling_rights,
            final(self).history == old(self).history,
            final(self).side_to_move == old(self).side_to_move,
            final(self).halfmove_clock == old(self).halfmove_clock,
            final(self).fullmove_number == old(self).fullmove_number,
    {
        let from = mv.from();
        let to = mv.to();
        if piece.piece_type == PieceType::Pawn {
            let fr = from.rank();
            let tr = to.rank();
            if fr + 2 == tr || tr + 2 == fr {
                let ep_rank = (fr + tr) / 2;
                self.en_passant = Some(Square::new(from.file(), ep_rank));
            }
        }
        self.board.set_piece(from, None);
        self.board.set_piece(to, Some(piece));
    }

    fn make_en_passant_move(&mut self, mv: &Move, piece: Piece)
        requires
            old(self).board.wf(),
            old(self).board.at(mv.from_sq() as int) == Some(piece),
            mv.ep_flag(),
            0 <= ep_victim(mv.to_sq() as int, piece.color) < 64,
        ensures
            final(self).board.wf(),
            forall|i: int| #[trigger] final(self).board.at(i) == board_after(old(self).board, *mv, i),
            final(self).en_passant == old(self).en_passant,
            final(self).castling_rights == old(self).castling_rights,
            final(self).history == old(self).history,
            final(self).side_to_move == old(self).side_to_move,
            final(self).halfmove_clock == old(self).halfmove_clock,
            final(self).fullmove_number == old(self).fullmove_number,
    {
        let from = mv.from();
        let to = mv.to();
        self.board.set_piece(from, None);
        self.board.set_piece(to, Some(piece));
        let captured_pawn_square = match piece.color {
            Color::White => Square(to.0 - 8),
            Color::Black => Square(to.0 + 8),
        };
        self.board.set_piece(captured_pawn_square, None);
    }

    fn make_castling_move(&mut self, mv: &Move, piece: Piece, rook_squares: (u8, u8))
        requires
            old(self).board.wf(),
            old(self).board.at(mv.from_sq() as int) == Some(piece),
            !mv.ep_flag(),
            mv.castle_flag(),
            castle_rook(mv.to_sq() as int) == Some((rook_squares.0 as int, rook_squares.1 as int)),
            moved_view(old(self).board, mv.from_sq() as int, mv.to_sq() as int, Some(piece), rook_squares.0 as int) is Some,
        ensures
            final(self).board.wf(),
            forall|i: int| #[trigger] final(self).board.at(i) == board_after(old(self).board, *mv, i),
            final(self).en_passant == old(self).en_passant,
            final(self).castling_rights == old(self).castling_rights,
            final(self).history == old(self).history,
            final(self).side_to_move == old(self).side_to_move,
            final(self).halfmove_clock == old(self).halfmove_clock,
            final(self).fullmove_number == old(self).fullmove_number,
    {
        let from = mv.from();
        let to = mv.to();
        self.board.set_piece(from, None);
        self.board.set_piece(to, Some(piece));
        let rook_from = Square(rook_squares.0);
        let rook_to = Square(rook_squares.1);
        let rook = self.board.piece_at(rook_from);
        self.board.set_piece(rook_from, None);
        self.board.set_piece(rook_to, rook);
    }

    fn make_promotion_move(&mut self, mv: &Move, piece: Piece)
        requires
            old(self).board.wf(),
            old(self).board.at(mv.from_sq() as int) == Some(piece),
            !mv.ep_flag(),
            !mv.castle_flag(),
            mv.promo_flag(),
            mv.promo() is Some,
        ensures
            final(self).board.wf(),
            forall|i: int| #[trigger] final(self).board.at(i) == board_after(old(self).board, *mv, i),
            final(self).en_passant == old(self).en_passant,
            final(self).castling_rights == old(self).castling_rights,
            final(self).history == old(self).history,
            final(self).side_to_move == old(self).side_to_move,
            final(self).halfmove_clock == old(self).halfmove_clock,
            final(self).fullmove_number == old(self).fullmove_number,
    {
        let from = mv.from();
        let to = mv.to();
        let promotion = match mv.promotion_piece() {
            Some(p) => p,
            None => piece.piece_type,
        };
        self.board.set_piece(from, None);
        self.board.set_piece(to, Some(Piece::new(piece.color, promotion)));
    }
}

/// The rook's source and destination for a castling king landing on `to`.
fn castling_rook_squares(to: u8) -> (r: Option<(u8, u8)>)
    ensures
        r matches Some((a, b)) ==> a < 64 && b < 64 && castle_rook(to as int) == Some((a as int, b as int)),
        r is None <==> castle_rook(to as int) is None,
{
    if to == 6 {
        Some((7, 5))
    } else if to == 2 {
        Some((0, 3))
    } else if to == 62 {
        Some((63, 61))
    } else if to == 58 {
        Some((56, 59))
    } else {
        None
    }
}

/// A run of `n` empty squares as FEN writes it: nothing for no square.
pub open spec fn run_text(n: int) -> Seq<char> {
    if n > 0 {
        decimal(n as nat)
    } else {
        Seq::empty()
    }
}

/// The FEN text of squares `file..8` of `rank`, after `run` empty squares.
pub open spec fn rank_text(b: Board, rank: int, file: int, run: int) -> Seq<char>
    decreases 8 - file,
{
    if file >= 8 {
        run_text(run)
    } else {
        match b.at(rank * 8 + file) {
            Some(p) => run_text(run) + seq![piece_char(p)] + rank_text(b, rank, file + 1, 0),
            None => rank_text(b, rank, file + 1, run + 1),
        }
    }
}

/// The FEN piece placement of ranks `rank` down to 1, separated by `/`.
pub open spec fn ranks_text(b: Board, rank: int) -> Seq<char>
    decreases rank,
{
    if rank <= 0 {
        rank_text(b, 0, 0, 0)
    } else {
        rank_text(b, rank, 0, 0) + seq!['/'] + ranks_text(b, rank - 1)
    }
}

pub open spec fn castling_text(cr: CastlingRights) -> Seq<char> {
    let t = (if cr.white_kingside {
        seq!['K']
    } else {
        Seq::empty()
    }) + (if cr.white_queenside {
        seq!['Q']
    } else {
        Seq::empty()
    }) + (if cr.black_kingside {
        seq!['k']
    } else {
        Seq::empty()
    }) + (if cr.black_queenside {
        seq!['q']
    } else {
        Seq::empty()
    });
    if t.len() == 0 {
        seq!['-']
    } else {
        t
    }
}

/// The side-to-move field.
pub open spec fn side_text(c: Color) -> Seq<char> {
    seq![
        if c == Color::White {
            'w'
        } else {
            'b'
        },
    ]
}

/// The en-passant field.
pub open spec fn ep_text(ep: Option<Square>) -> Seq<char> {
    match ep {
        Some(sq) => square_name(sq.0 as int),
        None => seq!['-'],
    }
}

/// The six-field FEN text of a position.
pub open spec fn fen_text(p: Position) -> Seq<char> {
    ranks_text(p.board, 7) + seq![' '] + side_text(p.side_to_move) + seq![' '] + castling_text(
        p.castling_rights,
    ) + seq![' '] + ep_text(p.en_passant) + seq![' '] + decimal(p.halfmove_clock as nat) + seq![' ']
        + decimal(p.fullmove_number as nat)
}

/// Appends the FEN text of one rank.
fn push_rank(fen: &mut String, board: &Board, rank: u8)
    requires
        rank < 8,
        board.wf(),
    ensures
        final(fen)@ == old(fen)@ + rank_text(*board, rank as int, 0, 0),
{
    let ghost before = fen@;
    let mut empty_count: u32 = 0;
    let mut file: u8 = 0;
    while file < 8
        invariant
            file <= 8,
            rank < 8,
            empty_count <= file,
            board.wf(),
            fen@ + rank_text(*board, rank as int, file as int, empty_count as int) == before
                + rank_text(*board, rank as int, 0, 0),
        decreases 8 - file,
    {
        let square = Square::new(file, rank);
        match board.piece_at(square) {
            Some(piece) => {
                if empty_count > 0 {
                    push_decimal(fen, empty_count as u64);
                    empty_count = 0;
                }
                push_char(fen, piece.to_char());
            },
            None => {
                empty_count = empty_count + 1;
            },
        }
        file = file + 1;
    }
    if empty_count > 0 {
        push_decimal(fen, empty_count as u64);
    }
    proof {
        assert(fen@ =~= before + rank_text(*board, rank as int, 0, 0));
    }
}

/// Appends the FEN piece placement of a board.
fn push_placement(fen: &mut String, board: &Board)
    requires
        board.wf(),
    ensures
        final(fen)@ == old(fen)@ + ranks_text(*board, 7),
{
    let ghost start = fen@;
    let mut rank: u8 = 8;
    while rank > 0
        invariant
            rank <= 8,
            board.wf(),
            fen@ + (if rank > 0 {
                ranks_text(*board, rank - 1)
            } else {
                Seq::empty()
            }) == start + ranks_text(*board, 7),
        decreases rank,
    {
        rank = rank - 1;
        let ghost before = fen@;
        push_rank(fen, board, rank);
        if rank > 0 {
            push_char(fen, '/');
            proof {
                assert(fen@ + ranks_text(*board, rank - 1) =~= before + ranks_text(*board, rank as int));
            }
        } else {
            proof {
                assert(fen@ =~= before + ranks_text(*board, 0));
            }
        }
    }
    proof {
        assert(fen@ =~= start + ranks_text(*board, 7));
    }
}

/// Appends the FEN castling field.
fn push_castling(fen: &mut String, cr: CastlingRights)
    ensures
        final(fen)@ == old(fen)@ + castling_text(cr),
{
    let ghost before = fen@;
    let mut any = false;
    if cr.white_kingside {
        push_char(fen, 'K');
        any = true;
    }
    if cr.white_queenside {
        push_char(fen, 'Q');
        any = true;
    }
    if cr.black_kingside {
        push_char(fen, 'k');
        any = true;
    }
    if cr.black_queenside {
        push_char(fen, 'q');
        any = true;
    }
    if !any {
        push_char(fen, '-');
    }
    proof {
        assert(fen@ =~= before + castling_text(cr));
    }
}

impl Position {
    #[verifier::rlimit(50)]
    pub fn to_fen(&self) -> (r: String)
        requires
            self.wf(),
        ensures
            r@ == fen_text(*self),
    {
        let mut fen = String::new();
        push_placement(&mut fen, &self.board);
        push_char(&mut fen, ' ');
        push_char(&mut fen, match self.side_to_move {
            Color::White => 'w',
            Color::Black => 'b',
        });
        push_char(&mut fen, ' ');
        push_castling(&mut fen, self.castling_rights);
        push_char(&mut fen, ' ');
        match self.en_passant {
            Some(sq) => push_square_name(&mut fen, sq.0),
            None => push_char(&mut fen, '-'),
        }
        push_char(&mut fen, ' ');
        push_decimal(&mut fen, self.halfmove_clock as u64);
        push_char(&mut fen, ' ');
        push_decimal(&mut fen, self.fullmove_number as u64);
        proof {
            assert(fen@ =~= fen_text(*self));
        }
        fen
    }
}

/// The castling field: `-` for no rights, else a run of the letters `KQkq`,
/// each granting its right.
pub open spec fn fen_castling(f: Seq<u8>) -> Option<CastlingRights> {
    if f == seq![45u8] {
        Some(
            CastlingRights {
                white_kingside: false,
                white_queenside: false,
                black_kingside: false,
                black_queenside: false,
            },
        )
    } else if forall|i: int|
        0 <= i < f.len() ==> (#[trigger] f[i] == 75u8 || f[i] == 81u8 || f[i] == 107u8 || f[i]
            == 113u8) {
        Some(
            CastlingRights {
                white_kingside: f.contains(75u8),
                white_queenside: f.contains(81u8),
                black_kingside: f.contains(107u8),
                black_queenside: f.contains(113u8),
            },
        )
    } else {
        None
    }
}

/// The side-to-move field: `w` or `b`.
pub open spec fn fen_side(f: Seq<u8>) -> Option<Color> {
    if f == seq![119u8] {
        Some(Color::White)
    } else if f == seq![98u8] {
        Some(Color::Black)
    } else {
        None
    }
}

/// The en-passant field: `-` for none, else a square name.
pub open spec fn fen_ep(f: Seq<u8>) -> Option<Option<Square>> {
    if f == seq![45u8] {
        Some(None)
    } else {
        match parse_square(f) {
            Some(sq) => Some(Some(sq)),
            None => None,
        }
    }
}

pub open spec fn empty_view() -> Seq<Option<Piece>> {
    Seq::new(64, |i: int| None::<Piece>)
}

/// What a board holds, square by square.
pub open spec fn board_view(b: Board) -> Seq<Option<Piece>> {
    Seq::new(64, |i: int| b.at(i))
}

/// Reads the placement field from `b[i..end]`, standing on `file` of `rank`
/// with the squares in `v` already filled: ranks run from the eighth down and
/// end with `/`, digits skip empty squares, letters place pieces, and every
/// rank must cover exactly eight files.
pub open spec fn scan_placement(
    b: Seq<u8>,
    i: int,
    end: int,
    rank: int,
    file: int,
    v: Seq<Option<Piece>>,
) -> Option<Seq<Option<Piece>>>
    decreases end - i,
{
    if i >= end {
        if rank == 0 && file == 8 {
            Some(v)
        } else {
            None
        }
    } else if b[i] == 47u8 {
        if file != 8 || rank == 0 {
            None
        } else {
            scan_placement(b, i + 1, end, rank - 1, 0, v)
        }
    } else if file >= 8 {
        None
    } else if 48 <= b[i] <= 57 {
        scan_placement(b, i + 1, end, rank, file + (b[i] - 48), v)
    } else {
        match piece_of_char(b[i] as char) {
            Some(p) => scan_placement(b, i + 1, end, rank, file + 1, v.update(rank * 8 + file, Some(p))),
            None => None,
        }
    }
}

/// The field `k` of `b`.
pub open spec fn field(b: Seq<u8>, k: int) -> Seq<u8> {
    b.subrange(fields(b)[k].0, fields(b)[k].1)
}

/// A FEN text read field by field: the placement, the side to move, the
/// castling rights, the en-passant square, and the two counters, which fall
/// back to 0 and 1 when missing or not a 32-bit number.
pub open spec fn fen_parts(b: Seq<u8>) -> Option<(Seq<Option<Piece>>, Color, CastlingRights, Option<Square>, u32, u32)> {
    let t = fields(b);
    if t.len() < 4 {
        None
    } else {
        match (
            scan_placement(b, t[0].0, t[0].1, 7, 0, empty_view()),
            fen_side(field(b, 1)),
            fen_castling(field(b, 2)),
            fen_ep(field(b, 3)),
        ) {
            (Some(v), Some(side), Some(cr), Some(ep)) => Some(
                (
                    v,
                    side,
                    cr,
                    ep,
                    if t.len() > 4 {
                        match parse_u32_spec(field(b, 4)) {
                            Some(n) => n,
                            None => 0,
                        }
                    } else {
                        0
                    },
                    if t.len() > 5 {
                        match parse_u32_spec(field(b, 5)) {
                            Some(n) => n,
                            None => 1,
                        }
                    } else {
                        1
                    },
                ),
            ),
            _ => None,
        }
    }
}

/// Reads the castling field.
fn parse_fen_castling(b: &[u8], start: usize, end: usize) -> (r: crate::Result<CastlingRights>)
    requires
        start < end <= b@.len(),
    ensures
        r is Ok <==> fen_castling(b@.subrange(start as int, end as int)) is Some,
        r matches Ok(cr) ==> fen_castling(b@.subrange(start as int, end as int)) == Some(cr),
        r matches Err(e) ==> e is InvalidFen,
{
    let ghost f = b@.subrange(start as int, end as int);
    let mut rights = CastlingRights::none();
    if end - start == 1 && b[start] == 45u8 {
        proof {
            assert(f =~= seq![45u8]);
        }
        return Ok(rights);
    }
    proof {
        assert(f != seq![45u8]) by {
            if f == seq![45u8] {
                assert(f.len() == 1 && f[0] == 45u8);
            }
        }
    }
    let mut i = start;
    while i < end
        invariant
            start <= i <= end <= b@.len(),
            f == b@.subrange(start as int, end as int),
            f != seq![45u8],
            forall|j: int|
                0 <= j < i - start ==> (#[trigger] f[j] == 75u8 || f[j] == 81u8 || f[j] == 107u8
                    || f[j] == 113u8),
            rights.white_kingside == f.subrange(0, i - start).contains(75u8),
            rights.white_queenside == f.subrange(0, i - start).contains(81u8),
            rights.black_kingside == f.subrange(0, i - start).contains(107u8),
            rights.black_queenside == f.subrange(0, i - start).contains(113u8),
        decreases end - i,
    {
        let c = b[i];
        let ghost pre = f.subrange(0, i - start);
        let ghost next = f.subrange(0, i - start + 1);
        proof {
            assert(next =~= pre.push(c));
            assert(f[i - start] == c);
        }
        if c == 75u8 {
            rights.white_kingside = true;
        } else if c == 81u8 {
            rights.white_queenside = true;
        } else if c == 107u8 {
            rights.black_kingside = true;
        } else if c == 113u8 {
            rights.black_queenside = true;
        } else {
            return Err(Error::InvalidFen("Invalid castling character".to_owned()));
        }
        proof {
            assert(next[pre.len() as int] == c);
            assert(next.contains(c));
            assert forall|x: u8| x != c implies next.contains(x) == pre.contains(x) by {
                if next.contains(x) {
                    let k = choose|k: int| 0 <= k < next.len() && next[k] == x;
                    assert(k < pre.len());
                    assert(pre[k] == x);
                }
                if pre.contains(x) {
                    let k = choose|k: int| 0 <= k < pre.len() && pre[k] == x;
                    assert(next[k] == x);
                }
            }
        }
        i = i + 1;
    }
    proof {
        assert(f.subrange(0, end - start) =~= f);
    }
    Ok(rights)
}

/// Reads the piece placement field `b[start..end]`.
fn parse_fen_board(b: &[u8], start: usize, end: usize) -> (r: crate::Result<Board>)
    requires
        start <= end <= b@.len(),
    ensures
        r is Ok <==> scan_placement(b@, start as int, end as int, 7, 0, empty_view()) is Some,
        r matches Ok(board) ==> board.wf() && board_view(board) == scan_placement(
            b@,
            start as int,
            end as int,
            7,
            0,
            empty_view(),
        )->0,
        r matches Err(e) ==> e is InvalidFen,
{
    let mut board = Board::new();
    let mut rank: u8 = 7;
    let mut file: u8 = 0;
    let mut i = start;
    proof {
        assert(board_view(board) =~= empty_view());
    }
    while i < end
        invariant
            start <= i <= end <= b@.len(),
            rank < 8,
            file <= 16,
            board.wf(),
            scan_placement(b@, start as int, end as int, 7, 0, empty_view()) == scan_placement(
                b@,
                i as int,
                end as int,
                rank as int,
                file as int,
                board_view(board),
            ),
        decreases end - i,
    {
        let c = b[i];
        if c == 47u8 {
            if file != 8 {
                return Err(Error::InvalidFen("Not enough files in rank".to_owned()));
            }
            if rank == 0 {
                return Err(Error::InvalidFen("Invalid number of ranks".to_owned()));
            }
            rank = rank - 1;
            file = 0;
        } else {
            if file >= 8 {
                return Err(Error::InvalidFen("Too many files in rank".to_owned()));
            }
            if 48u8 <= c && c <= 57u8 {
                file = file + (c - 48u8);
            } else {
                match Piece::from_char(c as char) {
                    Some(piece) => {
                        let ghost before = board_view(board);
                        board.set_piece(Square::new(file, rank), Some(piece));
                        proof {
                            assert(board_view(board) =~= before.update(rank * 8 + file, Some(piece)));
                        }
                        file = file + 1;
                    },
                    None => {
                        return Err(Error::InvalidFen("Invalid character in placement".to_owned()));
                    },
                }
            }
        }
        i = i + 1;
    }
    if rank != 0 {
        return Err(Error::InvalidFen("Invalid number of ranks".to_owned()));
    }
    if file != 8 {
        return Err(Error::InvalidFen("Not enough files in rank".to_owned()));
    }
    let ghost before = board_view(board);
    board.update_derived();
    proof {
        assert(board_view(board) =~= before);
    }
    Ok(board)
}

/// Whether `b[start..end]` is the single byte `c`.
fn field_is(b: &[u8], start: usize, end: usize, c: u8) -> (r: bool)
    requires
        start <= end <= b@.len(),
    ensures
        r == (b@.subrange(start as int, end as int) == seq![c]),
{
    let r = end > start && end - start == 1 && b[start] == c;
    proof {
        if r {
            assert(b@.subrange(start as int, end as int) =~= seq![c]);
        } else if b@.subrange(start as int, end as int) == seq![c] {
            assert(b@.subrange(start as int, end as int).len() == 1);
            assert(b@.subrange(start as int, end as int)[0] == c);
        }
    }
    r
}

impl Position {
    /// Reads a FEN text: placement, side to move, castling rights and
    /// en-passant square are required; the halfmove clock and the fullmove
    /// number default to 0 and 1 when missing or unreadable.
    pub fn from_fen(fen: &str) -> (r: crate::Result<Position>)
        ensures
            r is Ok <==> fen_parts(fen.spec_bytes()) is Some,
            r matches Ok(p) ==> {
                let (v, side, cr, ep, half, full) = fen_parts(fen.spec_bytes())->0;
                &&& p.wf()
                &&& p.history@.len() == 0
                &&& board_view(p.board) == v
                &&& p.side_to_move == side
                &&& p.castling_rights == cr
                &&& p.en_passant == ep
                &&& p.halfmove_clock == half
                &&& p.fullmove_number == full
            },
            r matches Err(e) ==> e is InvalidFen,
    {
        let b = fen.as_bytes();
        let parts = split_fields(b);
        let ghost t = fields(b@);
        proof {
            assert(parts@.len() == t.len());
            assert forall|k: int| 0 <= k < parts@.len() implies parts@[k].0 == t[k].0 && parts@[k].1
                == t[k].1 by {
                assert(as_spans(parts@)[k] == t[k]);
            }
        }
        if parts.len() < 4 {
            return Err(Error::InvalidFen("Not enough parts".to_owned()));
        }
        let board = match parse_fen_board(b, parts[0].0, parts[0].1) {
            Ok(board) => board,
            Err(e) => return Err(e),
        };
        let side_to_move = if field_is(b, parts[1].0, parts[1].1, 119u8) {
            Color::White
        } else if field_is(b, parts[1].0, parts[1].1, 98u8) {
            Color::Black
        } else {
            return Err(Error::InvalidFen("Invalid side to move".to_owned()));
        };
        let castling_rights = match parse_fen_castling(b, parts[2].0, parts[2].1) {
            Ok(cr) => cr,
            Err(e) => return Err(e),
        };
        let (ep_start, ep_end) = parts[3];
        let en_passant = if field_is(b, ep_start, ep_end, 45u8) {
            None
        } else if ep_end > ep_start && ep_end - ep_start == 2 {
            match square_from_bytes(b, ep_start) {
                Some(sq) => {
                    proof {
                        assert(b@.subrange(ep_start as int, ep_end as int) =~= seq![b@[ep_start as int], b@[ep_start + 1]]);
                    }
                    Some(sq)
                },
                None => {
                    proof {
                        assert(b@.subrange(ep_start as int, ep_end as int) =~= seq![b@[ep_start as int], b@[ep_start + 1]]);
                    }
                    return Err(Error::InvalidFen("Invalid en passant square".to_owned()));
                },
            }
        } else {
            return Err(Error::InvalidFen("Invalid en passant square".to_owned()));
        };
        let halfmove_clock = if parts.len() > 4 {
            match parse_u32(b, parts[4].0, parts[4].1) {
                Some(n) => n,
                None => 0,
            }
        } else {
            0
        };
        let fullmove_number = if parts.len() > 5 {
            match parse_u32(b, parts[5].0, parts[5].1) {
                Some(n) => n,
                None => 1,
            }
        } else {
            1
        };
        let p = Position {
            board,
            side_to_move,
            castling_rights,
            en_passant,
            halfmove_clock,
            fullmove_number,
            history: Vec::new(),
        };
        proof {
            assert(forall|i: int| 0 <= i < 64 ==> #[trigger] board_view(p.board)[i] == p.board.at(i));
        }
        Ok(p)
    }
}

/// `v` with the squares of `rank` from file `from` on taken from `b`.
pub open spec fn fill_rank(v: Seq<Option<Piece>>, b: Board, rank: int, from: int) -> Seq<Option<Piece>> {
    Seq::new(64, |k: int| if k / 8 == rank && k % 8 >= from { b.at(k) } else { v[k] })
}

/// The bytes at `i` are those of `x + y`: so those at `i` are `x`'s, and those
/// right after are `y`'s.
proof fn lemma_ascii_split(bytes: Seq<u8>, i: int, x: Seq<char>, y: Seq<char>)
    requires
        0 <= i,
        i + x.len() + y.len() <= bytes.len(),
        bytes.subrange(i, i + x.len() + y.len()) == ascii_bytes(x + y),
    ensures
        bytes.subrange(i, i + x.len()) == ascii_bytes(x),
        bytes.subrange(i + x.len(), i + x.len() + y.len()) == ascii_bytes(y),
{
    assert forall|k: int| 0 <= k < x.len() implies bytes.subrange(i, i + x.len())[k] == ascii_bytes(x)[k] by {
        assert(bytes.subrange(i, i + x.len() + y.len())[k] == ascii_bytes(x + y)[k]);
    }
    assert forall|k: int| 0 <= k < y.len() implies bytes.subrange(i + x.len(), i + x.len() + y.len())[k] == ascii_bytes(y)[k] by {
        assert(bytes.subrange(i, i + x.len() + y.len())[x.len() + k] == ascii_bytes(x + y)[x.len() + k]);
    }
    assert(bytes.subrange(i, i + x.len()) =~= ascii_bytes(x));
    assert(bytes.subrange(i + x.len(), i + x.len() + y.len()) =~= ascii_bytes(y));
}

/// Reading the FEN text of the squares `file..8` of `rank`, after `run`
/// empty squares, fills those squares of the view from the board.
proof fn lemma_scan_rank(bytes: Seq<u8>, i: int, end: int, b: Board, rank: int, file: int, run: int, v: Seq<Option<Piece>>)
    requires
        b.wf(),
        0 <= rank < 8,
        0 <= run <= file <= 8,
        v.len() == 64,
        0 <= i,
        i + rank_text(b, rank, file, run).len() <= end <= bytes.len(),
        bytes.subrange(i, i + rank_text(b, rank, file, run).len()) == ascii_bytes(rank_text(b, rank, file, run)),
        forall|k: int| rank * 8 + file - run <= k < rank * 8 + 8 ==> (#[trigger] v[k]) is None,
        forall|k: int| rank * 8 + file - run <= k < rank * 8 + file ==> (#[trigger] b.at(k)) is None,
    ensures
        scan_placement(bytes, i, end, rank, file - run, v) == scan_placement(
            bytes,
            i + rank_text(b, rank, file, run).len(),
            end,
            rank,
            8,
            fill_rank(v, b, rank, file - run),
        ),
    decreases 8 - file,
{
    let t = rank_text(b, rank, file, run);
    if file >= 8 {
        if run > 0 {
            assert(t == decimal(run as nat));
            assert(t == seq![digit_char(run as nat)]);
            assert(bytes.subrange(i, i + 1)[0] == bytes[i]);
            assert(bytes[i] == run + 48);
        }
        assert(fill_rank(v, b, rank, file - run) =~= v);
    } else {
        let sq = rank * 8 + file;
        match b.at(sq) {
            Some(p) => {
                let head = run_text(run);
                let mid = seq![piece_char(p)];
                let tail = rank_text(b, rank, file + 1, 0);
                assert(t == head + mid + tail);
                lemma_ascii_split(bytes, i, head + mid, tail);
                lemma_ascii_split(bytes, i, head, mid);
                let j = i + head.len();
                if run > 0 {
                    assert(head == seq![digit_char(run as nat)]);
                    assert(bytes.subrange(i, i + 1)[0] == bytes[i]);
                    assert(bytes[i] == run + 48);
                }
                assert(bytes.subrange(j, j + 1)[0] == bytes[j]);
                assert(bytes[j] == piece_char(p) as u8);
                crate::board::lemma_piece_char_round_trip(p);
                let v1 = v.update(sq, Some(p));
                assert(scan_placement(bytes, i, end, rank, file - run, v) == scan_placement(bytes, j, end, rank, file, v));
                assert(piece_of_char(bytes[j] as char) == Some(p));
                assert(scan_placement(bytes, j, end, rank, file, v) == scan_placement(bytes, j + 1, end, rank, file + 1, v1));
                lemma_scan_rank(bytes, j + 1, end, b, rank, file + 1, 0, v1);
                assert(fill_rank(v1, b, rank, file + 1) =~= fill_rank(v, b, rank, file - run));
            },
            None => {
                assert(t == rank_text(b, rank, file + 1, run + 1));
                lemma_scan_rank(bytes, i, end, b, rank, file + 1, run + 1, v);
            },
        }
    }
}

/// Reading the FEN text of ranks `rank` down to 1 fills the view from the board.
proof fn lemma_scan_ranks(bytes: Seq<u8>, i: int, b: Board, rank: int, v: Seq<Option<Piece>>)
    requires
        b.wf(),
        0 <= rank < 8,
        v.len() == 64,
        0 <= i,
        i + ranks_text(b, rank).len() <= bytes.len(),
        bytes.subrange(i, i + ranks_text(b, rank).len()) == ascii_bytes(ranks_text(b, rank)),
        forall|k: int| 0 <= k < rank * 8 + 8 ==> (#[trigger] v[k]) is None,
        forall|k: int| rank * 8 + 8 <= k < 64 ==> #[trigger] v[k] == b.at(k),
    ensures
        scan_placement(bytes, i, i + ranks_text(b, rank).len(), rank, 0, v) == Some(board_view(b)),
    decreases rank,
{
    let rt = rank_text(b, rank, 0, 0);
    let end = i + ranks_text(b, rank).len();
    let v1 = fill_rank(v, b, rank, 0);
    if rank == 0 {
        assert(ranks_text(b, rank) == rt);
        lemma_scan_rank(bytes, i, end, b, rank, 0, 0, v);
        assert(v1 =~= board_view(b));
    } else {
        let rest = ranks_text(b, rank - 1);
        assert(ranks_text(b, rank) == rt + seq!['/'] + rest);
        lemma_ascii_split(bytes, i, rt + seq!['/'], rest);
        lemma_ascii_split(bytes, i, rt, seq!['/']);
        lemma_scan_rank(bytes, i, end, b, rank, 0, 0, v);
        let j = i + rt.len();
        assert(bytes.subrange(j, j + 1)[0] == bytes[j]);
        assert(bytes[j] == 47u8);
        assert(scan_placement(bytes, j, end, rank, 8, v1) == scan_placement(bytes, j + 1, end, rank - 1, 0, v1));
        lemma_scan_ranks(bytes, j + 1, b, rank - 1, v1);
    }
}

/// A byte occurs in `x + y` exactly when it occurs in `x` or in `y`.
proof fn lemma_contains_concat(x: Seq<u8>, y: Seq<u8>, c: u8)
    ensures
        (x + y).contains(c) == (x.contains(c) || y.contains(c)),
{
    if (x + y).contains(c) {
        let k = choose|k: int| 0 <= k < (x + y).len() && (x + y)[k] == c;
        if k < x.len() {
            assert(x[k] == c);
        } else {
            assert(y[k - x.len()] == c);
        }
    }
    if x.contains(c) {
        let k = choose|k: int| 0 <= k < x.len() && x[k] == c;
        assert((x + y)[k] == c);
    }
    if y.contains(c) {
        let k = choose|k: int| 0 <= k < y.len() && y[k] == c;
        assert((x + y)[x.len() + k] == c);
    }
}

proof fn lemma_ascii_concat(x: Seq<char>, y: Seq<char>)
    ensures
        ascii_bytes(x + y) == ascii_bytes(x) + ascii_bytes(y),
{
    assert(ascii_bytes(x + y) =~= ascii_bytes(x) + ascii_bytes(y));
}

/// One letter when `b` holds, nothing otherwise.
pub open spec fn letter_if(b: bool, c: char) -> Seq<char> {
    if b {
        seq![c]
    } else {
        Seq::empty()
    }
}

/// Reading back the castling field gives the rights.
proof fn lemma_castling_round_trip(cr: CastlingRights)
    ensures
        fen_castling(ascii_bytes(castling_text(cr))) == Some(cr),
        castling_text(cr).len() > 0,
        word_chars(castling_text(cr)),
{
    let a = letter_if(cr.white_kingside, 'K');
    let b = letter_if(cr.white_queenside, 'Q');
    let c = letter_if(cr.black_kingside, 'k');
    let d = letter_if(cr.black_queenside, 'q');
    let t = a + b + c + d;
    assert(castling_text(cr) == if t.len() == 0 {
        seq!['-']
    } else {
        t
    });
    lemma_ascii_concat(a + b + c, d);
    lemma_ascii_concat(a + b, c);
    lemma_ascii_concat(a, b);
    let f = ascii_bytes(t);
    assert(f == ascii_bytes(a) + ascii_bytes(b) + ascii_bytes(c) + ascii_bytes(d));
    assert forall|x: u8| #[trigger] f.contains(x) == (ascii_bytes(a).contains(x) || ascii_bytes(b).contains(x)
        || ascii_bytes(c).contains(x) || ascii_bytes(d).contains(x)) by {
        lemma_contains_concat(ascii_bytes(a) + ascii_bytes(b) + ascii_bytes(c), ascii_bytes(d), x);
        lemma_contains_concat(ascii_bytes(a) + ascii_bytes(b), ascii_bytes(c), x);
        lemma_contains_concat(ascii_bytes(a), ascii_bytes(b), x);
    }
    assert(ascii_bytes(a) =~= (if cr.white_kingside { seq![75u8] } else { Seq::<u8>::empty() }));
    assert(ascii_bytes(b) =~= (if cr.white_queenside { seq![81u8] } else { Seq::<u8>::empty() }));
    assert(ascii_bytes(c) =~= (if cr.black_kingside { seq![107u8] } else { Seq::<u8>::empty() }));
    assert(ascii_bytes(d) =~= (if cr.black_queenside { seq![113u8] } else { Seq::<u8>::empty() }));
    if t.len() == 0 {
        assert(ascii_bytes(seq!['-']) =~= seq![45u8]);
    } else {
        assert forall|i: int| 0 <= i < f.len() implies (#[trigger] f[i] == 75u8 || f[i] == 81u8 || f[i] == 107u8 || f[i] == 113u8) by {
            assert(f.contains(f[i]));
        }
        if f == seq![45u8] {
            assert(f[0] == 45u8);
            assert(f.contains(45u8));
        }
        assert(f.contains(75u8) == cr.white_kingside) by {
            if cr.white_kingside { assert(ascii_bytes(a)[0] == 75u8); }
        }
        assert(f.contains(81u8) == cr.white_queenside) by {
            if cr.white_queenside { assert(ascii_bytes(b)[0] == 81u8); }
        }
        assert(f.contains(107u8) == cr.black_kingside) by {
            if cr.black_kingside { assert(ascii_bytes(c)[0] == 107u8); }
        }
        assert(f.contains(113u8) == cr.black_queenside) by {
            if cr.black_queenside { assert(ascii_bytes(d)[0] == 113u8); }
        }
    }
    assert forall|i: int| #![trigger castling_text(cr)[i]] 0 <= i < castling_text(cr).len() implies '\0' <= castling_text(cr)[i] <= '\u{7f}' && !is_space(castling_text(cr)[i] as u8) by {
        if t.len() > 0 {
            assert(ascii_bytes(t)[i] == t[i] as u8);
            assert(f.contains(f[i]));
        }
    }
}

proof fn lemma_word_concat(x: Seq<char>, y: Seq<char>)
    requires
        word_chars(x),
        word_chars(y),
    ensures
        word_chars(x + y),
{
    assert forall|i: int| #![trigger (x + y)[i]] 0 <= i < (x + y).len() implies '\0' <= (x + y)[i] <= '\u{7f}' && !is_space((x + y)[i] as u8) by {
        if i < x.len() {
            assert((x + y)[i] == x[i]);
        } else {
            assert((x + y)[i] == y[i - x.len()]);
        }
    }
}

/// The FEN text of a rank is ASCII without spaces, and not empty while squares
/// or a pending run remain.
proof fn lemma_rank_text_word(b: Board, rank: int, file: int, run: int)
    requires
        0 <= run <= 8,
        0 <= file <= 8,
        run + 8 - file <= 8,
    ensures
        word_chars(rank_text(b, rank, file, run)),
        run > 0 || file < 8 ==> rank_text(b, rank, file, run).len() > 0,
    decreases 8 - file,
{
    if run > 0 {
        lemma_decimal_digits(run as nat);
    }
    assert(word_chars(run_text(run)));
    if file < 8 {
        match b.at(rank * 8 + file) {
            Some(p) => {
                lemma_rank_text_word(b, rank, file + 1, 0);
                assert(word_chars(seq![piece_char(p)]));
                lemma_word_concat(run_text(run), seq![piece_char(p)]);
                lemma_word_concat(run_text(run) + seq![piece_char(p)], rank_text(b, rank, file + 1, 0));
            },
            None => {
                lemma_rank_text_word(b, rank, file + 1, run + 1);
            },
        }
    }
}

proof fn lemma_ranks_text_word(b: Board, rank: int)
    requires
        0 <= rank < 8,
    ensures
        word_chars(ranks_text(b, rank)),
        ranks_text(b, rank).len() > 0,
    decreases rank,
{
    lemma_rank_text_word(b, rank, 0, 0);
    if rank > 0 {
        lemma_ranks_text_word(b, rank - 1);
        assert(word_chars(seq!['/']));
        lemma_word_concat(rank_text(b, rank, 0, 0), seq!['/']);
        lemma_word_concat(rank_text(b, rank, 0, 0) + seq!['/'], ranks_text(b, rank - 1));
    }
}

/// The FEN text of a rank depends only on what stands on the board.
proof fn lemma_rank_text_view(b: Board, c: Board, rank: int, file: int, run: int)
    requires
        0 <= rank < 8,
        0 <= file <= 8,
        board_view(b) == board_view(c),
    ensures
        rank_text(b, rank, file, run) == rank_text(c, rank, file, run),
    decreases 8 - file,
{
    if file < 8 {
        assert(board_view(b)[rank * 8 + file] == b.at(rank * 8 + file));
        assert(board_view(c)[rank * 8 + file] == c.at(rank * 8 + file));
        lemma_rank_text_view(b, c, rank, file + 1, 0);
        lemma_rank_text_view(b, c, rank, file + 1, run + 1);
    }
}

proof fn lemma_ranks_text_view(b: Board, c: Board, rank: int)
    requires
        0 <= rank < 8,
        board_view(b) == board_view(c),
    ensures
        ranks_text(b, rank) == ranks_text(c, rank),
    decreases rank,
{
    lemma_rank_text_view(b, c, rank, 0, 0);
    if rank > 0 {
        lemma_ranks_text_view(b, c, rank - 1);
    }
}

proof fn lemma_ascii_sub(w: Seq<char>, lo: int, hi: int)
    requires
        0 <= lo <= hi <= w.len(),
    ensures
        ascii_bytes(w).subrange(lo, hi) == ascii_bytes(w.subrange(lo, hi)),
{
    assert(ascii_bytes(w).subrange(lo, hi) =~= ascii_bytes(w.subrange(lo, hi)));
}

proof fn lemma_word_ascii(x: Seq<char>)
    requires
        word_chars(x),
    ensures
        vstd::utf8::is_ascii_chars(x),
{
    assert forall|i: int| 0 <= i < x.len() implies '\0' <= #[trigger] x[i] <= '\u{7f}' by {
        assert(word_chars(x));
    }
}

/// The fields of a position's FEN text are ASCII without spaces.
proof fn lemma_fen_words(p: Position)
    requires
        p.wf(),
    ensures
        word_chars(ranks_text(p.board, 7)),
        ranks_text(p.board, 7).len() > 0,
        word_chars(side_text(p.side_to_move)),
        word_chars(castling_text(p.castling_rights)),
        castling_text(p.castling_rights).len() > 0,
        word_chars(ep_text(p.en_passant)),
        ep_text(p.en_passant).len() > 0,
        word_chars(decimal(p.halfmove_clock as nat)),
        decimal(p.halfmove_clock as nat).len() > 0,
        word_chars(decimal(p.fullmove_number as nat)),
        decimal(p.fullmove_number as nat).len() > 0,
        vstd::utf8::is_ascii_chars(fen_text(p)),
{
    lemma_ranks_text_word(p.board, 7);
    lemma_castling_round_trip(p.castling_rights);
    lemma_decimal_digits(p.halfmove_clock as nat);
    lemma_decimal_digits(p.fullmove_number as nat);
    assert(word_chars(side_text(p.side_to_move)));
    assert(word_chars(ep_text(p.en_passant)));
    let sp = seq![' '];
    assert(vstd::utf8::is_ascii_chars(sp));
    let pl = ranks_text(p.board, 7);
    let sd = side_text(p.side_to_move);
    let cs = castling_text(p.castling_rights);
    let ep = ep_text(p.en_passant);
    let hm = decimal(p.halfmove_clock as nat);
    let fm = decimal(p.fullmove_number as nat);
    lemma_word_ascii(pl);
    lemma_word_ascii(sd);
    lemma_word_ascii(cs);
    lemma_word_ascii(ep);
    lemma_word_ascii(hm);
    lemma_word_ascii(fm);
    vstd::utf8::is_ascii_chars_concat(pl + sp, pl, sp);
    vstd::utf8::is_ascii_chars_concat(pl + sp + sd, pl + sp, sd);
    vstd::utf8::is_ascii_chars_concat(pl + sp + sd + sp, pl + sp + sd, sp);
    vstd::utf8::is_ascii_chars_concat(pl + sp + sd + sp + cs, pl + sp + sd + sp, cs);
    vstd::utf8::is_ascii_chars_concat(pl + sp + sd + sp + cs + sp, pl + sp + sd + sp + cs, sp);
    vstd::utf8::is_ascii_chars_concat(pl + sp + sd + sp + cs + sp + ep, pl + sp + sd + sp + cs + sp, ep);
    vstd::utf8::is_ascii_chars_concat(pl + sp + sd + sp + cs + sp + ep + sp, pl + sp + sd + sp + cs + sp + ep, sp);
    vstd::utf8::is_ascii_chars_concat(pl + sp + sd + sp + cs + sp + ep + sp + hm, pl + sp + sd + sp + cs + sp + ep + sp, hm);
    vstd::utf8::is_ascii_chars_concat(pl + sp + sd + sp + cs + sp + ep + sp + hm + sp, pl + sp + sd + sp + cs + sp + ep + sp + hm, sp);
    vstd::utf8::is_ascii_chars_concat(fen_text(p), pl + sp + sd + sp + cs + sp + ep + sp + hm + sp, fm);
}

/// The fields of a position's FEN text are, in order, its placement, side to
/// move, castling rights, en-passant square and the two counters.
#[verifier::rlimit(40)]
proof fn lemma_fen_layout(p: Position)
    requires
        p.wf(),
    ensures
        fields(encode_utf8(fen_text(p))).len() == 6,
        ranks_text(p.board, 7).len() <= encode_utf8(fen_text(p)).len(),
        fields(encode_utf8(fen_text(p)))[0] == (0int, ranks_text(p.board, 7).len() as int),
        encode_utf8(fen_text(p)).subrange(0, ranks_text(p.board, 7).len() as int) == ascii_bytes(ranks_text(p.board, 7)),
        field(encode_utf8(fen_text(p)), 1) == ascii_bytes(side_text(p.side_to_move)),
        field(encode_utf8(fen_text(p)), 2) == ascii_bytes(castling_text(p.castling_rights)),
        field(encode_utf8(fen_text(p)), 3) == ascii_bytes(ep_text(p.en_passant)),
        field(encode_utf8(fen_text(p)), 4) == ascii_bytes(decimal(p.halfmove_clock as nat)),
        field(encode_utf8(fen_text(p)), 5) == ascii_bytes(decimal(p.fullmove_number as nat)),
{
    lemma_fen_words(p);
    let sp = seq![' '];
    let pl = ranks_text(p.board, 7);
    let sd = side_text(p.side_to_move);
    let cs = castling_text(p.castling_rights);
    let ep = ep_text(p.en_passant);
    let hm = decimal(p.halfmove_clock as nat);
    let fm = decimal(p.fullmove_number as nat);
    let w = fen_text(p);
    crate::board::lemma_ascii_encoding(w);
    let bytes = ascii_bytes(w);
    let a0 = 0int;
    let e0 = pl.len() as int;
    let a1 = e0 + 1;
    let e1 = a1 + sd.len();
    let a2 = e1 + 1;
    let e2 = a2 + cs.len();
    let a3 = e2 + 1;
    let e3 = a3 + ep.len();
    let a4 = e3 + 1;
    let e4 = a4 + hm.len();
    let a5 = e4 + 1;
    let e5 = a5 + fm.len();
    assert(w.len() == e5);
    assert(w.subrange(a0, e0) =~= pl);
    assert(w.subrange(a1, e1) =~= sd);
    assert(w.subrange(a2, e2) =~= cs);
    assert(w.subrange(a3, e3) =~= ep);
    assert(w.subrange(a4, e4) =~= hm);
    assert(w.subrange(a5, e5) =~= fm);
    assert(w[e0] == ' ' && w[e1] == ' ' && w[e2] == ' ' && w[e3] == ' ' && w[e4] == ' ');
    lemma_ascii_sub(w, a0, e0);
    lemma_ascii_sub(w, a1, e1);
    lemma_ascii_sub(w, a2, e2);
    lemma_ascii_sub(w, a3, e3);
    lemma_ascii_sub(w, a4, e4);
    lemma_ascii_sub(w, a5, e5);
    lemma_spans_word(bytes, a5, fm);
    lemma_spans_word(bytes, a4, hm);
    lemma_spans_word(bytes, a3, ep);
    lemma_spans_word(bytes, a2, cs);
    lemma_spans_word(bytes, a1, sd);
    lemma_spans_word(bytes, a0, pl);
    assert(fields(bytes) =~= seq![(a0, e0), (a1, e1), (a2, e2), (a3, e3), (a4, e4), (a5, e5)]);
}

/// Reading back the FEN text of a position gives its placement, side to move,
/// castling rights, en-passant square and both counters.
pub proof fn lemma_fen_round_trip(p: Position)
    requires
        p.wf(),
    ensures
        fen_parts(encode_utf8(fen_text(p))) == Some(
            (
                board_view(p.board),
                p.side_to_move,
                p.castling_rights,
                p.en_passant,
                p.halfmove_clock,
                p.fullmove_number,
            ),
        ),
{
    lemma_fen_layout(p);
    lemma_castling_round_trip(p.castling_rights);
    lemma_decimal_parses(p.halfmove_clock);
    lemma_decimal_parses(p.fullmove_number);
    let bytes = encode_utf8(fen_text(p));
    lemma_scan_ranks(bytes, 0, p.board, 7, empty_view());
    let sd = side_text(p.side_to_move);
    if p.side_to_move == Color::White {
        assert(ascii_bytes(sd) =~= seq![119u8]);
    } else {
        assert(ascii_bytes(sd) =~= seq![98u8]);
        assert(seq![98u8] != seq![119u8]) by {
            assert(seq![98u8][0] != seq![119u8][0]);
        }
    }
    let ep = ep_text(p.en_passant);
    match p.en_passant {
        Some(sq) => {
            crate::board::lemma_square_name_round_trip(sq.0 as int);
            assert(vstd::utf8::is_ascii_chars(square_name(sq.0 as int)));
            crate::board::lemma_ascii_encoding(square_name(sq.0 as int));
            assert(ascii_bytes(ep).len() == 2);
        },
        None => {
            assert(ascii_bytes(ep) =~= seq![45u8]);
        },
    }
    assert(fen_side(field(bytes, 1)) == Some(p.side_to_move));
    assert(fen_castling(field(bytes, 2)) == Some(p.castling_rights));
    assert(fen_ep(field(bytes, 3)) == Some(p.en_passant));
    assert(parse_u32_spec(field(bytes, 4)) == Some(p.halfmove_clock));
    assert(parse_u32_spec(field(bytes, 5)) == Some(p.fullmove_number));
    assert(scan_placement(bytes, fields(bytes)[0].0, fields(bytes)[0].1, 7, 0, empty_view()) == Some(board_view(p.board)));
}

/// Writing out the position read from a position's FEN text gives that text back.
pub proof fn lemma_fen_text_round_trip(p: Position, q: Position)
    requires
        p.wf(),
        fen_parts(encode_utf8(fen_text(p))) == Some(
            (
                board_view(q.board),
                q.side_to_move,
                q.castling_rights,
                q.en_passant,
                q.halfmove_clock,
                q.fullmove_number,
            ),
        ),
    ensures
        fen_text(q) == fen_text(p),
{
    lemma_fen_round_trip(p);
    lemma_ranks_text_view(p.board, q.board, 7);
}

/// What play depends on in a position: everything but the move history.
pub struct State {
    pub board: Board,
    pub side: Color,
    pub castling: CastlingRights,
    pub ep: Option<Square>,
    pub half: u32,
    pub full: u32,
}

pub open spec fn state_of(p: Position) -> State {
    State {
        board: p.board,
        side: p.side_to_move,
        castling: p.castling_rights,
        ep: p.en_passant,
        half: p.halfmove_clock,
        full: p.fullmove_number,
    }
}

/// `t` is `s` after `mv` was played.
pub open spec fn stepped(s: State, mv: Move, t: State) -> bool {
    let from = mv.from_sq() as int;
    let to = mv.to_sq() as int;
    &&& t.board.wf()
    &&& forall|i: int| #[trigger] t.board.at(i) == board_after(s.board, mv, i)
    &&& t.castling == rights_after(s.castling, s.board.at(from), from, to)
    &&& t.ep == ep_after(s.board, mv)
    &&& t.half == (if type_of_code(mv.piece_code()) == PieceType::Pawn || s.board.at(to) is Some {
        0
    } else {
        next_count(s.half)
    })
    &&& t.full == (if s.side == Color::Black {
        next_count(s.full)
    } else {
        s.full
    })
    &&& t.side == s.side.other()
}

/// The state after `mv` is played in `s`.
pub open spec fn next_state(s: State, mv: Move) -> State {
    choose|t: State| stepped(s, mv, t)
}

/// On a well-formed board, a piece set holds a square exactly when that piece stands there.
proof fn lemma_bb_at(b: Board, c: Color, p: PieceType, i: int)
    requires
        b.wf(),
    ensures
        b.bb(c, p).has(i) == (b.at(i) == Some(Piece { color: c, piece_type: p })),
{
}

/// Two well-formed boards with the same piece on every square are the same board.
pub proof fn lemma_board_ext(b1: Board, b2: Board)
    requires
        b1.wf(),
        b2.wf(),
        forall|i: int| 0 <= i < 64 ==> #[trigger] b1.at(i) == b2.at(i),
    ensures
        b1 == b2,
{
    assert forall|c: Color, p: PieceType| #[trigger] b1.bb(c, p) == b2.bb(c, p) by {
        assert forall|i: u64| i < 64 implies crate::bitboard::bit(b1.bb(c, p).0, i) == crate::bitboard::bit(b2.bb(c, p).0, i) by {
            lemma_bb_at(b1, c, p, i as int);
            lemma_bb_at(b2, c, p, i as int);
            assert(b1.at(i as int) == b2.at(i as int));
        }
        crate::bitboard::lemma_bits_ext(b1.bb(c, p).0, b2.bb(c, p).0);
    }
    let colors = seq![Color::White, Color::Black];
    let types = seq![PieceType::Pawn, PieceType::Knight, PieceType::Bishop, PieceType::Rook, PieceType::Queen, PieceType::King];
    assert forall|ci: int| 0 <= ci < 2 implies #[trigger] b1.pieces[ci] == b2.pieces[ci] by {
        let c = colors[ci];
        assert(c.idx() == ci);
        assert forall|pi: int| 0 <= pi < 6 implies #[trigger] b1.pieces[ci][pi] == b2.pieces[ci][pi] by {
            let p = types[pi];
            assert(p.idx() == pi);
            assert(b1.bb(c, p) == b2.bb(c, p));
        }
        assert(b1.pieces[ci] =~= b2.pieces[ci]);
    }
    assert(b1.pieces =~= b2.pieces);
    assert forall|i: u64| i < 64 implies crate::bitboard::bit(b1.white.0, i) == crate::bitboard::bit(b2.white.0, i)
        && crate::bitboard::bit(b1.black.0, i) == crate::bitboard::bit(b2.black.0, i)
        && crate::bitboard::bit(b1.occupied.0, i) == crate::bitboard::bit(b2.occupied.0, i)
        && crate::bitboard::bit(b1.empty.0, i) == crate::bitboard::bit(b2.empty.0, i) by {
        let k = i as int;
        assert(b1.white.has(k) == b2.white.has(k));
        assert(b1.black.has(k) == b2.black.has(k));
        assert(b1.occupied.has(k) == b2.occupied.has(k));
        assert(b1.empty.has(k) == b2.empty.has(k));
    }
    crate::bitboard::lemma_bits_ext(b1.white.0, b2.white.0);
    crate::bitboard::lemma_bits_ext(b1.black.0, b2.black.0);
    crate::bitboard::lemma_bits_ext(b1.occupied.0, b2.occupied.0);
    crate::bitboard::lemma_bits_ext(b1.empty.0, b2.empty.0);
}

/// Playing a move gives the state `next_state` names.
pub proof fn lemma_made_next(p: Position, mv: Move, q: Position)
    requires
        made(p, mv, q),
    ensures
        stepped(state_of(p), mv, state_of(q)),
        next_state(state_of(p), mv) == state_of(q),
{
    let s = state_of(p);
    assert(stepped(s, mv, state_of(q)));
    let t = next_state(s, mv);
    assert(stepped(s, mv, t));
    assert forall|i: int| 0 <= i < 64 implies #[trigger] t.board.at(i) == q.board.at(i) by {
        assert(t.board.at(i) == board_after(s.board, mv, i));
        assert(q.board.at(i) == board_after(p.board, mv, i));
    }
    lemma_board_ext(t.board, q.board);
}

} // verus!
