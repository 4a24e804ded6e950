use vstd::prelude::*;

use crate::board::{parse_square, push_square_name, square_name, Board, Color, PieceType, Square};
use crate::text::{ascii_bytes, push_char};
use vstd::string::StringSliceAdditionalSpecFns;
use vstd::utf8::encode_utf8;

verus! {

/// A move packed into 32 bits: from-square in bits 0-5, to-square in bits 6-11,
/// moving piece type in bits 12-14, promotion type in bits 16-18, and flags for
/// promotion (bit 20), en passant (bit 21) and castling (bit 22).
#[derive(Debug, Clone, Copy, PartialEq, Eq, Structural)]
pub struct Move {
    data: u32,
}

pub open spec fn type_code(p: PieceType) -> u32 {
    p.idx() as u32
}

pub open spec fn type_of_code(c: u32) -> PieceType {
    if c == 0 {
        PieceType::Pawn
    } else if c == 1 {
        PieceType::Knight
    } else if c == 2 {
        PieceType::Bishop
    } else if c == 3 {
        PieceType::Rook
    } else if c == 4 {
        PieceType::Queen
    } else {
        PieceType::King
    }
}

/// The word of a move with the given fields; `flags` holds the promotion,
/// en-passant and castling bits, lowest first.
pub open spec fn pack(from: u32, to: u32, piece: u32, promo: u32, flags: u32) -> u32 {
    from | (to << 6u32) | (piece << 12u32) | (promo << 16u32) | (flags << 20u32)
}

proof fn lemma_unpack(from: u32, to: u32, piece: u32, promo: u32, flags: u32)
    by (bit_vector)
    requires
        from < 64,
        to < 64,
        piece < 8,
        promo < 8,
        flags == 0 || flags == 1 || flags == 2 || flags == 4,
    ensures
        pack(from, to, piece, promo, flags) & 0x3Fu32 == from,
        (pack(from, to, piece, promo, flags) >> 6u32) & 0x3Fu32 == to,
        (pack(from, to, piece, promo, flags) >> 12u32) & 7u32 == piece,
        (pack(from, to, piece, promo, flags) >> 16u32) & 7u32 == promo,
        (pack(from, to, piece, promo, flags) & 0x100000u32 != 0) == (flags == 1),
        (pack(from, to, piece, promo, flags) & 0x200000u32 != 0) == (flags == 2),
        (pack(from, to, piece, promo, flags) & 0x400000u32 != 0) == (flags == 4),
{
}

/// The promotion letters that the coordinate notation accepts.
pub open spec fn promo_of_byte(c: u8) -> Option<PieceType> {
    if c == 110 || c == 78 {
        Some(PieceType::Knight)
    } else if c == 98 || c == 66 {
        Some(PieceType::Bishop)
    } else if c == 114 || c == 82 {
        Some(PieceType::Rook)
    } else if c == 113 || c == 81 {
        Some(PieceType::Queen)
    } else {
        None
    }
}

/// The letter written after a promotion to `p`.
pub open spec fn promo_letter(p: PieceType) -> char {
    match p {
        PieceType::Knight => 'n',
        PieceType::Bishop => 'b',
        PieceType::Rook => 'r',
        PieceType::Queen => 'q',
        _ => '?',
    }
}

/// The destination of `mv` holds a piece of the side opposite to the mover's.
pub open spec fn takes_opponent(b: Board, mv: Move) -> bool {
    match (b.at(mv.from_sq() as int), b.at(mv.to_sq() as int)) {
        (Some(mover), Some(victim)) => mover.color != victim.color,
        _ => false,
    }
}

impl Move {
    pub closed spec fn from_sq(self) -> u32 {
        self.data & 0x3F
    }

    pub closed spec fn to_sq(self) -> u32 {
        (self.data >> 6u32) & 0x3F
    }

    pub closed spec fn piece_code(self) -> u32 {
        (self.data >> 12u32) & 7
    }

    pub closed spec fn promo_code(self) -> u32 {
        (self.data >> 16u32) & 7
    }

    pub closed spec fn promo_flag(self) -> bool {
        self.data & 0x100000 != 0
    }

    pub closed spec fn ep_flag(self) -> bool {
        self.data & 0x200000 != 0
    }

    pub closed spec fn castle_flag(self) -> bool {
        self.data & 0x400000 != 0
    }

    /// The piece type to promote to, when the move is a promotion.
    pub open spec fn promo(self) -> Option<PieceType> {
        if self.promo_flag() && self.promo_code() <= 5 {
            Some(type_of_code(self.promo_code()))
        } else {
            None
        }
    }

    pub closed spec fn plain(from: u8, to: u8, piece: PieceType) -> Move {
        Move { data: pack(from as u32, to as u32, type_code(piece), 0, 0) }
    }

    pub closed spec fn promoting(from: u8, to: u8, piece: PieceType, promo: PieceType) -> Move {
        Move { data: pack(from as u32, to as u32, type_code(piece), type_code(promo), 1) }
    }

    /// The coordinate notation of the move.
    pub open spec fn text(self) -> Seq<char> {
        let base = square_name(self.from_sq() as int) + square_name(self.to_sq() as int);
        match self.promo() {
            Some(p) => base.push(promo_letter(p)),
            None => base,
        }
    }

    /// What `from_algebraic` makes of bytes `b` for a piece of type `piece`.
    pub open spec fn parse(b: Seq<u8>, piece: PieceType) -> Option<Move> {
        if b.len() < 4 {
            None
        } else {
            match (parse_square(b.subrange(0, 2)), parse_square(b.subrange(2, 4))) {
                (Some(f), Some(t)) => if b.len() == 5 {
                    match promo_of_byte(b[4]) {
                        Some(p) => Some(Move::promoting(f.0, t.0, piece, p)),
                        None => None,
                    }
                } else {
                    Some(Move::plain(f.0, t.0, piece))
                },
                _ => None,
            }
        }
    }

    /// Every square field of a move names a square of the board.
    pub proof fn lemma_squares_in_range(self)
        ensures
            self.from_sq() < 64,
            self.to_sq() < 64,
    {
        let d = self.data;
        assert(d & 0x3F < 64 && (d >> 6u32) & 0x3F < 64) by (bit_vector);
    }

    /// The fields of a plain move are the ones it was made from.
    pub proof fn lemma_plain_fields(from: u8, to: u8, piece: PieceType)
        requires
            from < 64,
            to < 64,
        ensures
            Move::plain(from, to, piece).from_sq() == from,
            Move::plain(from, to, piece).to_sq() == to,
            Move::plain(from, to, piece).piece_code() == type_code(piece),
            !Move::plain(from, to, piece).promo_flag(),
            Move::plain(from, to, piece).promo() is None,
            !Move::plain(from, to, piece).ep_flag(),
            !Move::plain(from, to, piece).castle_flag(),
    {
        lemma_unpack(from as u32, to as u32, type_code(piece), 0, 0);
    }

    /// The fields of a promotion are the ones it was made from.
    pub proof fn lemma_promoting_fields(from: u8, to: u8, piece: PieceType, promo: PieceType)
        requires
            from < 64,
            to < 64,
        ensures
            Move::promoting(from, to, piece, promo).from_sq() == from,
            Move::promoting(from, to, piece, promo).to_sq() == to,
            Move::promoting(from, to, piece, promo).piece_code() == type_code(piece),
            Move::promoting(from, to, piece, promo).promo_flag(),
            Move::promoting(from, to, piece, promo).promo() == Some(promo),
            !Move::promoting(from, to, piece, promo).ep_flag(),
            !Move::promoting(from, to, piece, promo).castle_flag(),
    {
        lemma_unpack(from as u32, to as u32, type_code(piece), type_code(promo), 1);
    }

    fn code(p: PieceType) -> (r: u32)
        ensures
            r == type_code(p),
            r <= 5,
    {
        p.index() as u32
    }

    pub fn new(from: Square, to: Square, piece_type: PieceType) -> (r: Move)
        requires
            from.0 < 64,
            to.0 < 64,
        ensures
            r == Move::plain(from.0, to.0, piece_type),
            r.from_sq() == from.0,
            r.to_sq() == to.0,
            r.piece_code() == type_code(piece_type),
            !r.promo_flag(),
            !r.ep_flag(),
            !r.castle_flag(),
    {
        let data = (from.0 as u32) | ((to.0 as u32) << 6) | (Move::code(piece_type) << 12) | (0u32
            << 16) | (0u32 << 20);
        proof {
            lemma_unpack(from.0 as u32, to.0 as u32, type_code(piece_type), 0, 0);
        }
        Move { data }
    }

    pub fn new_promotion(from: Square, to: Square, piece_type: PieceType, promotion: PieceType) -> (r:
        Move)
        requires
            from.0 < 64,
            to.0 < 64,
        ensures
            r == Move::promoting(from.0, to.0, piece_type, promotion),
            r.from_sq() == from.0,
            r.to_sq() == to.0,
            r.piece_code() == type_code(piece_type),
            r.promo_flag(),
            r.promo() == Some(promotion),
            !r.ep_flag(),
            !r.castle_flag(),
    {
        let data = (from.0 as u32) | ((to.0 as u32) << 6) | (Move::code(piece_type) << 12) | (
        Move::code(promotion) << 16) | (1u32 << 20);
        proof {
            lemma_unpack(from.0 as u32, to.0 as u32, type_code(piece_type), type_code(promotion), 1);
        }
        Move { data }
    }

    pub fn new_en_passant(from: Square, to: Square) -> (r: Move)
        requires
            from.0 < 64,
            to.0 < 64,
        ensures
            r.from_sq() == from.0,
            r.to_sq() == to.0,
            r.piece_code() == type_code(PieceType::Pawn),
            !r.promo_flag(),
            r.ep_flag(),
            !r.castle_flag(),
    {
        let data = (from.0 as u32) | ((to.0 as u32) << 6) | (0u32 << 12) | (0u32 << 16) | (2u32
            << 20);
        proof {
            lemma_unpack(from.0 as u32, to.0 as u32, 0, 0, 2);
        }
        Move { data }
    }

    pub fn new_castling(from: Square, to: Square, _color: Color) -> (r: Move)
        requires
            from.0 < 64,
            to.0 < 64,
        ensures
            r.from_sq() == from.0,
            r.to_sq() == to.0,
            r.piece_code() == type_code(PieceType::King),
            !r.promo_flag(),
            !r.ep_flag(),
            r.castle_flag(),
    {
        let data = (from.0 as u32) | ((to.0 as u32) << 6) | (5u32 << 12) | (0u32 << 16) | (4u32
            << 20);
        proof {
            lemma_unpack(from.0 as u32, to.0 as u32, 5, 0, 4);
        }
        Move { data }
    }

    /// The source square.
    pub fn from(self) -> (r: Square)
        ensures
            r.0 == self.from_sq(),
            r.0 < 64,
    {
        proof {
            self.lemma_squares_in_range();
        }
        Square((self.data & 0x3F) as u8)
    }

    /// The destination square.
    pub fn to(self) -> (r: Square)
        ensures
            r.0 == self.to_sq(),
            r.0 < 64,
    {
        proof {
            self.lemma_squares_in_range();
        }
        Square(((self.data >> 6) & 0x3F) as u8)
    }

    pub fn piece_type(self) -> (r: PieceType)
        ensures
            r == type_of_code(self.piece_code()),
    {
        let c = (self.data >> 12) & 0x7;
        if c == 0 {
            PieceType::Pawn
        } else if c == 1 {
            PieceType::Knight
        } else if c == 2 {
            PieceType::Bishop
        } else if c == 3 {
            PieceType::Rook
        } else if c == 4 {
            PieceType::Queen
        } else {
            PieceType::King
        }
    }

    pub fn is_promotion(self) -> (r: bool)
        ensures
            r == self.promo_flag(),
    {
        (self.data & 0x100000) != 0
    }

    pub fn promotion_piece(self) -> (r: Option<PieceType>)
        ensures
            r == self.promo(),
    {
        if self.is_promotion() {
            let c = (self.data >> 16) & 0x7;
            if c == 0 {
                Some(PieceType::Pawn)
            } else if c == 1 {
                Some(PieceType::Knight)
            } else if c == 2 {
                Some(PieceType::Bishop)
            } else if c == 3 {
                Some(PieceType::Rook)
            } else if c == 4 {
                Some(PieceType::Queen)
            } else if c == 5 {
                Some(PieceType::King)
            } else {
                None
            }
        } else {
            None
        }
    }

    pub fn is_en_passant(self) -> (r: bool)
        ensures
            r == self.ep_flag(),
    {
        (self.data & 0x200000) != 0
    }

    pub fn is_castling(self) -> (r: bool)
        ensures
            r == self.castle_flag(),
    {
        (self.data & 0x400000) != 0
    }

    /// Whether the destination holds a piece of the side opposite to the one
    /// on the source square, or the move is an en-passant capture.
    pub fn is_capture(self, board: &Board) -> (r: bool)
        ensures
            r == (takes_opponent(*board, self) || self.ep_flag()),
    {
        let takes = match (board.piece_at(self.from()), board.piece_at(self.to())) {
            (Some(mover), Some(victim)) => mover.color != victim.color,
            _ => false,
        };
        takes || self.is_en_passant()
    }

    pub fn to_algebraic(self) -> (r: String)
        ensures
            r@ == self.text(),
    {
        let mut s = String::new();
        push_square_name(&mut s, self.from().0);
        push_square_name(&mut s, self.to().0);
        proof {
            assert(s@ =~= square_name(self.from_sq() as int) + square_name(self.to_sq() as int));
        }
        if let Some(promotion) = self.promotion_piece() {
            let c = match promotion {
                PieceType::Knight => 'n',
                PieceType::Bishop => 'b',
                PieceType::Rook => 'r',
                PieceType::Queen => 'q',
                _ => '?',
            };
            push_char(&mut s, c);
        }
        s
    }

    pub fn from_algebraic(s: &str, piece_type: PieceType) -> (r: Option<Move>)
        ensures
            r == Move::parse(s.spec_bytes(), piece_type),
    {
        let b = s.as_bytes();
        if b.len() < 4 {
            return None;
        }
        let from = match square_from_bytes(b, 0) {
            Some(sq) => sq,
            None => return None,
        };
        let to = match square_from_bytes(b, 2) {
            Some(sq) => sq,
            None => return None,
        };
        proof {
            assert(b@.subrange(0, 2) =~= seq![b@[0], b@[1]]);
            assert(b@.subrange(2, 4) =~= seq![b@[2], b@[3]]);
        }
        if b.len() == 5 {
            let promotion = match b[4] {
                110u8 | 78u8 => PieceType::Knight,
                98u8 | 66u8 => PieceType::Bishop,
                114u8 | 82u8 => PieceType::Rook,
                113u8 | 81u8 => PieceType::Queen,
                _ => return None,
            };
            Some(Move::new_promotion(from, to, piece_type, promotion))
        } else {
            Some(Move::new(from, to, piece_type))
        }
    }
}

/// Reads the square named by `b[at]` and `b[at + 1]`.
pub(crate) fn square_from_bytes(b: &[u8], at: usize) -> (r: Option<Square>)
    requires
        at + 2 <= b@.len(),
    ensures
        r == parse_square(seq![b@[at as int], b@[at + 1]]),
        r matches Some(sq) ==> sq.0 < 64,
{
    if 97 <= b[at] && b[at] < 105 && 49 <= b[at + 1] && b[at + 1] < 57 {
        Some(Square::new(b[at] - 97, b[at + 1] - 49))
    } else {
        None
    }
}

/// The notation of a plain move is its two square names, and reading it back
/// with the same piece type gives the same move.
pub proof fn lemma_plain_move_text_round_trip(from: u8, to: u8, piece: PieceType)
    requires
        from < 64,
        to < 64,
    ensures
        Move::plain(from, to, piece).text() == square_name(from as int) + square_name(to as int),
        Move::parse(encode_utf8(Move::plain(from, to, piece).text()), piece) == Some(
            Move::plain(from, to, piece),
        ),
{
    let m = Move::plain(from, to, piece);
    lemma_unpack(from as u32, to as u32, type_code(piece), 0, 0);
    assert(m.text() =~= square_name(from as int) + square_name(to as int));
    assert(vstd::utf8::is_ascii_chars(m.text()));
    crate::board::lemma_ascii_encoding(m.text());
    let b = ascii_bytes(m.text());
    assert(b.len() == 4);
    assert(b.subrange(0, 2) =~= ascii_bytes(square_name(from as int)));
    assert(b.subrange(2, 4) =~= ascii_bytes(square_name(to as int)));
    crate::board::lemma_square_name_round_trip(from as int);
    crate::board::lemma_square_name_round_trip(to as int);
}

} // verus!
