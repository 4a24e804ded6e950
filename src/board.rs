use vstd::prelude::*;

use crate::bitboard::{bit, lemma_bit_ops, lemma_bit_zero, lemma_bits_ext, Bitboard, RANK_1, RANK_2, RANK_7, RANK_8};
use crate::text::{ascii_bytes, push_char};
use vstd::string::StringSliceAdditionalSpecFns;
use vstd::utf8::{encode_utf8, is_ascii_chars, is_ascii_chars_encode_utf8};

verus! {

#[derive(Debug, Clone, Copy, PartialEq, Eq, Structural)]
pub enum Color {
    White,
    Black,
}

impl Color {
    pub open spec fn idx(self) -> int {
        match self {
            Color::White => 0,
            Color::Black => 1,
        }
    }

    pub open spec fn other(self) -> Color {
        match self {
            Color::White => Color::Black,
            Color::Black => Color::White,
        }
    }

    pub fn index(self) -> (r: usize)
        ensures
            r == self.idx(),
    {
        match self {
            Color::White => 0,
            Color::Black => 1,
        }
    }

    pub fn opposite(self) -> (r: Color)
        ensures
            r == self.other(),
    {
        match self {
            Color::White => Color::Black,
            Color::Black => Color::White,
        }
    }

    /// The change of square index of a one-rank pawn push.
    pub fn pawn_direction(self) -> (r: i8)
        ensures
            r == (if self == Color::White {
                8i8
            } else {
                -8i8
            }),
    {
        match self {
            Color::White => 8,
            Color::Black => -8,
        }
    }

    /// The rank on which this side's pieces start.
    pub fn back_rank(self) -> (r: Bitboard)
        ensures
            r.0 == (if self == Color::White {
                RANK_1
            } else {
                RANK_8
            }),
    {
        match self {
            Color::White => Bitboard(RANK_1),
            Color::Black => Bitboard(RANK_8),
        }
    }

    /// The rank on which this side's pawns start.
    pub fn pawn_start_rank(self) -> (r: Bitboard)
        ensures
            r.0 == (if self == Color::White {
                RANK_2
            } else {
                RANK_7
            }),
    {
        match self {
            Color::White => Bitboard(RANK_2),
            Color::Black => Bitboard(RANK_7),
        }
    }
}

#[derive(Debug, Clone, Copy, PartialEq, Eq, Structural)]
pub enum PieceType {
    Pawn,
    Knight,
    Bishop,
    Rook,
    Queen,
    King,
}

/// The lower-case letter of a piece type.
pub open spec fn type_letter(p: PieceType) -> char {
    match p {
        PieceType::Pawn => 'p',
        PieceType::Knight => 'n',
        PieceType::Bishop => 'b',
        PieceType::Rook => 'r',
        PieceType::Queen => 'q',
        PieceType::King => 'k',
    }
}

/// The upper-case letter of a piece type.
pub open spec fn type_upper(p: PieceType) -> char {
    match p {
        PieceType::Pawn => 'P',
        PieceType::Knight => 'N',
        PieceType::Bishop => 'B',
        PieceType::Rook => 'R',
        PieceType::Queen => 'Q',
        PieceType::King => 'K',
    }
}

/// The piece type a letter of either case names.
pub open spec fn type_of_char(ch: char) -> Option<PieceType> {
    if ch == 'P' || ch == 'p' {
        Some(PieceType::Pawn)
    } else if ch == 'N' || ch == 'n' {
        Some(PieceType::Knight)
    } else if ch == 'B' || ch == 'b' {
        Some(PieceType::Bishop)
    } else if ch == 'R' || ch == 'r' {
        Some(PieceType::Rook)
    } else if ch == 'Q' || ch == 'q' {
        Some(PieceType::Queen)
    } else if ch == 'K' || ch == 'k' {
        Some(PieceType::King)
    } else {
        None
    }
}

/// The letter of a piece: upper case for White, lower case for Black.
pub open spec fn piece_char(p: Piece) -> char {
    match p.color {
        Color::White => type_upper(p.piece_type),
        Color::Black => type_letter(p.piece_type),
    }
}

/// The piece a letter names.
pub open spec fn piece_of_char(ch: char) -> Option<Piece> {
    match type_of_char(ch) {
        Some(t) => Some(
            Piece {
                color: if 'A' <= ch <= 'Z' {
                    Color::White
                } else {
                    Color::Black
                },
                piece_type: t,
            },
        ),
        None => None,
    }
}

impl PieceType {
    pub open spec fn idx(self) -> int {
        match self {
            PieceType::Pawn => 0,
            PieceType::Knight => 1,
            PieceType::Bishop => 2,
            PieceType::Rook => 3,
            PieceType::Queen => 4,
            PieceType::King => 5,
        }
    }

    pub fn index(self) -> (r: usize)
        ensures
            r == self.idx(),
    {
        match self {
            PieceType::Pawn => 0,
            PieceType::Knight => 1,
            PieceType::Bishop => 2,
            PieceType::Rook => 3,
            PieceType::Queen => 4,
            PieceType::King => 5,
        }
    }

    pub fn from_char(ch: char) -> (r: Option<PieceType>)
        ensures
            r == type_of_char(ch),
    {
        match ch {
            'P' | 'p' => Some(PieceType::Pawn),
            'N' | 'n' => Some(PieceType::Knight),
            'B' | 'b' => Some(PieceType::Bishop),
            'R' | 'r' => Some(PieceType::Rook),
            'Q' | 'q' => Some(PieceType::Queen),
            'K' | 'k' => Some(PieceType::King),
            _ => None,
        }
    }

    pub fn to_char(self, color: Color) -> (r: char)
        ensures
            r == piece_char(Piece { color, piece_type: self }),
    {
        match color {
            Color::White => match self {
                PieceType::Pawn => 'P',
                PieceType::Knight => 'N',
                PieceType::Bishop => 'B',
                PieceType::Rook => 'R',
                PieceType::Queen => 'Q',
                PieceType::King => 'K',
            },
            Color::Black => match self {
                PieceType::Pawn => 'p',
                PieceType::Knight => 'n',
                PieceType::Bishop => 'b',
                PieceType::Rook => 'r',
                PieceType::Queen => 'q',
                PieceType::King => 'k',
            },
        }
    }
}

#[derive(Debug, Clone, Copy, PartialEq, Eq, Structural)]
pub struct Piece {
    pub color: Color,
    pub piece_type: PieceType,
}

impl Piece {
    pub fn new(color: Color, piece_type: PieceType) -> (r: Piece)
        ensures
            r == (Piece { color, piece_type }),
    {
        Piece { color, piece_type }
    }

    pub fn from_char(ch: char) -> (r: Option<Piece>)
        ensures
            r == piece_of_char(ch),
    {
        let color = if 'A' <= ch && ch <= 'Z' {
            Color::White
        } else {
            Color::Black
        };
        match PieceType::from_char(ch) {
            Some(t) => Some(Piece::new(color, t)),
            None => None,
        }
    }

    pub fn to_char(self) -> (r: char)
        ensures
            r == piece_char(self),
    {
        self.piece_type.to_char(self.color)
    }
}

/// Reading back the letter of a piece gives the piece.
pub proof fn lemma_piece_char_round_trip(p: Piece)
    ensures
        piece_of_char(piece_char(p)) == Some(p),
{
}

/// A square index `rank * 8 + file`; a1 is 0, h1 is 7, h8 is 63.
#[derive(Debug, Clone, Copy, PartialEq, Eq, Structural)]
pub struct Square(pub u8);

/// The square that two algebraic characters name, read as bytes: a file
/// letter `a`..`h` then a rank digit `1`..`8`.
pub open spec fn parse_square(b: Seq<u8>) -> Option<Square> {
    if b.len() != 2 {
        None
    } else {
        let file: int = b[0] - 97;
        let rank: int = b[1] - 49;
        if 0 <= file < 8 && 0 <= rank < 8 {
            Some(Square((rank * 8 + file) as u8))
        } else {
            None
        }
    }
}

/// The algebraic name of square `sq`, such as `e4`.
pub open spec fn square_name(sq: int) -> Seq<char> {
    seq![((97 + sq % 8) as u32) as char, ((49 + sq / 8) as u32) as char]
}

impl Square {
    pub fn new(file: u8, rank: u8) -> (r: Square)
        requires
            file < 8,
            rank < 8,
        ensures
            r.0 == rank * 8 + file,
    {
        Square(rank * 8 + file)
    }

    pub fn from_algebraic(s: &str) -> (r: Option<Square>)
        ensures
            r == parse_square(s.spec_bytes()),
    {
        let b = s.as_bytes();
        if b.len() != 2 {
            return None;
        }
        if 97 <= b[0] && b[0] < 105 && 49 <= b[1] && b[1] < 57 {
            Some(Square::new(b[0] - 97, b[1] - 49))
        } else {
            None
        }
    }

    pub fn to_algebraic(self) -> (r: String)
        requires
            self.0 < 64,
        ensures
            r@ == square_name(self.0 as int),
    {
        let mut s = String::new();
        push_square_name(&mut s, self.0);
        proof {
            assert(s@ =~= square_name(self.0 as int));
        }
        s
    }

    /// The file, 0 for a to 7 for h.
    pub fn file(self) -> (r: u8)
        ensures
            r == self.0 % 8,
    {
        proof {
            let x = self.0;
            assert(x & 7 == x % 8) by (bit_vector);
        }
        self.0 & 7
    }

    /// The rank, 0 for rank 1 to 7 for rank 8.
    pub fn rank(self) -> (r: u8)
        ensures
            r == self.0 / 8,
    {
        proof {
            let x = self.0;
            assert(x >> 3 == x / 8) by (bit_vector);
        }
        self.0 >> 3
    }

    pub fn index(self) -> (r: u8)
        ensures
            r == self.0,
    {
        self.0
    }

    pub fn is_on_rank(self, rank: u8) -> (r: bool)
        ensures
            r == (self.0 / 8 == rank),
    {
        self.rank() == rank
    }

    pub fn is_on_file(self, file: u8) -> (r: bool)
        ensures
            r == (self.0 % 8 == file),
    {
        self.file() == file
    }

    pub fn bitboard(self) -> (r: Bitboard)
        requires
            self.0 < 64,
        ensures
            forall|i: int| r.has(i) <==> i == self.0,
    {
        Bitboard::from_square(self.0)
    }
}

impl From<u8> for Square {
    fn from(value: u8) -> Square {
        Square(value)
    }
}

impl vstd::std_specs::convert::FromSpecImpl<u8> for Square {
    open spec fn obeys_from_spec() -> bool {
        true
    }

    open spec fn from_spec(v: u8) -> Square {
        Square(v)
    }
}

impl From<Square> for u8 {
    fn from(square: Square) -> u8 {
        square.0
    }
}

impl vstd::std_specs::convert::FromSpecImpl<Square> for u8 {
    open spec fn obeys_from_spec() -> bool {
        true
    }

    open spec fn from_spec(v: Square) -> u8 {
        v.0
    }
}

/// Appends the algebraic name of square `sq`.
pub(crate) fn push_square_name(s: &mut String, sq: u8)
    requires
        sq < 64,
    ensures
        final(s)@ == old(s)@ + square_name(sq as int),
{
    let sqr = Square(sq);
    let file = (97u8 + sqr.file()) as char;
    let rank = (49u8 + sqr.rank()) as char;
    push_char(s, file);
    push_char(s, rank);
    proof {
        assert(final(s)@ =~= old(s)@ + square_name(sq as int));
    }
}

/// ASCII text is encoded one byte per character.
pub proof fn lemma_ascii_encoding(s: Seq<char>)
    requires
        is_ascii_chars(s),
    ensures
        encode_utf8(s) == ascii_bytes(s),
{
    is_ascii_chars_encode_utf8(s);
    assert(encode_utf8(s) =~= ascii_bytes(s));
}

/// Reading back the name of a square gives the square.
pub proof fn lemma_square_name_round_trip(sq: int)
    requires
        0 <= sq < 64,
    ensures
        parse_square(encode_utf8(square_name(sq))) == Some(Square(sq as u8)),
{
    assert(is_ascii_chars(square_name(sq)));
    lemma_ascii_encoding(square_name(sq));
    let b = ascii_bytes(square_name(sq));
    assert(b.len() == 2);
    assert(b[0] == 97 + sq % 8);
    assert(b[1] == 49 + sq / 8);
}

/// The twelve piece sets of a position, with the sets derived from them.
#[derive(Debug, Clone, Copy)]
pub struct Board {
    pub pieces: [[Bitboard; 6]; 2],
    pub occupied: Bitboard,
    pub white: Bitboard,
    pub black: Bitboard,
    pub empty: Bitboard,
}

/// The piece that stands on each square of a freshly set-up board.
pub open spec fn start_piece(i: int) -> Option<Piece> {
    let t = back_rank_type(i % 8);
    if i / 8 == 0 {
        Some(Piece { color: Color::White, piece_type: t })
    } else if i / 8 == 1 {
        Some(Piece { color: Color::White, piece_type: PieceType::Pawn })
    } else if i / 8 == 6 {
        Some(Piece { color: Color::Black, piece_type: PieceType::Pawn })
    } else if i / 8 == 7 {
        Some(Piece { color: Color::Black, piece_type: t })
    } else {
        None
    }
}

pub open spec fn back_rank_type(file: int) -> PieceType {
    if file == 0 || file == 7 {
        PieceType::Rook
    } else if file == 1 || file == 6 {
        PieceType::Knight
    } else if file == 2 || file == 5 {
        PieceType::Bishop
    } else if file == 3 {
        PieceType::Queen
    } else {
        PieceType::King
    }
}

fn back_rank_piece(file: u8) -> (r: PieceType)
    ensures
        r == back_rank_type(file as int),
{
    if file == 0 || file == 7 {
        PieceType::Rook
    } else if file == 1 || file == 6 {
        PieceType::Knight
    } else if file == 2 || file == 5 {
        PieceType::Bishop
    } else if file == 3 {
        PieceType::Queen
    } else {
        PieceType::King
    }
}

impl Board {
    /// The set of pieces of one color and type.
    pub open spec fn bb(self, c: Color, p: PieceType) -> Bitboard {
        self.pieces[c.idx()][p.idx()]
    }

    /// The type of the piece of color `c` on square `i`, if any.
    pub open spec fn type_at(self, c: Color, i: int) -> Option<PieceType> {
        if self.bb(c, PieceType::Pawn).has(i) {
            Some(PieceType::Pawn)
        } else if self.bb(c, PieceType::Knight).has(i) {
            Some(PieceType::Knight)
        } else if self.bb(c, PieceType::Bishop).has(i) {
            Some(PieceType::Bishop)
        } else if self.bb(c, PieceType::Rook).has(i) {
            Some(PieceType::Rook)
        } else if self.bb(c, PieceType::Queen).has(i) {
            Some(PieceType::Queen)
        } else if self.bb(c, PieceType::King).has(i) {
            Some(PieceType::King)
        } else {
            None
        }
    }

    /// The piece on square `i`, if any.
    pub open spec fn at(self, i: int) -> Option<Piece> {
        match self.type_at(Color::White, i) {
            Some(t) => Some(Piece { color: Color::White, piece_type: t }),
            None => match self.type_at(Color::Black, i) {
                Some(t) => Some(Piece { color: Color::Black, piece_type: t }),
                None => None,
            },
        }
    }

    /// No square is in two of the twelve piece sets.
    pub open spec fn disjoint(self) -> bool {
        forall|c1: Color, p1: PieceType, c2: Color, p2: PieceType, i: int|
            #![trigger self.bb(c1, p1).has(i), self.bb(c2, p2).has(i)]
            self.bb(c1, p1).has(i) && self.bb(c2, p2).has(i) ==> c1 == c2 && p1 == p2
    }

    /// The derived sets agree with the twelve piece sets.
    pub open spec fn derived_ok(self) -> bool {
        &&& forall|i: int|
            #![trigger self.white.has(i)]
            self.white.has(i) <==> self.type_at(Color::White, i) is Some
        &&& forall|i: int|
            #![trigger self.black.has(i)]
            self.black.has(i) <==> self.type_at(Color::Black, i) is Some
        &&& forall|i: int|
            #![trigger self.occupied.has(i)]
            self.occupied.has(i) <==> (self.white.has(i) || self.black.has(i))
        &&& forall|i: int|
            #![trigger self.empty.has(i)]
            self.empty.has(i) <==> (0 <= i < 64 && !self.occupied.has(i))
    }

    pub open spec fn wf(self) -> bool {
        self.disjoint() && self.derived_ok()
    }

    /// The set of the pieces of color `c`.
    pub open spec fn side(self, c: Color) -> Bitboard {
        match c {
            Color::White => self.white,
            Color::Black => self.black,
        }
    }

    pub fn new() -> (r: Board)
        ensures
            r.wf(),
            forall|i: int| r.at(i) is None,
            forall|c: Color, p: PieceType| r.bb(c, p).0 == 0,
    {
        let e = Bitboard::empty();
        let b = Board {
            pieces: [[e, e, e, e, e, e], [e, e, e, e, e, e]],
            occupied: e,
            white: e,
            black: e,
            empty: Bitboard::full(),
        };
        assert(forall|c: Color, p: PieceType| b.bb(c, p) == e);
        b
    }

    /// Recomputes the derived sets from the twelve piece sets.
    pub fn update_derived(&mut self)
        ensures
            final(self).pieces == old(self).pieces,
            final(self).derived_ok(),
            final(self).white.0 == old(self).pieces[0][0].0 | old(self).pieces[0][1].0
                | old(self).pieces[0][2].0 | old(self).pieces[0][3].0 | old(self).pieces[0][4].0
                | old(self).pieces[0][5].0,
            final(self).black.0 == old(self).pieces[1][0].0 | old(self).pieces[1][1].0
                | old(self).pieces[1][2].0 | old(self).pieces[1][3].0 | old(self).pieces[1][4].0
                | old(self).pieces[1][5].0,
            final(self).occupied.0 == final(self).white.0 | final(self).black.0,
            final(self).empty.0 == !final(self).occupied.0,
    {
        let w = self.pieces[0];
        let b = self.pieces[1];
        self.white = w[0].or(w[1]).or(w[2]).or(w[3]).or(w[4]).or(w[5]);
        self.black = b[0].or(b[1]).or(b[2]).or(b[3]).or(b[4]).or(b[5]);
        self.occupied = self.white.or(self.black);
        self.empty = self.occupied.not();
    }

    pub fn piece_at(&self, square: Square) -> (r: Option<Piece>)
        requires
            square.0 < 64,
        ensures
            r == self.at(square.0 as int),
    {
        match self.type_on(Color::White, square.0) {
            Some(t) => Some(Piece::new(Color::White, t)),
            None => match self.type_on(Color::Black, square.0) {
                Some(t) => Some(Piece::new(Color::Black, t)),
                None => None,
            },
        }
    }

    fn type_on(&self, c: Color, sq: u8) -> (r: Option<PieceType>)
        requires
            sq < 64,
        ensures
            r == self.type_at(c, sq as int),
    {
        let row = self.pieces[c.index()];
        if row[0].has_square(sq) {
            Some(PieceType::Pawn)
        } else if row[1].has_square(sq) {
            Some(PieceType::Knight)
        } else if row[2].has_square(sq) {
            Some(PieceType::Bishop)
        } else if row[3].has_square(sq) {
            Some(PieceType::Rook)
        } else if row[4].has_square(sq) {
            Some(PieceType::Queen)
        } else if row[5].has_square(sq) {
            Some(PieceType::King)
        } else {
            None
        }
    }

    /// Puts `piece` on `square`, or empties it, and leaves every other square as it was.
    pub fn set_piece(&mut self, square: Square, piece: Option<Piece>)
        requires
            old(self).disjoint(),
            square.0 < 64,
        ensures
            final(self).wf(),
            forall|i: int|
                #![trigger final(self).at(i)]
                final(self).at(i) == if i == square.0 {
                    piece
                } else {
                    old(self).at(i)
                },
    {
        let ghost pre = *self;
        let sq = square.0;
        let mut c: usize = 0;
        while c < 2
            invariant
                0 <= c <= 2,
                sq < 64,
                forall|cc: Color, p: PieceType, i: int|
                    #![trigger self.bb(cc, p).has(i)]
                    self.bb(cc, p).has(i) <==> (pre.bb(cc, p).has(i) && (i != sq || cc.idx()
                        >= c)),
            decreases 2 - c,
        {
            let mut p: usize = 0;
            while p < 6
                invariant
                    0 <= c < 2,
                    0 <= p <= 6,
                    sq < 64,
                    forall|cc: Color, pp: PieceType, i: int|
                        #![trigger self.bb(cc, pp).has(i)]
                        self.bb(cc, pp).has(i) <==> (pre.bb(cc, pp).has(i) && (i != sq || cc.idx()
                            > c || (cc.idx() == c && pp.idx() >= p))),
                decreases 6 - p,
            {
                let ghost prev = *self;
                let mut b = self.pieces[c][p];
                b.clear_square(sq);
                self.pieces[c][p] = b;
                proof {
                    assert(self.pieces[c as int][p as int] == b);
                    assert(forall|c2: int, p2: int| 0 <= c2 < 2 && 0 <= p2 < 6 && (c2 != c || p2 != p)
                        ==> self.pieces[c2][p2] == prev.pieces[c2][p2]);
                    assert forall|cc: Color, pp: PieceType, i: int|
                        #![trigger self.bb(cc, pp).has(i)]
                        self.bb(cc, pp).has(i) <==> (pre.bb(cc, pp).has(i) && (i != sq || cc.idx()
                            > c || (cc.idx() == c && pp.idx() >= p + 1))) by {
                        assert(prev.bb(cc, pp).has(i) <==> (pre.bb(cc, pp).has(i) && (i != sq
                            || cc.idx() > c || (cc.idx() == c && pp.idx() >= p))));
                        if cc.idx() == c && pp.idx() == p {
                            assert(self.bb(cc, pp) == b);
                        } else {
                            assert(self.bb(cc, pp) == prev.bb(cc, pp));
                        }
                    }
                }
                p = p + 1;
            }
            c = c + 1;
        }
        let ghost cleared = *self;
        if let Some(pc) = piece {
            let ci = pc.color.index();
            let pi = pc.piece_type.index();
            let mut b = self.pieces[ci][pi];
            b.set_square(sq);
            self.pieces[ci][pi] = b;
        }
        self.update_derived();
        proof {
            assert forall|cc: Color, pp: PieceType, i: int|
                #![trigger self.bb(cc, pp).has(i)]
                self.bb(cc, pp).has(i) <==> (if i == sq {
                    piece == Some(Piece { color: cc, piece_type: pp })
                } else {
                    pre.bb(cc, pp).has(i)
                }) by {
                assert(cleared.bb(cc, pp).has(i) <==> (pre.bb(cc, pp).has(i) && i != sq));
            }
            assert forall|i: int| #![trigger self.at(i)] self.at(i) == if i == sq {
                piece
            } else {
                pre.at(i)
            } by {
                if i != sq {
                    assert(self.type_at(Color::White, i) == pre.type_at(Color::White, i));
                    assert(self.type_at(Color::Black, i) == pre.type_at(Color::Black, i));
                }
            }
        }
    }

    pub fn piece_bitboard(&self, color: Color, piece_type: PieceType) -> (r: Bitboard)
        ensures
            r == self.bb(color, piece_type),
    {
        self.pieces[color.index()][piece_type.index()]
    }

    pub fn color_bitboard(&self, color: Color) -> (r: Bitboard)
        ensures
            r == self.side(color),
    {
        match color {
            Color::White => self.white,
            Color::Black => self.black,
        }
    }

    pub fn starting_position() -> (r: Board)
        ensures
            r.wf(),
            forall|i: int| 0 <= i < 64 ==> #[trigger] r.at(i) == start_piece(i),
    {
        let mut board = Board::new();
        let mut file: u8 = 0;
        while file < 8
            invariant
                file <= 8,
                board.wf(),
                forall|i: int|
                    0 <= i < 64 ==> #[trigger] board.at(i) == if i % 8 < file {
                        start_piece(i)
                    } else {
                        None
                    },
            decreases 8 - file,
        {
            let t = back_rank_piece(file);
            board.set_piece(Square::new(file, 0), Some(Piece::new(Color::White, t)));
            board.set_piece(Square::new(file, 1), Some(Piece::new(Color::White, PieceType::Pawn)));
            board.set_piece(Square::new(file, 6), Some(Piece::new(Color::Black, PieceType::Pawn)));
            board.set_piece(Square::new(file, 7), Some(Piece::new(Color::Black, t)));
            file = file + 1;
        }
        board
    }
}

/// On a well-formed board no square is both White and Black, and the occupied
/// set is exactly the union of the two sides.
pub proof fn lemma_sides_partition(b: Board)
    requires
        b.wf(),
    ensures
        b.white.0 & b.black.0 == 0,
        b.occupied.0 == b.white.0 | b.black.0,
        b.empty.0 == !b.occupied.0,
{
    assert forall|i: u64| i < 64 implies bit(b.white.0 & b.black.0, i) == bit(0u64, i) by {
        lemma_bit_ops(b.white.0, b.black.0, i);
        lemma_bit_zero(i);
        assert(!(b.white.has(i as int) && b.black.has(i as int)));
    }
    lemma_bits_ext(b.white.0 & b.black.0, 0u64);
    assert forall|i: u64| i < 64 implies bit(b.occupied.0, i) == bit(b.white.0 | b.black.0, i) by {
        lemma_bit_ops(b.white.0, b.black.0, i);
        assert(b.occupied.has(i as int) == (b.white.has(i as int) || b.black.has(i as int)));
    }
    lemma_bits_ext(b.occupied.0, b.white.0 | b.black.0);
    assert forall|i: u64| i < 64 implies bit(b.empty.0, i) == bit(!b.occupied.0, i) by {
        lemma_bit_ops(b.occupied.0, 0, i);
        assert(b.empty.has(i as int) == !b.occupied.has(i as int));
    }
    lemma_bits_ext(b.empty.0, !b.occupied.0);
}

} // verus!
