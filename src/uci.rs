use vstd::prelude::*;

use crate::board::PieceType;
use crate::moves::{square_from_bytes, Move};
use crate::position::{board_view, fen_parts, field, is_initial, move_ok, next_state, no_moves, Position, State};
use crate::board::{parse_square, Board};
use crate::movegen::is_generated;
use crate::search::{self, searched_move, searched_score, SearchParams};
use crate::position::state_of;
use crate::text::{decimal, parse_u32_spec, signed_decimal, ascii_bytes, as_spans, fields, parse_u32, parse_u64, push_char, push_decimal, push_signed, push_str, split_fields};
use vstd::string::StringSliceAdditionalSpecFns;
use vstd::utf8::encode_utf8;

verus! {

/// The engine side of the UCI text protocol: one command line in, at most one
/// response out.
pub struct UciEngine {
    position: Position,
    search_params: SearchParams,
}

/// An ASCII literal is encoded one byte per character.
proof fn lemma_literal(s: &str)
    requires
        vstd::utf8::is_ascii_chars(s@),
    ensures
        s.spec_bytes() == ascii_bytes(s@),
        s.spec_bytes().len() == s@.len(),
{
    crate::board::lemma_ascii_encoding(s@);
}

/// The command words are told apart by their bytes.
proof fn lemma_command_words()
    ensures
        "uci".spec_bytes() == seq![117u8, 99, 105],
        "isready".spec_bytes().len() == 7,
        "ucinewgame".spec_bytes().len() == 10,
        "position".spec_bytes().len() == 8,
        "position".spec_bytes()[0] == 112u8,
        "go".spec_bytes().len() == 2,
        "stop".spec_bytes().len() == 4,
        "stop".spec_bytes()[0] == 115u8,
        "quit".spec_bytes().len() == 4,
        "quit".spec_bytes()[0] == 113u8,
        "setoption".spec_bytes().len() == 9,
        "register".spec_bytes().len() == 8,
        "register".spec_bytes()[0] == 114u8,
        "debug".spec_bytes().len() == 5,
        "depth".spec_bytes().len() == 5,
        "depth".spec_bytes()[0] == 100u8,
        "movetime".spec_bytes().len() == 8,
        "movetime".spec_bytes()[0] == 109u8,
        "nodes".spec_bytes().len() == 5,
        "nodes".spec_bytes()[0] == 110u8,
{
    reveal_strlit("uci");
    reveal_strlit("isready");
    reveal_strlit("ucinewgame");
    reveal_strlit("position");
    reveal_strlit("go");
    reveal_strlit("stop");
    reveal_strlit("quit");
    reveal_strlit("setoption");
    reveal_strlit("register");
    reveal_strlit("debug");
    reveal_strlit("depth");
    reveal_strlit("movetime");
    reveal_strlit("nodes");
    lemma_literal("depth");
    lemma_literal("movetime");
    lemma_literal("nodes");
    lemma_literal("uci");
    lemma_literal("isready");
    lemma_literal("ucinewgame");
    lemma_literal("position");
    lemma_literal("go");
    lemma_literal("stop");
    lemma_literal("quit");
    lemma_literal("setoption");
    lemma_literal("register");
    lemma_literal("debug");
    assert(ascii_bytes("uci"@) =~= seq![117u8, 99, 105]);
}

/// The depth a `go` command line asks for: the value after the last `depth`
/// word that has one (4 when it is not a 32-bit number), else 4. The words
/// `movetime` and `nodes` take the next field as their value.
pub open spec fn go_depth_from(b: Seq<u8>, i: int, d: u32) -> u32
    decreases fields(b).len() - i,
{
    if i < 0 || i >= fields(b).len() {
        d
    } else if field(b, i) == "depth".spec_bytes() {
        if i + 1 < fields(b).len() {
            go_depth_from(
                b,
                i + 2,
                match parse_u32_spec(field(b, i + 1)) {
                    Some(v) => v,
                    None => 4,
                },
            )
        } else {
            go_depth_from(b, i + 1, d)
        }
    } else if (field(b, i) == "movetime".spec_bytes() || field(b, i) == "nodes".spec_bytes()) && i
        + 1 < fields(b).len() {
        go_depth_from(b, i + 2, d)
    } else {
        go_depth_from(b, i + 1, d)
    }
}

/// The response to `go` on position `p` searched `depth` plies deep:
/// `bestmove 0000` when the side to move has no move, else the move the
/// search picks, then the depth, the score and the node count.
pub open spec fn go_response(p: Position, depth: u32, s: Seq<char>) -> bool {
    if no_moves(p) {
        s == "bestmove 0000"@
    } else {
        exists|n: nat|
            s == #[trigger] ("bestmove "@ + searched_move(state_of(p), depth)->0.text()
                + "\ninfo depth "@ + decimal(depth as nat) + " score cp "@ + signed_decimal(
                searched_score(state_of(p), depth),
            ) + " nodes "@ + decimal(n))
    }
}

/// The first field of the command line `command` is `word`.
pub open spec fn command_is(command: &str, word: &str) -> bool {
    fields(command.spec_bytes()).len() > 0 && field(command.spec_bytes(), 0) == word.spec_bytes()
}

/// Whether `b[span]` spells `word`.
fn token_is(b: &[u8], span: (usize, usize), word: &str) -> (r: bool)
    requires
        span.0 <= span.1 <= b@.len(),
    ensures
        r == (b@.subrange(span.0 as int, span.1 as int) == word.spec_bytes()),
{
    let w = word.as_bytes();
    let (start, end) = span;
    if end - start != w.len() {
        proof {
            assert(b@.subrange(start as int, end as int).len() != w@.len());
        }
        return false;
    }
    let mut i: usize = 0;
    while i < w.len()
        invariant
            start == span.0,
            end == span.1,
            start <= end <= b@.len(),
            end - start == w@.len(),
            w@ == word.spec_bytes(),
            i <= w@.len(),
            forall|j: int| 0 <= j < i ==> b@[start + j] == w@[j],
        decreases w@.len() - i,
    {
        if b[start + i] != w[i] {
            proof {
                assert(b@.subrange(start as int, end as int)[i as int] == b@[start + i]);
                assert(b@.subrange(start as int, end as int)[i as int] != w@[i as int]);
                assert(b@.subrange(start as int, end as int) != w@);
            }
            return false;
        }
        i = i + 1;
    }
    proof {
        assert(b@.subrange(start as int, end as int) =~= w@);
    }
    true
}

/// Appends the bytes of `b[span]`, each as one character.
fn push_token(s: &mut String, b: &[u8], span: (usize, usize))
    requires
        span.0 <= span.1 <= b@.len(),
    ensures
        final(s)@ == old(s)@ + as_chars(b@.subrange(span.0 as int, span.1 as int)),
{
    let mut i = span.0;
    while i < span.1
        invariant
            span.0 <= i <= span.1 <= b@.len(),
            s@ == old(s)@ + as_chars(b@.subrange(span.0 as int, i as int)),
        decreases span.1 - i,
    {
        push_char(s, b[i] as char);
        proof {
            assert(as_chars(b@.subrange(span.0 as int, i + 1)) =~= as_chars(
                b@.subrange(span.0 as int, i as int),
            ).push(b@[i as int] as char));
        }
        i = i + 1;
    }
}

/// Bytes read one character each.
pub open spec fn as_chars(b: Seq<u8>) -> Seq<char> {
    Seq::new(b.len(), |i: int| b[i] as char)
}

/// Fields `2..n` of a `position fen` command line, joined by single spaces.
pub open spec fn fen_fields_text(b: Seq<u8>, n: int) -> Seq<char>
    decreases n,
{
    if n <= 2 {
        Seq::empty()
    } else {
        fen_fields_text(b, n - 1) + (if n - 1 > 2 {
            seq![' ']
        } else {
            Seq::empty()
        }) + as_chars(field(b, n - 1))
    }
}

/// The move a coordinate-notation field names, the moving piece taken from the board.
pub open spec fn uci_move(tok: Seq<u8>, board: Board) -> Option<Move> {
    if tok.len() < 4 {
        None
    } else {
        match parse_square(tok.subrange(0, 2)) {
            Some(f) => match board.at(f.0 as int) {
                Some(pc) => Move::parse(tok, pc.piece_type),
                None => None,
            },
            None => None,
        }
    }
}

/// Plays the moves named by fields `k..` of `b` from state `s`: the state
/// reached, or nothing when a field names no move or a move cannot be played.
pub open spec fn play_fields(b: Seq<u8>, k: int, s: State) -> Option<State>
    decreases fields(b).len() - k,
{
    if k < 0 || k >= fields(b).len() {
        Some(s)
    } else {
        match uci_move(field(b, k), s.board) {
            Some(m) => if move_ok(s.board, m) {
                play_fields(b, k + 1, next_state(s, m))
            } else {
                None
            },
            None => None,
        }
    }
}

/// Where the move list of a `position` line starts: after a `moves` word in
/// field `k`, else nowhere.
pub open spec fn moves_start(b: Seq<u8>, k: int) -> int {
    if fields(b).len() > k && field(b, k) == "moves".spec_bytes() {
        k + 1
    } else {
        fields(b).len() as int
    }
}

/// The state a FEN text `f` describes, if it reads.
pub open spec fn fen_state(f: Seq<char>) -> Option<State> {
    match fen_parts(encode_utf8(f)) {
        Some((v, side, cr, ep, half, full)) => Some(
            choose|t: State|
                t.board.wf() && board_view(t.board) == v && t.side == side && t.castling == cr
                    && t.ep == ep && t.half == half && t.full == full,
        ),
        None => None,
    }
}

/// A position read from a FEN text has the state `fen_state` names.
proof fn lemma_fen_state(f: Seq<char>, p: Position)
    requires
        p.wf(),
        fen_parts(encode_utf8(f)) == Some(
            (
                board_view(p.board),
                p.side_to_move,
                p.castling_rights,
                p.en_passant,
                p.halfmove_clock,
                p.fullmove_number,
            ),
        ),
    ensures
        fen_state(f) == Some(state_of(p)),
{
    let (v, side, cr, ep, half, full) = fen_parts(encode_utf8(f))->0;
    let t = choose|t: State|
        t.board.wf() && board_view(t.board) == v && t.side == side && t.castling == cr && t.ep
            == ep && t.half == half && t.full == full;
    assert(state_of(p).board.wf() && board_view(state_of(p).board) == v);
    assert forall|i: int| 0 <= i < 64 implies #[trigger] t.board.at(i) == p.board.at(i) by {
        assert(board_view(t.board)[i] == t.board.at(i));
        assert(board_view(p.board)[i] == p.board.at(i));
    }
    crate::position::lemma_board_ext(t.board, p.board);
}

/// What a `position` command line `b` does to the engine, whose position
/// goes from `p` to `q`, with result `r`.
pub open spec fn position_outcome(b: Seq<u8>, r: crate::Result<Option<String>>, p: Position, q: Position) -> bool {
    let t = fields(b);
    if t.len() < 2 {
        r matches Err(crate::Error::InvalidPosition(_))
    } else if field(b, 1) == "startpos".spec_bytes() {
        let played = play_fields(b, moves_start(b, 2), start_state());
        &&& (r is Ok <==> played is Some)
        &&& r is Ok ==> (r matches Ok(None) && played == Some(state_of(q)))
        &&& r is Err ==> (r matches Err(crate::Error::InvalidMove(_)))
    } else if field(b, 1) == "fen".spec_bytes() {
        if t.len() < 3 {
            r matches Err(crate::Error::InvalidFen(_))
        } else {
            let last = if t.len() < 8 {
                t.len() as int
            } else {
                8
            };
            let read = fen_state(fen_fields_text(b, last));
            &&& read is None ==> (r matches Err(crate::Error::InvalidFen(_)))
            &&& read is Some ==> {
                let played = play_fields(b, moves_start(b, last), read->0);
                &&& (r is Ok <==> played is Some)
                &&& r is Ok ==> (r matches Ok(None) && played == Some(state_of(q)))
                &&& r is Err ==> (r matches Err(crate::Error::InvalidMove(_)))
            }
        }
    } else {
        r matches Err(crate::Error::InvalidPosition(_))
    }
}

/// The state of the standard starting position.
pub open spec fn start_state() -> State {
    state_of(choose|p: Position| is_initial(p))
}

/// Any starting position has the state `start_state` names.
proof fn lemma_start_state(p: Position)
    requires
        is_initial(p),
    ensures
        state_of(p) == start_state(),
{
    let q = choose|q: Position| is_initial(q);
    assert(is_initial(q));
    assert forall|i: int| 0 <= i < 64 implies #[trigger] p.board.at(i) == q.board.at(i) by {
        assert(p.board.at(i) == crate::board::start_piece(i));
        assert(q.board.at(i) == crate::board::start_piece(i));
    }
    crate::position::lemma_board_ext(p.board, q.board);
}

fn message(text: &str) -> (r: String)
    ensures
        r@ == text@,
{
    text.to_owned()
}

/// `text` followed by the token `b[span]`.
fn message_with(text: &str, b: &[u8], span: (usize, usize)) -> String
    requires
        span.0 <= span.1 <= b@.len(),
{
    let mut s = message(text);
    push_token(&mut s, b, span);
    s
}

impl UciEngine {
    #[verifier::type_invariant]
    spec fn inv(self) -> bool {
        self.position.wf()
    }

    /// The position the engine is set to.
    pub closed spec fn current(self) -> Position {
        self.position
    }

    pub fn new() -> (r: UciEngine)
        ensures
            is_initial(r.current()),
    {
        UciEngine { position: Position::new(), search_params: SearchParams::default() }
    }

    /// Handles one command line and returns the engine's response, if any.
    pub fn handle_command(&mut self, command: &str) -> (r: crate::Result<Option<String>>)
        ensures
            fields(command.spec_bytes()).len() == 0 ==> (r matches Ok(None) && final(self).current()
                == old(self).current()),
            command_is(command, "uci") ==> (r matches Ok(Some(s)) && s@
                == "id name Castono Chess Engine\nid author Castono developers\nuciok"@),
            command_is(command, "isready") ==> (r matches Ok(Some(s)) && s@ == "readyok"@),
            command_is(command, "position") ==> position_outcome(
                command.spec_bytes(),
                r,
                old(self).current(),
                final(self).current(),
            ),
            command_is(command, "ucinewgame") ==> (r matches Ok(None) && is_initial(
                final(self).current(),
            )),
            command_is(command, "go") ==> (r matches Ok(Some(s)) && go_response(
                old(self).current(),
                go_depth_from(command.spec_bytes(), 1, 4),
                s@,
            )
                && final(self).current() == old(self).current()),
            command_is(command, "stop") || command_is(command, "quit") || command_is(
                command,
                "setoption",
            ) || command_is(command, "register") ==> (r matches Ok(None) && final(self).current()
                == old(self).current()),
            command_is(command, "debug") ==> (r matches Ok(Some(s)) && s@ == if fields(
                command.spec_bytes(),
            ).len() > 1 && field(command.spec_bytes(), 1) == "on".spec_bytes() {
                "Debug mode enabled"@
            } else {
                "Debug mode disabled"@
            }),
            fields(command.spec_bytes()).len() > 0 && !command_is(command, "uci") && !command_is(
                command,
                "isready",
            ) && !command_is(command, "ucinewgame") && !command_is(command, "position")
                && !command_is(command, "go") && !command_is(command, "stop") && !command_is(
                command,
                "quit",
            ) && !command_is(command, "setoption") && !command_is(command, "register")
                && !command_is(command, "debug") ==> (r matches Ok(Some(s)) && s@
                == "Unknown command"@),
    {
        let b = command.as_bytes();
        let parts = split_fields(b);
        proof {
            assert(parts@.len() == fields(b@).len());
        }
        if parts.len() == 0 {
            return Ok(None);
        }
        let word = parts[0];
        proof {
            assert(as_spans(parts@)[0] == fields(b@)[0]);
            lemma_command_words();
        }
        if token_is(b, word, "uci") {
            Ok(Some(message("id name Castono Chess Engine\nid author Castono developers\nuciok")))
        } else if token_is(b, word, "isready") {
            Ok(Some(message("readyok")))
        } else if token_is(b, word, "ucinewgame") {
            self.position = Position::new();
            Ok(None)
        } else if token_is(b, word, "position") {
            self.handle_position(b, &parts)
        } else if token_is(b, word, "go") {
            self.handle_go(b, &parts)
        } else if token_is(b, word, "stop") || token_is(b, word, "quit") || token_is(
            b,
            word,
            "setoption",
        ) || token_is(b, word, "register") {
            Ok(None)
        } else if token_is(b, word, "debug") {
            proof {
                if parts@.len() > 1 {
                    assert(as_spans(parts@)[1] == fields(b@)[1]);
                }
            }
            if parts.len() > 1 && token_is(b, parts[1], "on") {
                Ok(Some(message("Debug mode enabled")))
            } else {
                Ok(Some(message("Debug mode disabled")))
            }
        } else {
            Ok(Some(message("Unknown command")))
        }
    }

    fn handle_position(&mut self, b: &[u8], parts: &Vec<(usize, usize)>) -> (r: crate::Result<Option<String>>)
        requires
            forall|k: int|
                #![trigger parts@[k]]
                0 <= k < parts@.len() ==> parts@[k].0 < parts@[k].1 && parts@[k].1 <= b@.len(),
            as_spans(parts@) == fields(b@),
        ensures
            position_outcome(b@, r, old(self).current(), final(self).current()),
    {
        proof {
            lemma_command_words();
            if parts@.len() > 1 {
                assert(as_spans(parts@)[1] == fields(b@)[1]);
            }
            if parts@.len() > 2 {
                assert(as_spans(parts@)[2] == fields(b@)[2]);
            }
        }
        if parts.len() < 2 {
            return Err(crate::Error::InvalidPosition(message("Invalid position command")));
        }
        if token_is(b, parts[1], "startpos") {
            let mut pos = Position::new();
            proof {
                lemma_start_state(pos);
            }
            let outcome = if parts.len() > 2 && token_is(b, parts[2], "moves") {
                apply_moves(&mut pos, b, parts, 3)
            } else {
                Ok(())
            };
            self.position = pos;
            match outcome {
                Ok(()) => Ok(None),
                Err(e) => Err(e),
            }
        } else if token_is(b, parts[1], "fen") {
            if parts.len() < 3 {
                return Err(crate::Error::InvalidFen(message("Missing FEN string")));
            }
            let last = if parts.len() < 8 {
                parts.len()
            } else {
                8
            };
            let mut fen = String::new();
            let mut k: usize = 2;
            while k < last
                invariant
                    2 <= k <= last <= parts@.len(),
                    as_spans(parts@) == fields(b@),
                    fen@ == fen_fields_text(b@, k as int),
                    forall|j: int|
                        #![trigger parts@[j]]
                        0 <= j < parts@.len() ==> parts@[j].0 < parts@[j].1 && parts@[j].1 <= b@.len(),
                decreases last - k,
            {
                proof {
                    assert(as_spans(parts@)[k as int] == fields(b@)[k as int]);
                }
                let ghost before = fen@;
                if k > 2 {
                    push_char(&mut fen, ' ');
                }
                push_token(&mut fen, b, parts[k]);
                proof {
                    assert(fen@ =~= fen_fields_text(b@, k + 1));
                }
                k = k + 1;
            }
            proof {
                if parts@.len() > last {
                    assert(as_spans(parts@)[last as int] == fields(b@)[last as int]);
                }
            }
            let mut pos = match Position::from_fen(fen.as_str()) {
                Ok(p) => p,
                Err(e) => {
                    return Err(e);
                },
            };
            proof {
                lemma_fen_state(fen@, pos);
            }
            let outcome = if parts.len() > last && token_is(b, parts[last], "moves") {
                apply_moves(&mut pos, b, parts, last + 1)
            } else {
                Ok(())
            };
            self.position = pos;
            match outcome {
                Ok(()) => Ok(None),
                Err(e) => Err(e),
            }
        } else {
            Err(crate::Error::InvalidPosition(message("Invalid position type")))
        }
    }

    /// Searches the current position and reports the best move, or `0000`
    /// when there is none.
    fn handle_go(&mut self, b: &[u8], parts: &Vec<(usize, usize)>) -> (r: crate::Result<Option<String>>)
        requires
            forall|k: int|
                #![trigger parts@[k]]
                0 <= k < parts@.len() ==> parts@[k].0 < parts@[k].1 && parts@[k].1 <= b@.len(),
            as_spans(parts@) == fields(b@),
        ensures
            r matches Ok(Some(s)) && go_response(old(self).current(), go_depth_from(b@, 1, 4), s@),
            final(self).current() == old(self).current(),
    {
        let mut params = SearchParams::default();
        let mut i: usize = 1;
        proof {
            lemma_command_words();
        }
        while i < parts.len()
            invariant
                1 <= i,
                as_spans(parts@) == fields(b@),
                go_depth_from(b@, 1, 4) == go_depth_from(b@, i as int, params.depth),
                "depth".spec_bytes().len() == 5,
                "movetime".spec_bytes().len() == 8,
                "movetime".spec_bytes()[0] == 109u8,
                "nodes".spec_bytes().len() == 5,
                "nodes".spec_bytes()[0] == 110u8,
                "depth".spec_bytes()[0] == 100u8,
                forall|k: int|
                    #![trigger parts@[k]]
                    0 <= k < parts@.len() ==> parts@[k].0 < parts@[k].1 && parts@[k].1 <= b@.len(),
            decreases parts@.len() - i,
        {
            let arg = parts[i];
            proof {
                assert(as_spans(parts@)[i as int] == fields(b@)[i as int]);
                if i + 1 < parts@.len() {
                    assert(as_spans(parts@)[i + 1] == fields(b@)[i + 1]);
                }
            }
            if token_is(b, arg, "depth") {
                if i + 1 < parts.len() {
                    let (s, e) = parts[i + 1];
                    params.depth = match parse_u32(b, s, e) {
                        Some(d) => d,
                        None => 4,
                    };
                    i = i + 1;
                }
            } else if token_is(b, arg, "movetime") {
                if i + 1 < parts.len() {
                    let (s, e) = parts[i + 1];
                    params.time_limit_ms = Some(
                        match parse_u64(b, s, e) {
                            Some(t) => t,
                            None => 1000,
                        },
                    );
                    i = i + 1;
                }
            } else if token_is(b, arg, "nodes") {
                if i + 1 < parts.len() {
                    let (s, e) = parts[i + 1];
                    params.nodes_limit = Some(
                        match parse_u64(b, s, e) {
                            Some(n) => n,
                            None => 1000000,
                        },
                    );
                    i = i + 1;
                }
            } else if token_is(b, arg, "infinite") {
                params.time_limit_ms = None;
                params.nodes_limit = None;
            }
            i = i + 1;
        }
        proof {
            use_type_invariant(&*self);
        }
        self.search_params = params;
        let result = search::search(&self.position, &self.search_params)?;
        match result.best_move {
            Some(best_move) => {
                let mut response = message("bestmove ");
                push_str(&mut response, best_move.to_algebraic().as_str());
                push_str(&mut response, "\ninfo depth ");
                let ghost head = response@;
                push_decimal(&mut response, result.depth as u64);
                push_str(&mut response, " score cp ");
                push_signed(&mut response, result.score);
                push_str(&mut response, " nodes ");
                push_decimal(&mut response, result.stats.nodes_searched);
                proof {
                    assert(response@ =~= "bestmove "@ + best_move.text() + "\ninfo depth "@
                        + decimal(result.depth as nat) + " score cp "@ + signed_decimal(
                        result.score as int,
                    ) + " nodes "@ + decimal(result.stats.nodes_searched as nat));
                }
                Ok(Some(response))
            },
            None => Ok(Some(message("bestmove 0000"))),
        }
    }
}

/// Plays the moves named by `parts[first..]` in turn.
fn apply_moves(pos: &mut Position, b: &[u8], parts: &Vec<(usize, usize)>, first: usize) -> (r: crate::Result<()>)
    requires
        old(pos).wf(),
        forall|k: int|
            #![trigger parts@[k]]
            0 <= k < parts@.len() ==> parts@[k].0 < parts@[k].1 && parts@[k].1 <= b@.len(),
        as_spans(parts@) == fields(b@),
    ensures
        final(pos).wf(),
        r is Ok <==> play_fields(b@, first as int, state_of(*old(pos))) is Some,
        r is Ok ==> play_fields(b@, first as int, state_of(*old(pos))) == Some(state_of(*final(pos))),
        r matches Err(e) ==> e is InvalidMove,
{
    let mut k = first;
    while k < parts.len()
        invariant
            pos.wf(),
            as_spans(parts@) == fields(b@),
            play_fields(b@, first as int, state_of(*old(pos))) == play_fields(
                b@,
                k as int,
                state_of(*pos),
            ),
            forall|j: int|
                #![trigger parts@[j]]
                0 <= j < parts@.len() ==> parts@[j].0 < parts@[j].1 && parts@[j].1 <= b@.len(),
        decreases parts@.len() - k,
    {
        proof {
            assert(as_spans(parts@)[k as int] == fields(b@)[k as int]);
        }
        let mv = parse_move(pos, b, parts[k])?;
        let ghost before = *pos;
        pos.make_move(&mv)?;
        proof {
            crate::position::lemma_made_next(before, mv, *pos);
        }
        k = k + 1;
    }
    proof {
        if k < first {
            assert(play_fields(b@, k as int, state_of(*pos)) == play_fields(b@, first as int, state_of(*pos)));
        }
    }
    Ok(())
}

/// Reads a move in coordinate notation, taking the moving piece from the board.
fn parse_move(pos: &Position, b: &[u8], span: (usize, usize)) -> (r: crate::Result<Move>)
    requires
        pos.wf(),
        span.0 < span.1 <= b@.len(),
    ensures
        r is Ok <==> uci_move(b@.subrange(span.0 as int, span.1 as int), pos.board) is Some,
        r matches Ok(m) ==> uci_move(b@.subrange(span.0 as int, span.1 as int), pos.board)
            == Some(m),
        r matches Err(e) ==> e is InvalidMove,
{
    let ghost tok = b@.subrange(span.0 as int, span.1 as int);
    let (start, end) = span;
    if end - start < 4 {
        return Err(crate::Error::InvalidMove(message_with("Invalid move format: ", b, span)));
    }
    proof {
        assert(tok.subrange(0, 2) =~= seq![b@[start as int], b@[start + 1]]);
        assert(tok.subrange(2, 4) =~= seq![b@[start + 2], b@[start + 3]]);
        if tok.len() == 5 {
            assert(tok[4] == b@[start + 4]);
        }
    }
    let from_square = match square_from_bytes(b, start) {
        Some(sq) => sq,
        None => {
            return Err(
                crate::Error::InvalidMove(
                    message_with("Invalid from square: ", b, (start, start + 2)),
                ),
            )
        },
    };
    let to_square = match square_from_bytes(b, start + 2) {
        Some(sq) => sq,
        None => {
            return Err(
                crate::Error::InvalidMove(
                    message_with("Invalid to square: ", b, (start + 2, start + 4)),
                ),
            )
        },
    };
    let piece = match pos.board.piece_at(from_square) {
        Some(p) => p,
        None => {
            return Err(
                crate::Error::InvalidMove(message_with("No piece at ", b, (start, start + 2))),
            )
        },
    };
    if end - start == 5 {
        let promotion = match b[start + 4] {
            110u8 | 78u8 => PieceType::Knight,
            98u8 | 66u8 => PieceType::Bishop,
            114u8 | 82u8 => PieceType::Rook,
            113u8 | 81u8 => PieceType::Queen,
            _ => {
                return Err(
                    crate::Error::InvalidMove(
                        message_with("Invalid promotion: ", b, (start + 4, start + 5)),
                    ),
                )
            },
        };
        Ok(Move::new_promotion(from_square, to_square, piece.piece_type, promotion))
    } else {
        Ok(Move::new(from_square, to_square, piece.piece_type))
    }
}

} // verus!
