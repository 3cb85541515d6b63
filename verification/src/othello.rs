//! The turn controller: who moves, where the cursor is, the running scores,
//! and what each input does to them.
//!
//! The controller does no input or output. Whoever drives it reads an event,
//! hands it over as an `Input`, shows the state, and stops once the phase is
//! no longer `AwaitingInput`.
//!
//! End of game: after a successful placement the turn passes to the other
//! player; if that player has no legal move the game is over at once. The
//! player with more pieces wins, and equal counts are a draw.

use crate::board::{Board, LegalityError, Position, Tile};
use crate::counting::{
    count, lemma_count_after_set, lemma_count_bounded, lemma_count_on_empty_board,
    lemma_counts_after_place,
};
use crate::rules::{after_place, has_legal_move, on_board, place_result, rectangular};
use vstd::prelude::*;

verus! {

/// The number of columns of the game's board.
pub const BOARD_WIDTH: usize = 8;

/// The number of rows of the game's board.
pub const BOARD_HEIGHT: usize = 8;

/// One of the two sides.
#[derive(Copy, Clone, Debug, PartialEq, Eq, Structural)]
pub enum Player {
    Black,
    White,
}

impl Player {
    /// The side that moves after this one.
    pub open spec fn spec_other(self) -> Player {
        match self {
            Player::Black => Player::White,
            Player::White => Player::Black,
        }
    }

    /// The tile that marks this side's pieces.
    pub open spec fn tile(self) -> Tile {
        match self {
            Player::Black => Tile::Black,
            Player::White => Tile::White,
        }
    }

    /// The side that moves after this one.
    #[verifier::when_used_as_spec(spec_other)]
    pub fn other(self) -> (next: Player)
        ensures
            next == self.spec_other(),
    {
        match self {
            Player::Black => Player::White,
            Player::White => Player::Black,
        }
    }
}

impl From<Player> for Tile {
    fn from(p: Player) -> (tile: Tile) {
        match p {
            Player::Black => Tile::Black,
            Player::White => Tile::White,
        }
    }
}

impl vstd::std_specs::convert::FromSpecImpl<Player> for Tile {
    open spec fn obeys_from_spec() -> bool {
        true
    }

    open spec fn from_spec(p: Player) -> Tile {
        p.tile()
    }
}

/// One event from the player, already classified.
#[derive(Copy, Clone, Debug, PartialEq, Eq, Structural)]
pub enum Input {
    Up,
    Down,
    Left,
    Right,
    Confirm,
    Quit,
    Other,
}

/// Where a session stands.
#[derive(Copy, Clone, Debug, PartialEq, Eq, Structural)]
pub enum Phase {
    /// The game goes on and the next input is acted upon.
    AwaitingInput,
    /// The player to move has no legal move; the game has ended.
    GameOver,
    /// A player has quit.
    Exited,
}

/// The state of a session as mathematics.
pub struct GameState {
    /// The grid, `board[y][x]` being the tile at `(x, y)`.
    pub board: Seq<Seq<Tile>>,
    /// The player to move.
    pub current: Player,
    /// The highlighted cell `(x, y)`.
    pub cursor: (int, int),
    /// The running score of Black.
    pub black: int,
    /// The running score of White.
    pub white: int,
    /// Where the session stands.
    pub phase: Phase,
    /// Why the last input was refused, if it was.
    pub error: Option<LegalityError>,
}

/// The tile that the standard opening puts at `(x, y)` on a board of `w`
/// columns and `h` rows: two pieces of each player around the centre, Black
/// on the falling diagonal.
pub open spec fn opening_tile(w: int, h: int, x: int, y: int) -> Tile {
    if (x == w / 2 - 1 && y == h / 2 - 1) || (x == w / 2 && y == h / 2) {
        Tile::Black
    } else if (x == w / 2 && y == h / 2 - 1) || (x == w / 2 - 1 && y == h / 2) {
        Tile::White
    } else {
        Tile::Empty
    }
}

/// The state in which every session starts.
pub open spec fn opening() -> GameState {
    GameState {
        board: Seq::new(
            BOARD_HEIGHT as nat,
            |y: int|
                Seq::new(
                    BOARD_WIDTH as nat,
                    |x: int| opening_tile(BOARD_WIDTH as int, BOARD_HEIGHT as int, x, y),
                ),
        ),
        current: Player::Black,
        cursor: (0, 0),
        black: 2,
        white: 2,
        phase: Phase::AwaitingInput,
        error: None,
    }
}

/// What holds of every state that a session reaches: the board has its
/// size, the cursor is on it, and each score is the number of that player's
/// pieces.
pub open spec fn well_formed(s: GameState) -> bool {
    &&& rectangular(s.board, BOARD_WIDTH as int, BOARD_HEIGHT as int)
    &&& on_board(s.board, s.cursor.0, s.cursor.1)
    &&& s.black == count(s.board, Tile::Black)
    &&& s.white == count(s.board, Tile::White)
}

/// The state after a successful placement that captured `n` cells: the
/// mover gains the placed piece and the captured ones, the other player
/// loses the captured ones, the turn passes, and the game is over if the
/// player now to move has no legal move.
pub open spec fn after_capture(s: GameState, n: int) -> GameState {
    let board = after_place(s.board, s.current.tile(), s.cursor.0, s.cursor.1);
    let mover = s.current;
    GameState {
        board,
        current: mover.spec_other(),
        cursor: s.cursor,
        black: if mover == Player::Black {
            s.black + n + 1
        } else {
            s.black - n
        },
        white: if mover == Player::White {
            s.white + n + 1
        } else {
            s.white - n
        },
        phase: if has_legal_move(board, mover.spec_other().tile()) {
            Phase::AwaitingInput
        } else {
            Phase::GameOver
        },
        error: None,
    }
}

/// The cursor after a move event, kept on the board.
pub open spec fn moved_cursor(cursor: (int, int), input: Input) -> (int, int) {
    match input {
        Input::Up => if cursor.1 > 0 {
            (cursor.0, cursor.1 - 1)
        } else {
            cursor
        },
        Input::Down => if cursor.1 < BOARD_HEIGHT - 1 {
            (cursor.0, cursor.1 + 1)
        } else {
            cursor
        },
        Input::Left => if cursor.0 > 0 {
            (cursor.0 - 1, cursor.1)
        } else {
            cursor
        },
        Input::Right => if cursor.0 < BOARD_WIDTH - 1 {
            (cursor.0 + 1, cursor.1)
        } else {
            cursor
        },
        _ => cursor,
    }
}

/// The transition of the session: the state that follows `s` on `input`.
///
/// Once the game is over or a player has quit, nothing changes any more.
/// While input is awaited, every event first clears the error. A move event
/// moves the cursor, stopping at the edge. Quit ends the session. Confirm
/// tries to place the current player's tile at the cursor; a refusal is
/// recorded as the error and changes nothing else. Any other event is
/// ignored.
pub open spec fn next(s: GameState, input: Input) -> GameState {
    if s.phase != Phase::AwaitingInput {
        s
    } else {
        match input {
            Input::Quit => GameState { phase: Phase::Exited, error: None, ..s },
            Input::Confirm => match place_result(
                s.board,
                s.current.tile(),
                s.cursor.0,
                s.cursor.1,
            ) {
                Ok(n) => after_capture(s, n as int),
                Err(e) => GameState { error: Some(e), ..s },
            },
            _ => GameState { cursor: moved_cursor(s.cursor, input), error: None, ..s },
        }
    }
}

/// The winner by the scores: the player with the higher one, or nobody when
/// they are equal.
pub open spec fn leader(s: GameState) -> Option<Player> {
    if s.black > s.white {
        Some(Player::Black)
    } else if s.black < s.white {
        Some(Player::White)
    } else {
        None
    }
}

/// A session of the game on the standard board.
pub struct Othello {
    board: Board<BOARD_WIDTH, BOARD_HEIGHT>,
    current: Player,
    cursor: Position,
    scores: [usize; 2],
    phase: Phase,
    error: Option<LegalityError>,
}

impl View for Othello {
    type V = GameState;

    closed spec fn view(&self) -> GameState {
        GameState {
            board: self.board@,
            current: self.current,
            cursor: self.cursor@,
            black: self.scores[0] as int,
            white: self.scores[1] as int,
            phase: self.phase,
            error: self.error,
        }
    }
}

impl Othello {
    /// Every session is well formed; see `well_formed`.
    #[verifier::type_invariant]
    spec fn wf(self) -> bool {
        well_formed(self@)
    }

    /// A session at its start: the standard opening on the board, Black to
    /// move, the cursor in the top left corner, two points each.
    pub fn new() -> (game: Self)
        ensures
            game@ == opening(),
            well_formed(game@),
    {
        let mut board: Board<BOARD_WIDTH, BOARD_HEIGHT> = Board::new();
        let ghost w = BOARD_WIDTH as int;
        let ghost h = BOARD_HEIGHT as int;
        proof {
            lemma_count_on_empty_board(board@, Tile::Black);
            lemma_count_on_empty_board(board@, Tile::White);
            lemma_count_after_set(board@, w, h, w / 2 - 1, h / 2 - 1, Tile::Black);
        }
        board.set((BOARD_WIDTH / 2 - 1) as isize, (BOARD_HEIGHT / 2 - 1) as isize, Tile::Black);
        proof {
            lemma_count_after_set(board@, w, h, w / 2, h / 2 - 1, Tile::White);
        }
        board.set((BOARD_WIDTH / 2 - 0) as isize, (BOARD_HEIGHT / 2 - 1) as isize, Tile::White);
        proof {
            lemma_count_after_set(board@, w, h, w / 2, h / 2, Tile::Black);
        }
        board.set((BOARD_WIDTH / 2 - 0) as isize, (BOARD_HEIGHT / 2 - 0) as isize, Tile::Black);
        proof {
            lemma_count_after_set(board@, w, h, w / 2 - 1, h / 2, Tile::White);
        }
        board.set((BOARD_WIDTH / 2 - 1) as isize, (BOARD_HEIGHT / 2 - 0) as isize, Tile::White);
        proof {
            let target = opening().board;
            assert forall|r: int| 0 <= r < h implies #[trigger] board@[r] =~= target[r] by {
                assert forall|c: int| 0 <= c < w implies board@[r][c] == target[r][c] by {}
            }
            assert(board@ =~= target);
        }
        Self {
            board,
            current: Player::Black,
            cursor: Position { x: 0, y: 0 },
            scores: [2, 2],
            phase: Phase::AwaitingInput,
            error: None,
        }
    }

    /// The board, for display.
    pub fn board(&self) -> (board: &Board<BOARD_WIDTH, BOARD_HEIGHT>)
        ensures
            board@ == self@.board,
    {
        &self.board
    }

    /// The player to move.
    pub fn current(&self) -> (player: Player)
        ensures
            player == self@.current,
    {
        self.current
    }

    /// The highlighted cell, which is always on the board.
    pub fn cursor(&self) -> (cursor: Position)
        ensures
            cursor@ == self@.cursor,
            0 <= cursor.x < BOARD_WIDTH,
            0 <= cursor.y < BOARD_HEIGHT,
    {
        proof {
            use_type_invariant(self);
        }
        self.cursor
    }

    /// The running scores, Black's first; each is the number of that
    /// player's pieces on the board.
    pub fn scores(&self) -> (scores: [usize; 2])
        ensures
            scores[0] == self@.black,
            scores[1] == self@.white,
            scores[0] == count(self@.board, Tile::Black),
            scores[1] == count(self@.board, Tile::White),
    {
        proof {
            use_type_invariant(self);
        }
        self.scores
    }

    /// Where the session stands.
    pub fn phase(&self) -> (phase: Phase)
        ensures
            phase == self@.phase,
    {
        self.phase
    }

    /// Why the last input was refused, if it was.
    pub fn error(&self) -> (error: Option<LegalityError>)
        ensures
            error == self@.error,
    {
        self.error
    }

    /// The player who leads by the scores, or `None` when they are equal.
    /// Once the game is over this is the winner, `None` standing for a draw.
    pub fn winner(&self) -> (winner: Option<Player>)
        ensures
            winner == leader(self@),
            well_formed(self@),
    {
        proof {
            use_type_invariant(self);
        }
        if self.scores[0] > self.scores[1] {
            Some(Player::Black)
        } else if self.scores[0] < self.scores[1] {
            Some(Player::White)
        } else {
            None
        }
    }

    /// Acts on one input and returns the phase that the session is in
    /// afterwards; the new state is `next` of the old one.
    pub fn handle(&mut self, input: Input) -> (phase: Phase)
        ensures
            final(self)@ == next(old(self)@, input),
            well_formed(final(self)@),
            phase == final(self)@.phase,
            input != Input::Confirm ==> final(self)@.board == old(self)@.board,
            old(self)@.phase == Phase::AwaitingInput && input == Input::Quit ==> phase
                == Phase::Exited,
            old(self)@.phase == Phase::AwaitingInput && input == Input::Confirm ==> (match place_result(
                old(self)@.board,
                old(self)@.current.tile(),
                old(self)@.cursor.0,
                old(self)@.cursor.1,
            ) {
                Ok(_) => final(self)@.current == old(self)@.current.spec_other() && (phase
                    == Phase::GameOver <==> !has_legal_move(
                    final(self)@.board,
                    final(self)@.current.tile(),
                )),
                Err(e) => final(self)@.current == old(self)@.current
                    && final(self)@.cursor == old(self)@.cursor
                    && final(self)@.board == old(self)@.board
                    && final(self)@.error == Some(e)
                    && phase == Phase::AwaitingInput,
            }),
    {
        proof {
            use_type_invariant(&*self);
        }
        if self.phase != Phase::AwaitingInput {
            return self.phase;
        }
        self.error = None;
        match input {
            Input::Quit => {
                self.phase = Phase::Exited;
            },
            Input::Confirm => {
                let mover = self.current;
                let tile = Tile::from(mover);
                let mut board = self.board;
                let result = board.place(self.cursor.x, self.cursor.y, tile);
                match result {
                    Ok(num_enemies_trapped) => {
                        proof {
                            let w = BOARD_WIDTH as int;
                            let h = BOARD_HEIGHT as int;
                            let x = self.cursor.x as int;
                            let y = self.cursor.y as int;
                            lemma_counts_after_place(self.board@, w, h, tile, x, y);
                            lemma_count_bounded(board@, w, h, tile);
                            lemma_count_bounded(self.board@, w, h, tile);
                        }
                        let mut scores = self.scores;
                        match mover {
                            Player::Black => {
                                scores[0] += num_enemies_trapped + 1;
                                scores[1] -= num_enemies_trapped;
                            },
                            Player::White => {
                                scores[1] += num_enemies_trapped + 1;
                                scores[0] -= num_enemies_trapped;
                            },
                        }
                        let current = mover.other();
                        let phase = if board.player_has_legal_move(Tile::from(current)) {
                            Phase::AwaitingInput
                        } else {
                            Phase::GameOver
                        };
                        *self = Othello {
                            board,
                            current,
                            cursor: self.cursor,
                            scores,
                            phase,
                            error: None,
                        };
                    },
                    Err(err) => {
                        self.error = Some(err);
                    },
                }
            },
            Input::Up => {
                if self.cursor.y > 0 {
                    self.cursor.y -= 1;
                }
            },
            Input::Down => {
                if self.cursor.y < (BOARD_HEIGHT as isize) - 1 {
                    self.cursor.y += 1;
                }
            },
            Input::Left => {
                if self.cursor.x > 0 {
                    self.cursor.x -= 1;
                }
            },
            Input::Right => {
                if self.cursor.x < (BOARD_WIDTH as isize) - 1 {
                    self.cursor.x += 1;
                }
            },
            Input::Other => {},
        }
        self.phase
    }
}

} // verus!
