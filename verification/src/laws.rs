//! What holds of every board and every move, stated over the rules.

use crate::board::{LegalityError, Tile};
use crate::capture_lemmas::lemma_captured_are_opponents;
use crate::counting::{count, lemma_counts_after_place};
use crate::othello::{
    leader, next, well_formed, GameState, Input, Phase, Player, BOARD_HEIGHT, BOARD_WIDTH,
};
use crate::rules::{
    after_place, captured, flank_at, flanks, has_legal_move, is_direction, on_board, place_result,
    ray,
};
use vstd::prelude::*;

verus! {

/// A player has no legal move exactly when every empty cell of the board,
/// tried as a placement for that player, is refused for want of a capture.
pub proof fn lemma_no_legal_move(g: Seq<Seq<Tile>>, friend: Tile)
    ensures
        !has_legal_move(g, friend) <==> forall|x: int, y: int|
            on_board(g, x, y) && g[y][x] == Tile::Empty ==> #[trigger] place_result(g, friend, x, y)
                == Err::<nat, LegalityError>(LegalityError::NoCapture),
{
    if !has_legal_move(g, friend) {
        assert forall|x: int, y: int| on_board(g, x, y) && g[y][x] == Tile::Empty implies #[trigger] place_result(
            g,
            friend,
            x,
            y,
        ) == Err::<nat, LegalityError>(LegalityError::NoCapture) by {
            assert(!(place_result(g, friend, x, y) is Ok));
        }
    }
}

/// A placement succeeds exactly when the target cell is empty and at least
/// one of the eight directions flanks: a run of opponents that starts right
/// next to the cell and is directly followed by a friend.
pub proof fn lemma_legal_iff_flanked(g: Seq<Seq<Tile>>, friend: Tile, x: int, y: int)
    ensures
        place_result(g, friend, x, y) is Ok <==> g[y][x] == Tile::Empty && exists|dx: int, dy: int|
            is_direction(dx, dy) && #[trigger] flanks(g, friend, x, y, dx, dy),
{
    let cap = captured(g, friend, x, y);
    if cap != Set::<(int, int)>::empty() {
        if forall|c: (int, int)| !cap.contains(c) {
            assert(cap =~= Set::<(int, int)>::empty());
        }
        let c = choose|c: (int, int)| cap.contains(c);
        let (dx, dy, n, k) = choose|dx: int, dy: int, n: int, k: int|
            is_direction(dx, dy) && #[trigger] flank_at(g, friend, x, y, dx, dy, n) && 1 <= k <= n
                && c == #[trigger] ray(x, y, dx, dy, k);
        assert(is_direction(dx, dy) && flanks(g, friend, x, y, dx, dy));
    }
    if exists|dx: int, dy: int| is_direction(dx, dy) && #[trigger] flanks(g, friend, x, y, dx, dy) {
        let (dx, dy) = choose|dx: int, dy: int|
            is_direction(dx, dy) && #[trigger] flanks(g, friend, x, y, dx, dy);
        let n = choose|n: int| flank_at(g, friend, x, y, dx, dy, n);
        assert(is_direction(dx, dy) && flank_at(g, friend, x, y, dx, dy, n) && 1 <= 1 <= n && ray(
            x,
            y,
            dx,
            dy,
            1,
        ) == ray(x, y, dx, dy, 1));
        assert(cap.contains(ray(x, y, dx, dy, 1)));
    }
}

/// The cells of `before` whose tile differs in `after`.
pub open spec fn changed_cells(before: Seq<Seq<Tile>>, after: Seq<Seq<Tile>>) -> Set<(int, int)> {
    Set::new(|c: (int, int)| on_board(before, c.0, c.1) && before[c.1][c.0] != after[c.1][c.0])
}

/// The cells that a placement changes, the placed cell aside, are the capture
/// set, and the count that a successful placement reports is the number of
/// these cells.
pub proof fn lemma_capture_count(g: Seq<Seq<Tile>>, friend: Tile, x: int, y: int)
    requires
        on_board(g, x, y),
    ensures
        place_result(g, friend, x, y) is Ok ==> changed_cells(
            g,
            after_place(g, friend, x, y),
        ).remove((x, y)) == captured(g, friend, x, y),
        place_result(g, friend, x, y) matches Ok(n) ==> n == changed_cells(
            g,
            after_place(g, friend, x, y),
        ).remove((x, y)).len(),
        place_result(g, friend, x, y) is Err ==> changed_cells(g, after_place(g, friend, x, y))
            == Set::<(int, int)>::empty(),
{
    lemma_captured_are_opponents(g, friend, x, y);
    if place_result(g, friend, x, y) is Ok {
        assert(changed_cells(g, after_place(g, friend, x, y)).remove((x, y)) =~= captured(
            g,
            friend,
            x,
            y,
        ));
    } else {
        assert(changed_cells(g, after_place(g, friend, x, y)) =~= Set::<(int, int)>::empty());
    }
}

/// The grid after a list of attempted placements, each given as the tile and
/// the cell `(x, y)`, made one after the other from the first to the last.
pub open spec fn after_moves(g: Seq<Seq<Tile>>, moves: Seq<(Tile, int, int)>) -> Seq<Seq<Tile>>
    decreases moves.len(),
{
    if moves.len() == 0 {
        g
    } else {
        let m = moves.last();
        after_place(after_moves(g, moves.drop_last()), m.0, m.1, m.2)
    }
}

/// A placement by a player never empties a cell: it keeps the shape of the
/// board, and every cell that held a piece still holds one.
pub proof fn lemma_place_keeps_pieces(g: Seq<Seq<Tile>>, friend: Tile, x: int, y: int)
    requires
        friend != Tile::Empty,
    ensures
        after_place(g, friend, x, y).len() == g.len(),
        forall|r: int|
            0 <= r < g.len() ==> (#[trigger] after_place(g, friend, x, y)[r]).len() == g[r].len(),
        forall|cx: int, cy: int|
            on_board(g, cx, cy) && g[cy][cx] != Tile::Empty ==> after_place(
                g,
                friend,
                x,
                y,
            )[cy][cx] != Tile::Empty,
{
}

/// Once a cell holds a piece, no sequence of placements by the players
/// returns it to empty.
pub proof fn lemma_pieces_are_never_removed(g: Seq<Seq<Tile>>, moves: Seq<(Tile, int, int)>)
    requires
        forall|i: int| 0 <= i < moves.len() ==> (#[trigger] moves[i]).0 != Tile::Empty,
    ensures
        after_moves(g, moves).len() == g.len(),
        forall|r: int| 0 <= r < g.len() ==> (#[trigger] after_moves(g, moves)[r]).len() == g[r].len(),
        forall|cx: int, cy: int|
            on_board(g, cx, cy) && g[cy][cx] != Tile::Empty ==> after_moves(g, moves)[cy][cx]
                != Tile::Empty,
    decreases moves.len(),
{
    if moves.len() > 0 {
        let m = moves.last();
        let earlier = after_moves(g, moves.drop_last());
        lemma_pieces_are_never_removed(g, moves.drop_last());
        lemma_place_keeps_pieces(earlier, m.0, m.1, m.2);
        assert forall|cx: int, cy: int| on_board(g, cx, cy) && g[cy][cx] != Tile::Empty implies after_moves(
            g,
            moves,
        )[cy][cx] != Tile::Empty by {
            assert(earlier[cy].len() == g[cy].len());
            assert(on_board(earlier, cx, cy));
        }
    }
}

/// Quitting while input is awaited ends the session and touches nothing
/// else: the board, the scores, the turn and the cursor stay as they were.
pub proof fn lemma_quit_ends_session(s: GameState)
    requires
        s.phase == Phase::AwaitingInput,
    ensures
        next(s, Input::Quit).phase == Phase::Exited,
        next(s, Input::Quit).board == s.board,
        next(s, Input::Quit).current == s.current,
        next(s, Input::Quit).cursor == s.cursor,
        next(s, Input::Quit).black == s.black,
        next(s, Input::Quit).white == s.white,
{
}

/// Only a confirmed placement changes the board, and once the session has
/// ended no input changes anything.
pub proof fn lemma_board_changes_only_by_placement(s: GameState, input: Input)
    ensures
        input != Input::Confirm ==> next(s, input).board == s.board,
        s.phase != Phase::AwaitingInput ==> next(s, input) == s,
{
}

/// The turn passes after every successful placement, and only then: the
/// other player is to move, and the game is over exactly when that player
/// has no legal move on the new board. A refused placement keeps the
/// player, the cursor, the board and the scores, and records the reason.
pub proof fn lemma_turn_alternation(s: GameState)
    requires
        s.phase == Phase::AwaitingInput,
    ensures
        ({
            let tried = place_result(s.board, s.current.tile(), s.cursor.0, s.cursor.1);
            let t = next(s, Input::Confirm);
            &&& tried is Ok ==> {
                &&& t.current == s.current.spec_other()
                &&& t.board == after_place(s.board, s.current.tile(), s.cursor.0, s.cursor.1)
                &&& t.phase == Phase::GameOver <==> !has_legal_move(t.board, t.current.tile())
                &&& t.phase == Phase::AwaitingInput <==> has_legal_move(t.board, t.current.tile())
            }
            &&& tried matches Err(e) ==> t == (GameState { error: Some(e), ..s })
        }),
{
}

/// Every transition keeps the session well formed: the cursor stays on the
/// board and the scores stay equal to the numbers of pieces.
pub proof fn lemma_next_keeps_well_formed(s: GameState, input: Input)
    requires
        well_formed(s),
    ensures
        well_formed(next(s, input)),
{
    if s.phase == Phase::AwaitingInput && input == Input::Confirm {
        let tile = s.current.tile();
        if place_result(s.board, tile, s.cursor.0, s.cursor.1) is Ok {
            lemma_counts_after_place(
                s.board,
                BOARD_WIDTH as int,
                BOARD_HEIGHT as int,
                tile,
                s.cursor.0,
                s.cursor.1,
            );
        }
    }
}

/// In a well-formed session the leader by the scores is the player with
/// more pieces on the board, and nobody leads when both have as many.
pub proof fn lemma_leader_has_more_pieces(s: GameState)
    requires
        well_formed(s),
    ensures
        leader(s) == Some(Player::Black) <==> count(s.board, Tile::Black) > count(
            s.board,
            Tile::White,
        ),
        leader(s) == Some(Player::White) <==> count(s.board, Tile::Black) < count(
            s.board,
            Tile::White,
        ),
        leader(s) == None::<Player> <==> count(s.board, Tile::Black) == count(
            s.board,
            Tile::White,
        ),
{
}

} // verus!
