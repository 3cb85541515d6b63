use othello::board::{Board, LegalityError, Tile};
use othello::othello::{Input, Othello, Phase, Player, BOARD_HEIGHT, BOARD_WIDTH};

fn snapshot(board: &Board<8, 8>) -> Vec<Vec<Tile>> {
    let mut rows = Vec::new();
    for y in 0..8 {
        let mut row = Vec::new();
        for x in 0..8 {
            row.push(board.get(x, y));
        }
        rows.push(row);
    }
    rows
}

fn count(board: &Board<8, 8>, tile: Tile) -> usize {
    snapshot(board).iter().flatten().filter(|t| **t == tile).count()
}

fn cursor_of(game: &Othello) -> (isize, isize) {
    (game.cursor().x, game.cursor().y)
}

fn go_to(game: &mut Othello, x: isize, y: isize) {
    while game.cursor().x < x {
        game.handle(Input::Right);
    }
    while game.cursor().x > x {
        game.handle(Input::Left);
    }
    while game.cursor().y < y {
        game.handle(Input::Down);
    }
    while game.cursor().y > y {
        game.handle(Input::Up);
    }
    assert_eq!(cursor_of(game), (x, y));
}

fn play_at(game: &mut Othello, x: isize, y: isize) -> Phase {
    go_to(game, x, y);
    game.handle(Input::Confirm)
}

#[test]
fn board_is_eight_by_eight() {
    assert_eq!(BOARD_WIDTH, 8);
    assert_eq!(BOARD_HEIGHT, 8);
}

#[test]
fn new_game_is_the_opening() {
    let game = Othello::new();
    for y in 0..8 {
        for x in 0..8 {
            let expected = match (x, y) {
                (3, 3) | (4, 4) => Tile::Black,
                (4, 3) | (3, 4) => Tile::White,
                _ => Tile::Empty,
            };
            assert_eq!(game.board().get(x, y), expected);
        }
    }
    assert_eq!(game.current(), Player::Black);
    assert_eq!(cursor_of(&game), (0, 0));
    assert_eq!(game.scores(), [2, 2]);
    assert_eq!(game.phase(), Phase::AwaitingInput);
    assert_eq!(game.error(), None);
    assert_eq!(game.winner(), None);
}

#[test]
fn players_alternate_and_have_their_tiles() {
    assert_eq!(Player::Black.other(), Player::White);
    assert_eq!(Player::White.other(), Player::Black);
    assert_eq!(Tile::from(Player::Black), Tile::Black);
    assert_eq!(Tile::from(Player::White), Tile::White);
}

#[test]
fn cursor_moves_one_cell_per_event() {
    let mut game = Othello::new();
    assert_eq!(game.handle(Input::Right), Phase::AwaitingInput);
    assert_eq!(cursor_of(&game), (1, 0));
    game.handle(Input::Down);
    assert_eq!(cursor_of(&game), (1, 1));
    game.handle(Input::Down);
    assert_eq!(cursor_of(&game), (1, 2));
    game.handle(Input::Left);
    assert_eq!(cursor_of(&game), (0, 2));
    game.handle(Input::Up);
    assert_eq!(cursor_of(&game), (0, 1));
}

#[test]
fn cursor_stops_at_the_edges() {
    let mut game = Othello::new();
    game.handle(Input::Up);
    game.handle(Input::Left);
    assert_eq!(cursor_of(&game), (0, 0));
    for _ in 0..20 {
        game.handle(Input::Right);
        game.handle(Input::Down);
    }
    assert_eq!(cursor_of(&game), (7, 7));
    assert_eq!(game.phase(), Phase::AwaitingInput);
    assert_eq!(game.current(), Player::Black);
    assert_eq!(game.scores(), [2, 2]);
}

#[test]
fn legal_move_passes_the_turn_and_moves_the_scores() {
    let mut game = Othello::new();
    assert_eq!(play_at(&mut game, 2, 4), Phase::AwaitingInput);
    assert_eq!(game.board().get(2, 4), Tile::Black);
    assert_eq!(game.board().get(3, 4), Tile::Black);
    assert_eq!(game.current(), Player::White);
    assert_eq!(game.scores(), [4, 1]);
    assert_eq!(game.error(), None);
    assert_eq!(cursor_of(&game), (2, 4));
    assert_eq!(game.winner(), Some(Player::Black));
    // White answers
    assert_eq!(play_at(&mut game, 2, 3), Phase::AwaitingInput);
    assert_eq!(game.current(), Player::Black);
    assert_eq!(game.scores(), [3, 3]);
    assert_eq!(game.winner(), None);
}

#[test]
fn move_without_capture_is_reported_and_keeps_the_turn() {
    let mut game = Othello::new();
    let before = snapshot(game.board());
    assert_eq!(game.handle(Input::Confirm), Phase::AwaitingInput);
    assert_eq!(game.error(), Some(LegalityError::NoCapture));
    assert_eq!(game.current(), Player::Black);
    assert_eq!(cursor_of(&game), (0, 0));
    assert_eq!(game.scores(), [2, 2]);
    assert_eq!(snapshot(game.board()), before);
}

#[test]
fn move_onto_a_piece_is_reported_and_keeps_the_turn() {
    let mut game = Othello::new();
    let before = snapshot(game.board());
    assert_eq!(play_at(&mut game, 3, 3), Phase::AwaitingInput);
    assert_eq!(game.error(), Some(LegalityError::AlreadyOccupied));
    assert_eq!(game.current(), Player::Black);
    assert_eq!(cursor_of(&game), (3, 3));
    assert_eq!(game.scores(), [2, 2]);
    assert_eq!(snapshot(game.board()), before);
}

#[test]
fn next_event_clears_the_error() {
    for input in [Input::Up, Input::Down, Input::Left, Input::Right, Input::Other] {
        let mut game = Othello::new();
        game.handle(Input::Confirm);
        assert_eq!(game.error(), Some(LegalityError::NoCapture));
        game.handle(input);
        assert_eq!(game.error(), None);
    }
    let mut game = Othello::new();
    game.handle(Input::Confirm);
    assert_eq!(play_at(&mut game, 2, 4), Phase::AwaitingInput);
    assert_eq!(game.error(), None);
}

#[test]
fn other_events_are_ignored() {
    let mut game = Othello::new();
    game.handle(Input::Right);
    let before = snapshot(game.board());
    assert_eq!(game.handle(Input::Other), Phase::AwaitingInput);
    assert_eq!(cursor_of(&game), (1, 0));
    assert_eq!(game.current(), Player::Black);
    assert_eq!(game.scores(), [2, 2]);
    assert_eq!(snapshot(game.board()), before);
}

#[test]
fn quit_ends_the_session_and_keeps_the_board() {
    let mut game = Othello::new();
    play_at(&mut game, 2, 4);
    let before = snapshot(game.board());
    assert_eq!(game.handle(Input::Quit), Phase::Exited);
    assert_eq!(game.phase(), Phase::Exited);
    assert_eq!(snapshot(game.board()), before);
    assert_eq!(game.current(), Player::White);
    assert_eq!(game.scores(), [4, 1]);
    assert_eq!(cursor_of(&game), (2, 4));
}

#[test]
fn quit_clears_a_pending_error() {
    let mut game = Othello::new();
    game.handle(Input::Confirm);
    assert_eq!(game.handle(Input::Quit), Phase::Exited);
    assert_eq!(game.error(), None);
}

#[test]
fn nothing_happens_after_quit() {
    let mut game = Othello::new();
    go_to(&mut game, 2, 4);
    game.handle(Input::Quit);
    let before = snapshot(game.board());
    for input in [
        Input::Confirm,
        Input::Up,
        Input::Down,
        Input::Left,
        Input::Right,
        Input::Other,
        Input::Quit,
    ] {
        assert_eq!(game.handle(input), Phase::Exited);
        assert_eq!(cursor_of(&game), (2, 4));
        assert_eq!(game.current(), Player::Black);
        assert_eq!(game.scores(), [2, 2]);
        assert_eq!(snapshot(game.board()), before);
    }
}

#[test]
fn game_ends_when_the_next_player_cannot_move() {
    let mut game = Othello::new();
    let moves: [(isize, isize); 9] =
        [(3, 5), (2, 3), (3, 2), (2, 5), (1, 4), (4, 5), (3, 6), (2, 4), (5, 4)];
    let scores: [[usize; 2]; 9] =
        [[4, 1], [3, 3], [5, 2], [4, 4], [6, 3], [4, 6], [8, 3], [7, 5], [13, 0]];
    for i in 0..9 {
        assert_eq!(game.phase(), Phase::AwaitingInput);
        let mover = game.current();
        assert_eq!(mover, if i % 2 == 0 { Player::Black } else { Player::White });
        let phase = play_at(&mut game, moves[i].0, moves[i].1);
        assert_eq!(game.error(), None);
        assert_eq!(game.scores(), scores[i]);
        assert_eq!(game.scores()[0], count(game.board(), Tile::Black));
        assert_eq!(game.scores()[1], count(game.board(), Tile::White));
        assert_eq!(game.current(), mover.other());
        if i < 8 {
            assert_eq!(phase, Phase::AwaitingInput);
            assert!(game.board().player_has_legal_move(Tile::from(game.current())));
        } else {
            assert_eq!(phase, Phase::GameOver);
            assert!(!game.board().player_has_legal_move(Tile::from(game.current())));
        }
    }
    assert_eq!(game.phase(), Phase::GameOver);
    assert_eq!(game.current(), Player::White);
    assert_eq!(game.winner(), Some(Player::Black));
}

#[test]
fn nothing_happens_after_the_game_is_over() {
    let mut game = Othello::new();
    for (x, y) in [(3, 5), (2, 3), (3, 2), (2, 5), (1, 4), (4, 5), (3, 6), (2, 4), (5, 4)] {
        play_at(&mut game, x, y);
    }
    assert_eq!(game.phase(), Phase::GameOver);
    let before = snapshot(game.board());
    for input in [
        Input::Confirm,
        Input::Up,
        Input::Down,
        Input::Left,
        Input::Right,
        Input::Other,
        Input::Quit,
    ] {
        assert_eq!(game.handle(input), Phase::GameOver);
        assert_eq!(cursor_of(&game), (5, 4));
        assert_eq!(game.current(), Player::White);
        assert_eq!(game.scores(), [13, 0]);
        assert_eq!(snapshot(game.board()), before);
    }
}

#[test]
fn white_can_lead() {
    let mut game = Othello::new();
    for (x, y) in [(3, 5), (2, 3), (3, 2), (2, 5), (1, 4), (4, 5)] {
        play_at(&mut game, x, y);
    }
    assert_eq!(game.scores(), [4, 6]);
    assert_eq!(game.winner(), Some(Player::White));
}
