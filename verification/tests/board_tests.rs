use othello::board::{Board, LegalityError, Position, Tile};

fn seeded() -> Board<8, 8> {
    let mut board: Board<8, 8> = Board::new();
    board.set(3, 3, Tile::Black);
    board.set(4, 3, Tile::White);
    board.set(4, 4, Tile::Black);
    board.set(3, 4, Tile::White);
    board
}

fn crowded() -> Board<8, 8> {
    let mut board: Board<8, 8> = Board::new();
    let white: [(isize, isize); 10] =
        [(3, 4), (2, 4), (4, 3), (5, 5), (6, 6), (7, 7), (5, 4), (4, 5), (4, 6), (3, 3)];
    let black: [(isize, isize); 5] = [(1, 4), (4, 2), (5, 3), (4, 7), (2, 2)];
    for (x, y) in white {
        board.set(x, y, Tile::White);
    }
    for (x, y) in black {
        board.set(x, y, Tile::Black);
    }
    board
}

fn snapshot<const W: usize, const H: usize>(board: &Board<W, H>) -> Vec<Vec<Tile>> {
    let mut rows = Vec::new();
    for y in 0..H as isize {
        let mut row = Vec::new();
        for x in 0..W as isize {
            row.push(board.get(x, y));
        }
        rows.push(row);
    }
    rows
}

fn count<const W: usize, const H: usize>(board: &Board<W, H>, tile: Tile) -> usize {
    snapshot(board).iter().flatten().filter(|t| **t == tile).count()
}

fn pairs(positions: &[Position]) -> Vec<(isize, isize)> {
    positions.iter().map(|p| (p.x, p.y)).collect()
}

#[test]
fn new_board_is_empty() {
    let board: Board<8, 8> = Board::new();
    for y in 0..8 {
        for x in 0..8 {
            assert_eq!(board.get(x, y), Tile::Empty);
        }
    }
}

#[test]
fn set_writes_one_cell() {
    let mut board: Board<5, 3> = Board::new();
    board.set(4, 2, Tile::White);
    board.set(0, 1, Tile::Black);
    for y in 0..3 {
        for x in 0..5 {
            let expected = if (x, y) == (4, 2) {
                Tile::White
            } else if (x, y) == (0, 1) {
                Tile::Black
            } else {
                Tile::Empty
            };
            assert_eq!(board.get(x, y), expected);
        }
    }
    board.set(4, 2, Tile::Empty);
    assert_eq!(board.get(4, 2), Tile::Empty);
}

#[test]
fn place_flips_the_flanked_piece() {
    let mut board = seeded();
    let before = snapshot(&board);
    assert_eq!(board.place(2, 4, Tile::Black), Ok(1));
    assert_eq!(board.get(3, 4), Tile::Black);
    assert_eq!(board.get(2, 4), Tile::Black);
    let after = snapshot(&board);
    for y in 0..8usize {
        for x in 0..8usize {
            if (x, y) != (2, 4) && (x, y) != (3, 4) {
                assert_eq!(after[y][x], before[y][x]);
            }
        }
    }
}

#[test]
fn place_next_to_a_friend_only_is_refused() {
    let mut board = seeded();
    let before = snapshot(&board);
    assert_eq!(board.place(2, 3, Tile::Black), Err(LegalityError::NoCapture));
    assert_eq!(snapshot(&board), before);
}

#[test]
fn place_far_from_any_piece_is_refused() {
    let mut board = seeded();
    let before = snapshot(&board);
    assert_eq!(board.place(0, 0, Tile::White), Err(LegalityError::NoCapture));
    assert_eq!(board.place(7, 7, Tile::Black), Err(LegalityError::NoCapture));
    assert_eq!(snapshot(&board), before);
}

#[test]
fn place_on_an_occupied_cell_is_refused() {
    let mut board = seeded();
    let before = snapshot(&board);
    assert_eq!(board.place(3, 3, Tile::White), Err(LegalityError::AlreadyOccupied));
    assert_eq!(board.place(3, 3, Tile::Black), Err(LegalityError::AlreadyOccupied));
    assert_eq!(board.place(4, 3, Tile::Black), Err(LegalityError::AlreadyOccupied));
    assert_eq!(snapshot(&board), before);
}

#[test]
fn occupied_cell_is_refused_even_when_a_direction_flanks() {
    let mut board: Board<8, 8> = Board::new();
    board.set(0, 0, Tile::White);
    board.set(1, 0, Tile::White);
    board.set(2, 0, Tile::Black);
    // seen from (0, 0), the run to the east is flanked for Black
    assert_eq!(pairs(&board.find_trapped_enemies(Tile::Black, 0, 0)), vec![(1, 0)]);
    assert_eq!(board.place(0, 0, Tile::Black), Err(LegalityError::AlreadyOccupied));
    assert_eq!(board.get(0, 0), Tile::White);
    assert_eq!(board.get(1, 0), Tile::White);
}

#[test]
fn trapped_cells_come_direction_by_direction() {
    let board = crowded();
    let enemies = board.find_trapped_enemies(Tile::Black, 4, 4);
    assert_eq!(pairs(&enemies), vec![(3, 3), (4, 3), (3, 4), (2, 4), (4, 5), (4, 6)]);
}

#[test]
fn place_captures_in_every_flanking_direction() {
    let mut board = crowded();
    assert_eq!(count(&board, Tile::Black), 5);
    assert_eq!(count(&board, Tile::White), 10);
    assert_eq!(board.place(4, 4, Tile::Black), Ok(6));
    for (x, y) in [(3, 3), (4, 3), (3, 4), (2, 4), (4, 5), (4, 6), (4, 4)] {
        assert_eq!(board.get(x, y), Tile::Black);
    }
    // a run that reaches the edge, and a run that ends in a gap, stay
    for (x, y) in [(5, 5), (6, 6), (7, 7), (5, 4)] {
        assert_eq!(board.get(x, y), Tile::White);
    }
    assert_eq!(board.get(6, 4), Tile::Empty);
    assert_eq!(count(&board, Tile::Black), 12);
    assert_eq!(count(&board, Tile::White), 4);
}

#[test]
fn capture_count_is_the_number_of_flipped_cells() {
    let mut board = crowded();
    let before = snapshot(&board);
    let captured = board.place(4, 4, Tile::Black).unwrap();
    let after = snapshot(&board);
    let mut flipped = 0;
    for y in 0..8usize {
        for x in 0..8usize {
            if (x, y) != (4, 4) && before[y][x] != after[y][x] {
                flipped += 1;
            }
        }
    }
    assert_eq!(captured, flipped);
}

#[test]
fn scan_appends_a_flanked_run() {
    let board = crowded();
    let mut enemies = vec![Position { x: 9, y: 9 }];
    board.find_trapped_enemies_in_direction(&mut enemies, Tile::Black, 3, 4, -1, 0);
    assert_eq!(pairs(&enemies), vec![(9, 9), (3, 4), (2, 4)]);
}

#[test]
fn scan_appends_nothing_without_a_flank() {
    let board = crowded();
    let mut enemies = vec![Position { x: 9, y: 9 }];
    // runs off the board
    board.find_trapped_enemies_in_direction(&mut enemies, Tile::Black, 5, 5, 1, 1);
    // ends in a gap
    board.find_trapped_enemies_in_direction(&mut enemies, Tile::Black, 5, 4, 1, 0);
    // starts at a friend
    board.find_trapped_enemies_in_direction(&mut enemies, Tile::Black, 5, 3, 1, -1);
    // starts off the board
    board.find_trapped_enemies_in_direction(&mut enemies, Tile::Black, -1, 4, -1, 0);
    board.find_trapped_enemies_in_direction(&mut enemies, Tile::Black, 8, 8, 1, 1);
    assert_eq!(pairs(&enemies), vec![(9, 9)]);
}

#[test]
fn narrow_board_captures_along_its_row() {
    let mut board: Board<4, 2> = Board::new();
    board.set(1, 0, Tile::White);
    board.set(2, 0, Tile::White);
    board.set(3, 0, Tile::Black);
    assert_eq!(pairs(&board.find_trapped_enemies(Tile::Black, 0, 0)), vec![(1, 0), (2, 0)]);
    assert!(board.find_trapped_enemies(Tile::Black, 0, 1).is_empty());
    assert_eq!(board.place(0, 1, Tile::Black), Err(LegalityError::NoCapture));
    assert_eq!(board.place(0, 0, Tile::Black), Ok(2));
    assert_eq!(snapshot(&board)[0], vec![Tile::Black; 4]);
    assert_eq!(snapshot(&board)[1], vec![Tile::Empty; 4]);
}

#[test]
fn legal_moves_exist_in_the_opening() {
    let board = seeded();
    assert!(board.player_has_legal_move(Tile::Black));
    assert!(board.player_has_legal_move(Tile::White));
}

#[test]
fn legal_moves_of_the_opening_are_the_four_known_ones() {
    for (tile, expected) in [
        (Tile::Black, vec![(4, 2), (5, 3), (2, 4), (3, 5)]),
        (Tile::White, vec![(3, 2), (2, 3), (5, 4), (4, 5)]),
    ] {
        let mut legal = Vec::new();
        for y in 0..8 {
            for x in 0..8 {
                let mut board = seeded();
                if board.place(x, y, tile).is_ok() {
                    legal.push((x, y));
                }
            }
        }
        assert_eq!(legal, expected);
    }
}

#[test]
fn no_legal_move_means_every_empty_cell_is_refused_for_no_capture() {
    let mut board: Board<8, 8> = Board::new();
    board.set(0, 0, Tile::Black);
    board.set(1, 0, Tile::Black);
    board.set(7, 7, Tile::White);
    for tile in [Tile::Black, Tile::White] {
        assert!(!board.player_has_legal_move(tile));
        for y in 0..8 {
            for x in 0..8 {
                if board.get(x, y) == Tile::Empty {
                    assert_eq!(board.place(x, y, tile), Err(LegalityError::NoCapture));
                }
            }
        }
    }
}

#[test]
fn no_legal_move_on_an_empty_or_a_full_board() {
    let empty: Board<8, 8> = Board::new();
    assert!(!empty.player_has_legal_move(Tile::Black));
    assert!(!empty.player_has_legal_move(Tile::White));
    let mut full: Board<3, 3> = Board::new();
    for y in 0..3 {
        for x in 0..3 {
            full.set(x, y, if (x + y) % 2 == 0 { Tile::Black } else { Tile::White });
        }
    }
    assert!(!full.player_has_legal_move(Tile::Black));
    assert!(!full.player_has_legal_move(Tile::White));
}

#[test]
fn one_legal_move_in_the_last_corner_is_found() {
    let mut board: Board<3, 3> = Board::new();
    board.set(0, 0, Tile::Black);
    board.set(1, 1, Tile::White);
    assert!(board.player_has_legal_move(Tile::Black));
    assert!(!board.player_has_legal_move(Tile::White));
    assert_eq!(board.place(2, 2, Tile::Black), Ok(1));
    assert_eq!(board.get(1, 1), Tile::Black);
}

#[test]
fn mirrored_move_captures_the_mirrored_cells() {
    for (x, y) in [(4, 4), (0, 0), (6, 4), (3, 5)] {
        let upright = crowded();
        let mut mirrored: Board<8, 8> = Board::new();
        let mut upside_down: Board<8, 8> = Board::new();
        for cy in 0..8 {
            for cx in 0..8 {
                mirrored.set(7 - cx, cy, upright.get(cx, cy));
                upside_down.set(cx, 7 - cy, upright.get(cx, cy));
            }
        }
        let mut here = pairs(&upright.find_trapped_enemies(Tile::Black, x, y));
        let mut there: Vec<(isize, isize)> = pairs(
            &mirrored.find_trapped_enemies(Tile::Black, 7 - x, y),
        ).into_iter().map(|(cx, cy)| (7 - cx, cy)).collect();
        let mut below: Vec<(isize, isize)> = pairs(
            &upside_down.find_trapped_enemies(Tile::Black, x, 7 - y),
        ).into_iter().map(|(cx, cy)| (cx, 7 - cy)).collect();
        here.sort();
        there.sort();
        below.sort();
        assert_eq!(here, there);
        assert_eq!(here, below);
    }
}

#[test]
fn mirrored_opening_flips_the_mirrored_piece() {
    let mut board: Board<8, 8> = Board::new();
    board.set(4, 3, Tile::Black);
    board.set(3, 3, Tile::White);
    board.set(3, 4, Tile::Black);
    board.set(4, 4, Tile::White);
    assert_eq!(pairs(&board.find_trapped_enemies(Tile::Black, 5, 4)), vec![(4, 4)]);
    assert_eq!(board.place(5, 4, Tile::Black), Ok(1));
    assert_eq!(board.get(4, 4), Tile::Black);
}

#[test]
fn pieces_are_never_removed() {
    let mut board = seeded();
    let moves: [(isize, isize, Tile); 12] = [
        (3, 5, Tile::Black),
        (2, 3, Tile::White),
        (0, 0, Tile::Black),
        (3, 2, Tile::Black),
        (2, 5, Tile::White),
        (3, 3, Tile::White),
        (1, 4, Tile::Black),
        (4, 5, Tile::White),
        (3, 6, Tile::Black),
        (2, 4, Tile::White),
        (5, 4, Tile::Black),
        (7, 0, Tile::White),
    ];
    let mut occupied: Vec<(isize, isize)> = Vec::new();
    for (x, y, tile) in moves {
        for cy in 0..8 {
            for cx in 0..8 {
                if board.get(cx, cy) != Tile::Empty && !occupied.contains(&(cx, cy)) {
                    occupied.push((cx, cy));
                }
            }
        }
        let _ = board.place(x, y, tile);
        for (cx, cy) in occupied.iter() {
            assert_ne!(board.get(*cx, *cy), Tile::Empty);
        }
    }
    assert_eq!(count(&board, Tile::Black), 13);
    assert_eq!(count(&board, Tile::White), 0);
}

#[test]
fn the_empty_tile_is_scanned_like_any_other() {
    // With no owner, every piece is an opponent and an empty cell ends a run
    // as a friend would.
    let board = seeded();
    let enemies = board.find_trapped_enemies(Tile::Empty, 2, 3);
    assert_eq!(pairs(&enemies), vec![(3, 3), (4, 3), (3, 4)]);
}

#[test]
fn refusals_have_their_sentences() {
    assert_eq!(LegalityError::AlreadyOccupied.message(), "Tile is already occupied!");
    assert_eq!(LegalityError::NoCapture.message(), "Cannot place a tile here!");
}

#[test]
fn tiles_have_their_glyphs() {
    assert_eq!(char::from(Tile::Empty), '.');
    assert_eq!(char::from(Tile::Black), '\u{25A1}');
    assert_eq!(char::from(Tile::White), '\u{25A0}');
    let c: char = Tile::White.into();
    assert_eq!(c, '\u{25A0}');
}
