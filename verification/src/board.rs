//! The board: its cells, and the placement of a piece with the captures
//! that follow from it.

use crate::capture_lemmas::{
    lemma_captured_are_opponents, lemma_captured_len, lemma_ray_step, lemma_scan_decides,
    lemma_trapped_is_captured,
};
use crate::laws::{
    changed_cells, lemma_capture_count, lemma_legal_iff_flanked, lemma_no_legal_move,
    lemma_place_keeps_pieces,
};
use crate::rules::{
    after_place, captured, flanks, flipped, friend_on_ray, has_legal_move, is_direction, offset,
    on_board, opponent_on_ray, place_result, ray, trapped, trapped_by_offset,
    trapped_in_direction, trapped_upto,
};
use vstd::prelude::*;

verus! {

/// What occupies one cell of the board.
#[derive(Copy, Clone, Debug, PartialEq, Eq, Structural)]
pub enum Tile {
    /// Nobody's.
    Empty,
    /// A piece of the player who moves first.
    Black,
    /// A piece of the player who moves second.
    White,
}

impl Tile {
    /// The character that shows this tile on a text display.
    pub open spec fn glyph(self) -> char {
        match self {
            Tile::Empty => '.',
            Tile::Black => '\u{25A1}',
            Tile::White => '\u{25A0}',
        }
    }
}

impl From<Tile> for char {
    fn from(tile: Tile) -> (c: char) {
        match tile {
            Tile::Empty => '.',
            Tile::Black => '\u{25A1}',
            Tile::White => '\u{25A0}',
        }
    }
}

impl vstd::std_specs::convert::FromSpecImpl<Tile> for char {
    open spec fn obeys_from_spec() -> bool {
        true
    }

    open spec fn from_spec(tile: Tile) -> char {
        tile.glyph()
    }
}

/// Why a placement was refused.
#[derive(Copy, Clone, Debug, PartialEq, Eq, Structural)]
pub enum LegalityError {
    /// The target cell already holds a piece.
    AlreadyOccupied,
    /// The placement would not flank any opponent piece.
    NoCapture,
}

impl LegalityError {
    /// The sentence that tells a player why the move was refused.
    pub open spec fn message_text(self) -> Seq<char> {
        match self {
            LegalityError::AlreadyOccupied => "Tile is already occupied!"@,
            LegalityError::NoCapture => "Cannot place a tile here!"@,
        }
    }

    /// The sentence that tells a player why the move was refused.
    pub fn message(&self) -> (text: String)
        ensures
            text@ == self.message_text(),
    {
        match self {
            LegalityError::AlreadyOccupied => "Tile is already occupied!".to_string(),
            LegalityError::NoCapture => "Cannot place a tile here!".to_string(),
        }
    }
}

/// A cell coordinate: column `x`, row `y`.
#[derive(Clone, Copy, Debug)]
pub struct Position {
    pub x: isize,
    pub y: isize,
}

impl View for Position {
    type V = (int, int);

    /// The cell as a pair `(x, y)` of integers.
    open spec fn view(&self) -> (int, int) {
        (self.x as int, self.y as int)
    }
}

/// The cells that a list of positions names, in the same order.
pub open spec fn cells(positions: Seq<Position>) -> Seq<(int, int)> {
    positions.map_values(|p: Position| p@)
}

/// The grid `g` with `tile` written into every cell that `marked` lists.
spec fn painted(g: Seq<Seq<Tile>>, tile: Tile, marked: Seq<(int, int)>) -> Seq<Seq<Tile>> {
    Seq::new(
        g.len(),
        |r: int|
            Seq::new(
                g[r].len(),
                |c: int|
                    if marked.contains((c, r)) {
                        tile
                    } else {
                        g[r][c]
                    },
            ),
    )
}

/// Marking one more cell of the board writes `tile` into that cell.
proof fn lemma_painted_push(g: Seq<Seq<Tile>>, tile: Tile, marked: Seq<(int, int)>, c: (int, int))
    requires
        on_board(g, c.0, c.1),
    ensures
        painted(g, tile, marked.push(c)) == painted(g, tile, marked).update(
            c.1,
            painted(g, tile, marked)[c.1].update(c.0, tile),
        ),
{
    let before = painted(g, tile, marked);
    let after = painted(g, tile, marked.push(c));
    let updated = before.update(c.1, before[c.1].update(c.0, tile));
    assert(marked.push(c)[marked.len() as int] == c);
    assert forall|r: int| 0 <= r < g.len() implies #[trigger] after[r] =~= updated[r] by {
        assert forall|col: int| 0 <= col < g[r].len() implies after[r][col] == updated[r][col] by {
            if marked.contains((col, r)) {
                let p = choose|p: int| 0 <= p < marked.len() && marked[p] == (col, r);
                assert(marked.push(c)[p] == (col, r));
            }
            if marked.push(c).contains((col, r)) && (col, r) != c {
                let p = choose|p: int| 0 <= p < marked.push(c).len() && marked.push(c)[p] == (col, r);
                assert(marked[p] == (col, r));
            }
        }
    }
    assert(after =~= updated);
}

/// A grid of `W` columns and `H` rows.
#[derive(Clone, Copy)]
pub struct Board<const W: usize, const H: usize> {
    tiles: [[Tile; W]; H],
}

impl<const W: usize, const H: usize> Board<W, H> {
    /// Every coordinate of the board fits the signed type that addresses it.
    #[verifier::type_invariant]
    spec fn addressable(self) -> bool {
        W <= isize::MAX && H <= isize::MAX
    }

    /// The tile stored at column `x` of row `y`.
    pub closed spec fn cell(&self, x: int, y: int) -> Tile {
        self.tiles[y][x]
    }

    /// The board as `H` rows of `W` tiles each; `self@[y][x]` is the tile at `(x, y)`.
    pub open spec fn view(&self) -> Seq<Seq<Tile>> {
        Seq::new(H as nat, |y: int| Seq::new(W as nat, |x: int| self.cell(x, y)))
    }

    /// A board on which every cell is empty.
    pub fn new() -> (board: Self)
        requires
            W <= isize::MAX,
            H <= isize::MAX,
        ensures
            forall|x: int, y: int| 0 <= x < W && 0 <= y < H ==> board@[y][x] == Tile::Empty,
    {
        Self { tiles: [[Tile::Empty; W]; H] }
    }

    /// Reads the tile at `(x, y)`.
    pub fn get(&self, x: isize, y: isize) -> (tile: Tile)
        requires
            0 <= x < W,
            0 <= y < H,
        ensures
            tile == self@[y as int][x as int],
    {
        self.tiles[y as usize][x as usize]
    }

    /// Overwrites the tile at `(x, y)`.
    pub fn set(&mut self, x: isize, y: isize, tile: Tile)
        requires
            0 <= x < W,
            0 <= y < H,
        ensures
            final(self)@ == old(self)@.update(y as int, old(self)@[y as int].update(x as int, tile)),
    {
        proof {
            use_type_invariant(&*self);
        }
        self.tiles[y as usize][x as usize] = tile;
        proof {
            let updated = old(self)@.update(y as int, old(self)@[y as int].update(x as int, tile));
            assert forall|r: int| 0 <= r < H implies #[trigger] self@[r] =~= updated[r] by {
                assert forall|c: int| 0 <= c < W implies self@[r][c] == updated[r][c] by {
                    assert(self.cell(c, r) == self.tiles[r][c]);
                    assert(old(self).cell(c, r) == old(self).tiles[r][c]);
                }
            }
            assert(self@ =~= updated);
        }
    }

    /// Scans from `(x, y)` in direction `(dx, dy)` and appends to `enemies`
    /// the opponents of `friend` met before the first cell that holds
    /// `friend`; appends nothing when the scan leaves the board or meets an
    /// empty cell first. Seen from the cell one step behind `(x, y)`, what is
    /// appended is what that cell traps along the direction.
    pub fn find_trapped_enemies_in_direction(
        &self,
        enemies: &mut Vec<Position>,
        friend: Tile,
        x: isize,
        y: isize,
        dx: isize,
        dy: isize,
    )
        requires
            is_direction(dx as int, dy as int),
        ensures
            final(enemies)@.take(old(enemies)@.len() as int) == old(enemies)@,
            cells(final(enemies)@) == cells(old(enemies)@) + trapped_in_direction(
                self@,
                friend,
                x - dx,
                y - dy,
                dx as int,
                dy as int,
            ),
    {
        proof {
            use_type_invariant(self);
        }
        let before_len = enemies.len();
        let mut found_friend = false;
        let mut cx = x;
        let mut cy = y;
        let ghost ox = x - dx;
        let ghost oy = y - dy;
        let ghost mut k: int = 0;
        while (cx >= 0 && (cx as usize) < W) && (cy >= 0 && (cy as usize) < H)
            invariant_except_break
                !found_friend,
            invariant
                W <= isize::MAX,
                H <= isize::MAX,
                is_direction(dx as int, dy as int),
                ox == x - dx,
                oy == y - dy,
                k >= 0,
                (cx as int, cy as int) == ray(ox, oy, dx as int, dy as int, k + 1),
                enemies@.len() == before_len + k,
                before_len == old(enemies)@.len(),
                enemies@.take(before_len as int) == old(enemies)@,
                forall|i: int|
                    0 <= i < k ==> (#[trigger] enemies@[before_len + i])@ == ray(
                        ox,
                        oy,
                        dx as int,
                        dy as int,
                        i + 1,
                    ),
                forall|j: int|
                    1 <= j <= k ==> #[trigger] opponent_on_ray(
                        self@,
                        friend,
                        ox,
                        oy,
                        dx as int,
                        dy as int,
                        j,
                    ),
            ensures
                found_friend ==> friend_on_ray(self@, friend, ox, oy, dx as int, dy as int, k + 1),
                !opponent_on_ray(self@, friend, ox, oy, dx as int, dy as int, k + 1),
                !found_friend ==> !friend_on_ray(
                    self@,
                    friend,
                    ox,
                    oy,
                    dx as int,
                    dy as int,
                    k + 1,
                ),
            decreases
                if dx > 0 {
                    W - cx
                } else if dx < 0 {
                    cx + 1
                } else if dy > 0 {
                    H - cy
                } else {
                    cy + 1
                },
        {
            let tile = self.get(cx, cy);
            if tile == friend {
                found_friend = true;
                break;
            } else if tile == Tile::Empty {
                break;
            } else {
                enemies.push(Position { x: cx, y: cy });
            }
            proof {
                lemma_ray_step(ox, oy, dx as int, dy as int, k + 1);
                k = k + 1;
            }
            cx += dx;
            cy += dy;
        }
        proof {
            lemma_scan_decides(self@, friend, ox, oy, dx as int, dy as int, k);
        }
        let ghost scanned = enemies@;
        if !found_friend {
            enemies.truncate(before_len);
        }
        proof {
            let t = trapped_in_direction(self@, friend, ox, oy, dx as int, dy as int);
            let joined = cells(old(enemies)@) + t;
            assert(scanned.take(before_len as int) == old(enemies)@);
            if found_friend && k >= 1 {
                assert(t.len() == k);
                assert(enemies@ == scanned);
            } else {
                assert(t.len() == 0);
                assert(enemies@ =~= scanned.take(before_len as int));
            }
            assert(cells(enemies@).len() == joined.len());
            assert forall|i: int| 0 <= i < joined.len() implies cells(enemies@)[i] == joined[i] by {
                if i < before_len {
                    assert(scanned.take(before_len as int)[i] == scanned[i]);
                } else {
                    assert(enemies@[before_len + (i - before_len)]@ == ray(
                        ox,
                        oy,
                        dx as int,
                        dy as int,
                        i - before_len + 1,
                    ));
                }
            }
            assert(cells(enemies@) =~= joined);
            assert(enemies@.take(before_len as int) =~= old(enemies)@);
        }
    }

    /// Collects every cell that placing `friend` at `(x, y)` would capture:
    /// direction by direction, rows of offsets from `dy = -1` to `dy = 1` and
    /// within a row from `dx = -1` to `dx = 1`, and within a direction from
    /// the nearest cell outwards.
    pub fn find_trapped_enemies(&self, friend: Tile, x: isize, y: isize) -> (enemies: Vec<Position>)
        requires
            0 <= x < W,
            0 <= y < H,
        ensures
            cells(enemies@) == trapped(self@, friend, x as int, y as int),
    {
        proof {
            use_type_invariant(self);
        }
        let mut enemies: Vec<Position> = Vec::new();
        let mut dy: isize = -1;
        while dy <= 1
            invariant
                W <= isize::MAX,
                H <= isize::MAX,
                0 <= x < W,
                0 <= y < H,
                -1 <= dy <= 2,
                cells(enemies@) == trapped_upto(
                    self@,
                    friend,
                    x as int,
                    y as int,
                    (3 * (dy + 1)) as nat,
                ),
            decreases 2 - dy,
        {
            let mut dx: isize = -1;
            while dx <= 1
                invariant
                    W <= isize::MAX,
                    H <= isize::MAX,
                    0 <= x < W,
                    0 <= y < H,
                    -1 <= dy <= 1,
                    -1 <= dx <= 2,
                    cells(enemies@) == trapped_upto(
                        self@,
                        friend,
                        x as int,
                        y as int,
                        (3 * (dy + 1) + dx + 1) as nat,
                    ),
                decreases 2 - dx,
            {
                let ghost i = 3 * (dy + 1) + dx + 1;
                let ghost before = cells(enemies@);
                assert(offset(i) == (dx as int, dy as int));
                if dx != 0 || dy != 0 {
                    let nx = x + dx;
                    let ny = y + dy;
                    assert((nx as int, ny as int) == ray(
                        x as int,
                        y as int,
                        dx as int,
                        dy as int,
                        1,
                    ));
                    if nx < 0 || nx >= W as isize || ny < 0 || ny >= H as isize {
                        proof {
                            lemma_scan_decides(
                                self@,
                                friend,
                                x as int,
                                y as int,
                                dx as int,
                                dy as int,
                                0,
                            );
                        }
                    } else {
                        let neighbour = self.get(nx, ny);
                        if neighbour == friend || neighbour == Tile::Empty {
                            proof {
                                lemma_scan_decides(
                                    self@,
                                    friend,
                                    x as int,
                                    y as int,
                                    dx as int,
                                    dy as int,
                                    0,
                                );
                            }
                        } else {
                            self.find_trapped_enemies_in_direction(
                                &mut enemies,
                                friend,
                                nx,
                                ny,
                                dx,
                                dy,
                            );
                        }
                    }
                }
                assert(cells(enemies@) =~= before + trapped_by_offset(
                    self@,
                    friend,
                    x as int,
                    y as int,
                    i,
                ));
                dx += 1;
            }
            dy += 1;
        }
        enemies
    }

    /// Places `tile` at `(x, y)`. The move is refused with `AlreadyOccupied`
    /// when the cell is not empty and with `NoCapture` when nothing would be
    /// captured; the board is then left as it was. Otherwise every captured
    /// cell and `(x, y)` itself take `tile`, and the number of captured cells
    /// is returned.
    ///
    /// Players place `Black` or `White`. The scan reads `Empty` like any
    /// other tile, so with `Empty` every piece counts as an opponent and an
    /// empty cell ends a run as a friend.
    pub fn place(&mut self, x: isize, y: isize, tile: Tile) -> (res: Result<usize, LegalityError>)
        requires
            0 <= x < W,
            0 <= y < H,
        ensures
            res matches Ok(n) ==> place_result(old(self)@, tile, x as int, y as int) == Ok::<
                nat,
                LegalityError,
            >(n as nat),
            res matches Err(e) ==> place_result(old(self)@, tile, x as int, y as int) == Err::<
                nat,
                LegalityError,
            >(e),
            final(self)@ == after_place(old(self)@, tile, x as int, y as int),
            res is Ok <==> old(self)@[y as int][x as int] == Tile::Empty && exists|dx: int, dy: int|
                is_direction(dx, dy) && #[trigger] flanks(
                    old(self)@,
                    tile,
                    x as int,
                    y as int,
                    dx,
                    dy,
                ),
            res matches Ok(n) ==> n == changed_cells(old(self)@, final(self)@).remove(
                (x as int, y as int),
            ).len(),
            res is Err ==> final(self)@ == old(self)@,
            tile != Tile::Empty ==> forall|cx: int, cy: int|
                on_board(old(self)@, cx, cy) && old(self)@[cy][cx] != Tile::Empty ==> final(self)@[cy][cx] != Tile::Empty,
    {
        let ghost g = self@;
        proof {
            lemma_legal_iff_flanked(g, tile, x as int, y as int);
            lemma_capture_count(g, tile, x as int, y as int);
            if tile != Tile::Empty {
                lemma_place_keeps_pieces(g, tile, x as int, y as int);
            }
        }
        if self.get(x, y) != Tile::Empty {
            return Err(LegalityError::AlreadyOccupied);
        }
        let enemies = self.find_trapped_enemies(tile, x, y);
        let num_enemies_trapped = enemies.len();
        proof {
            lemma_captured_len(g, tile, x as int, y as int);
            lemma_trapped_is_captured(g, tile, x as int, y as int);
            lemma_captured_are_opponents(g, tile, x as int, y as int);
            assert(cells(enemies@).len() == enemies@.len());
        }
        if num_enemies_trapped == 0 {
            proof {
                captured(g, tile, x as int, y as int).lemma_len0_is_empty();
                assert(captured(g, tile, x as int, y as int) =~= Set::<(int, int)>::empty());
            }
            return Err(LegalityError::NoCapture);
        }
        let mut i: usize = 0;
        proof {
            let none = cells(enemies@).take(0);
            assert forall|r: int| 0 <= r < H implies #[trigger] g[r] =~= painted(g, tile, none)[r] by {
                assert forall|c: int| 0 <= c < W implies g[r][c] == painted(g, tile, none)[r][c] by {
                    assert(!none.contains((c, r)));
                }
            }
            assert(g =~= painted(g, tile, none));
        }
        while i < num_enemies_trapped
            invariant
                0 <= i <= num_enemies_trapped,
                num_enemies_trapped == enemies@.len(),
                g.len() == H,
                forall|r: int| 0 <= r < H ==> (#[trigger] g[r]).len() == W,
                cells(enemies@) == trapped(g, tile, x as int, y as int),
                forall|c: (int, int)|
                    trapped(g, tile, x as int, y as int).contains(c) ==> on_board(g, c.0, c.1),
                self@ == painted(g, tile, cells(enemies@).take(i as int)),
            decreases num_enemies_trapped - i,
        {
            let e = enemies[i];
            proof {
                let c = cells(enemies@)[i as int];
                assert(c == e@);
                assert(trapped(g, tile, x as int, y as int).contains(c));
                lemma_painted_push(g, tile, cells(enemies@).take(i as int), c);
                assert(cells(enemies@).take(i as int).push(c) =~= cells(enemies@).take(i + 1));
            }
            self.set(e.x, e.y, tile);
            i += 1;
        }
        self.set(x, y, tile);
        proof {
            let all = cells(enemies@);
            assert(all.take(num_enemies_trapped as int) =~= all);
            lemma_painted_push(g, tile, all, (x as int, y as int));
            let target = flipped(g, tile, x as int, y as int);
            assert forall|r: int| 0 <= r < H implies #[trigger] self@[r] =~= target[r] by {
                assert forall|c: int| 0 <= c < W implies self@[r][c] == target[r][c] by {
                    if all.push((x as int, y as int)).contains((c, r)) && !(c == x && r == y) {
                        let p = choose|p: int|
                            0 <= p < all.push((x as int, y as int)).len() && all.push(
                                (x as int, y as int),
                            )[p] == (c, r);
                        assert(all[p] == (c, r));
                    }
                    if all.contains((c, r)) {
                        let p = choose|p: int| 0 <= p < all.len() && all[p] == (c, r);
                        assert(all.push((x as int, y as int))[p] == (c, r));
                    }
                    assert(all.push((x as int, y as int))[all.len() as int] == (
                        x as int,
                        y as int,
                    ));
                }
            }
            assert(self@ =~= target);
            assert(captured(g, tile, x as int, y as int).len() != 0);
        }
        Ok(num_enemies_trapped)
    }

    /// Whether `tile` can be placed legally on at least one cell.
    pub fn player_has_legal_move(&self, tile: Tile) -> (found: bool)
        ensures
            found == has_legal_move(self@, tile),
            !found <==> forall|x: int, y: int|
                on_board(self@, x, y) && self@[y][x] == Tile::Empty ==> #[trigger] place_result(
                    self@,
                    tile,
                    x,
                    y,
                ) == Err::<nat, LegalityError>(LegalityError::NoCapture),
    {
        proof {
            use_type_invariant(self);
        }
        let mut y: isize = 0;
        while y < H as isize
            invariant
                W <= isize::MAX,
                H <= isize::MAX,
                0 <= y <= H,
                forall|cx: int, cy: int|
                    0 <= cx < W && 0 <= cy < y ==> !(#[trigger] place_result(
                        self@,
                        tile,
                        cx,
                        cy,
                    ) is Ok),
            decreases H - y,
        {
            let mut x: isize = 0;
            while x < W as isize
                invariant
                    W <= isize::MAX,
                    H <= isize::MAX,
                    0 <= y < H,
                    0 <= x <= W,
                    forall|cx: int, cy: int|
                        0 <= cx < W && 0 <= cy < y ==> !(#[trigger] place_result(
                            self@,
                            tile,
                            cx,
                            cy,
                        ) is Ok),
                    forall|cx: int|
                        0 <= cx < x ==> !(#[trigger] place_result(self@, tile, cx, y as int) is Ok),
                decreases W - x,
            {
                if self.get(x, y) == Tile::Empty {
                    let enemies = self.find_trapped_enemies(tile, x, y);
                    proof {
                        lemma_captured_len(self@, tile, x as int, y as int);
                        assert(cells(enemies@).len() == enemies@.len());
                        if enemies@.len() == 0 {
                            captured(self@, tile, x as int, y as int).lemma_len0_is_empty();
                            assert(captured(self@, tile, x as int, y as int) =~= Set::<
                                (int, int),
                            >::empty());
                        }
                    }
                    if enemies.len() > 0 {
                        proof {
                            assert(on_board(self@, x as int, y as int));
                            assert(place_result(self@, tile, x as int, y as int) is Ok);
                            lemma_no_legal_move(self@, tile);
                        }
                        return true;
                    }
                }
                x += 1;
            }
            y += 1;
        }
        proof {
            lemma_no_legal_move(self@, tile);
        }
        false
    }
}

} // verus!
