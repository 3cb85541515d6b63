//! The rules of the game as mathematics: which cells a placement captures,
//! when a placement is legal, and what the board looks like afterwards.
//!
//! A grid is a sequence of rows; `g[y][x]` is the tile in column `x` of row `y`.
//! Cells are written as pairs `(x, y)` of mathematical integers.

use crate::board::{LegalityError, Tile};
use vstd::prelude::*;

verus! {

/// `(x, y)` names a cell of `g`.
pub open spec fn on_board(g: Seq<Seq<Tile>>, x: int, y: int) -> bool {
    0 <= y < g.len() && 0 <= x < g[y].len()
}

/// `g` has `h` rows of `w` tiles each.
pub open spec fn rectangular(g: Seq<Seq<Tile>>, w: int, h: int) -> bool {
    &&& g.len() == h
    &&& forall|y: int| 0 <= y < h ==> (#[trigger] g[y]).len() == w
}

/// `(dx, dy)` is one of the eight compass offsets.
pub open spec fn is_direction(dx: int, dy: int) -> bool {
    -1 <= dx <= 1 && -1 <= dy <= 1 && !(dx == 0 && dy == 0)
}

/// `t` belongs to somebody other than the owner of `friend`.
pub open spec fn is_opponent(t: Tile, friend: Tile) -> bool {
    t != friend && t != Tile::Empty
}

/// The cell reached from `(x, y)` after `k` steps of `(dx, dy)`.
pub open spec fn ray(x: int, y: int, dx: int, dy: int, k: int) -> (int, int) {
    (x + k * dx, y + k * dy)
}

/// The `k`-th cell of the ray is on the board and holds an opponent of `friend`.
pub open spec fn opponent_on_ray(
    g: Seq<Seq<Tile>>,
    friend: Tile,
    x: int,
    y: int,
    dx: int,
    dy: int,
    k: int,
) -> bool {
    let c = ray(x, y, dx, dy, k);
    on_board(g, c.0, c.1) && is_opponent(g[c.1][c.0], friend)
}

/// The `k`-th cell of the ray is on the board and holds `friend`.
pub open spec fn friend_on_ray(
    g: Seq<Seq<Tile>>,
    friend: Tile,
    x: int,
    y: int,
    dx: int,
    dy: int,
    k: int,
) -> bool {
    let c = ray(x, y, dx, dy, k);
    on_board(g, c.0, c.1) && g[c.1][c.0] == friend
}

/// The flank condition with its witness: the first `n >= 1` cells of the ray
/// from `(x, y)` hold opponents and the cell right after them holds `friend`.
pub open spec fn flank_at(
    g: Seq<Seq<Tile>>,
    friend: Tile,
    x: int,
    y: int,
    dx: int,
    dy: int,
    n: int,
) -> bool {
    &&& n >= 1
    &&& forall|k: int| 1 <= k <= n ==> #[trigger] opponent_on_ray(g, friend, x, y, dx, dy, k)
    &&& friend_on_ray(g, friend, x, y, dx, dy, n + 1)
}

/// `(dx, dy)` is a capture direction for `friend` placed at `(x, y)`.
pub open spec fn flanks(g: Seq<Seq<Tile>>, friend: Tile, x: int, y: int, dx: int, dy: int) -> bool {
    exists|n: int| flank_at(g, friend, x, y, dx, dy, n)
}

/// The number of opponents trapped along a capture direction.
pub open spec fn flank_len(
    g: Seq<Seq<Tile>>,
    friend: Tile,
    x: int,
    y: int,
    dx: int,
    dy: int,
) -> int {
    choose|n: int| flank_at(g, friend, x, y, dx, dy, n)
}

/// The cells trapped along one direction, nearest first; empty when the
/// direction does not flank.
pub open spec fn trapped_in_direction(
    g: Seq<Seq<Tile>>,
    friend: Tile,
    x: int,
    y: int,
    dx: int,
    dy: int,
) -> Seq<(int, int)> {
    if flanks(g, friend, x, y, dx, dy) {
        Seq::new(flank_len(g, friend, x, y, dx, dy) as nat, |i: int| ray(x, y, dx, dy, i + 1))
    } else {
        Seq::empty()
    }
}

/// The `i`-th offset in row-major order over `dy` then `dx`, both running
/// from -1 to 1; `i` ranges over `0..9` and `offset(4)` is `(0, 0)`.
pub open spec fn offset(i: int) -> (int, int) {
    (i % 3 - 1, i / 3 - 1)
}

/// What the `i`-th offset contributes: the cells trapped along it, and
/// nothing for the centre offset, which is no direction.
pub open spec fn trapped_by_offset(g: Seq<Seq<Tile>>, friend: Tile, x: int, y: int, i: int) -> Seq<
    (int, int),
> {
    let d = offset(i);
    if is_direction(d.0, d.1) {
        trapped_in_direction(g, friend, x, y, d.0, d.1)
    } else {
        Seq::empty()
    }
}

/// The cells trapped along the first `i` offsets, in that order.
pub open spec fn trapped_upto(g: Seq<Seq<Tile>>, friend: Tile, x: int, y: int, i: nat) -> Seq<
    (int, int),
>
    decreases i,
{
    if i == 0 {
        Seq::empty()
    } else {
        trapped_upto(g, friend, x, y, (i - 1) as nat) + trapped_by_offset(
            g,
            friend,
            x,
            y,
            i - 1,
        )
    }
}

/// Every cell that placing `friend` at `(x, y)` traps, direction by direction.
pub open spec fn trapped(g: Seq<Seq<Tile>>, friend: Tile, x: int, y: int) -> Seq<(int, int)> {
    trapped_upto(g, friend, x, y, 9)
}

/// The capture set: the cells that lie strictly between `(x, y)` and a
/// flanking friend along some direction.
pub open spec fn captured(g: Seq<Seq<Tile>>, friend: Tile, x: int, y: int) -> Set<(int, int)> {
    Set::new(
        |c: (int, int)|
            exists|dx: int, dy: int, n: int, k: int|
                is_direction(dx, dy) && #[trigger] flank_at(g, friend, x, y, dx, dy, n) && 1 <= k
                    <= n && c == #[trigger] ray(x, y, dx, dy, k),
    )
}

/// The outcome of trying to place `friend` at `(x, y)`: the number of
/// captured cells, or the reason why the move is illegal.
pub open spec fn place_result(g: Seq<Seq<Tile>>, friend: Tile, x: int, y: int) -> Result<
    nat,
    LegalityError,
> {
    if g[y][x] != Tile::Empty {
        Err(LegalityError::AlreadyOccupied)
    } else if captured(g, friend, x, y) == Set::<(int, int)>::empty() {
        Err(LegalityError::NoCapture)
    } else {
        Ok(captured(g, friend, x, y).len())
    }
}

/// The grid in which `(x, y)` and every captured cell hold `friend` and all
/// other cells are as in `g`.
pub open spec fn flipped(g: Seq<Seq<Tile>>, friend: Tile, x: int, y: int) -> Seq<Seq<Tile>> {
    Seq::new(
        g.len(),
        |r: int|
            Seq::new(
                g[r].len(),
                |c: int|
                    if (c == x && r == y) || captured(g, friend, x, y).contains((c, r)) {
                        friend
                    } else {
                        g[r][c]
                    },
            ),
    )
}

/// The grid after trying to place `friend` at `(x, y)`: flipped if the move
/// is legal, untouched if it is not.
pub open spec fn after_place(g: Seq<Seq<Tile>>, friend: Tile, x: int, y: int) -> Seq<Seq<Tile>> {
    if place_result(g, friend, x, y) is Ok {
        flipped(g, friend, x, y)
    } else {
        g
    }
}

/// `friend` has at least one legal placement somewhere on `g`.
pub open spec fn has_legal_move(g: Seq<Seq<Tile>>, friend: Tile) -> bool {
    exists|x: int, y: int| on_board(g, x, y) && #[trigger] place_result(g, friend, x, y) is Ok
}

} // verus!
