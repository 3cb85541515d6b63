//! Facts about scans, flanks and capture sets that the board's code and the
//! laws of the game are proved from.

use crate::board::Tile;
use crate::rules::{
    captured, flank_at, flank_len, flanks, friend_on_ray, is_direction, is_opponent, offset,
    on_board, opponent_on_ray, ray, trapped, trapped_by_offset, trapped_in_direction, trapped_upto,
};
use vstd::prelude::*;

verus! {

/// One more step along a ray moves by the direction's offset.
pub proof fn lemma_ray_step(x: int, y: int, dx: int, dy: int, k: int)
    ensures
        ray(x, y, dx, dy, k + 1) == (ray(x, y, dx, dy, k).0 + dx, ray(x, y, dx, dy, k).1 + dy),
{
    assert((k + 1) * dx == k * dx + dx) by (nonlinear_arith);
    assert((k + 1) * dy == k * dy + dy) by (nonlinear_arith);
}

/// A scan that saw `m` opponents and then something that is no opponent
/// settles the direction: it flanks exactly when at least one opponent was
/// seen and the scan stopped at a friend, and it then traps those `m` cells.
pub proof fn lemma_scan_decides(
    g: Seq<Seq<Tile>>,
    friend: Tile,
    x: int,
    y: int,
    dx: int,
    dy: int,
    m: int,
)
    requires
        m >= 0,
        forall|k: int| 1 <= k <= m ==> #[trigger] opponent_on_ray(g, friend, x, y, dx, dy, k),
        !opponent_on_ray(g, friend, x, y, dx, dy, m + 1),
    ensures
        flanks(g, friend, x, y, dx, dy) <==> m >= 1 && friend_on_ray(g, friend, x, y, dx, dy, m + 1),
        flanks(g, friend, x, y, dx, dy) ==> flank_len(g, friend, x, y, dx, dy) == m,
        forall|n: int| flank_at(g, friend, x, y, dx, dy, n) ==> n == m,
{
    assert forall|n: int| flank_at(g, friend, x, y, dx, dy, n) implies n == m by {
        if n < m {
            assert(opponent_on_ray(g, friend, x, y, dx, dy, n + 1));
        } else if n > m {
            assert(opponent_on_ray(g, friend, x, y, dx, dy, m + 1));
        }
    }
    if m >= 1 && friend_on_ray(g, friend, x, y, dx, dy, m + 1) {
        assert(flank_at(g, friend, x, y, dx, dy, m));
    }
}

/// Along a direction the ray moves each coordinate by `k`, by `-k`, or not
/// at all.
pub proof fn lemma_ray_coordinates(x: int, y: int, dx: int, dy: int, k: int)
    requires
        -1 <= dx <= 1,
        -1 <= dy <= 1,
    ensures
        ray(x, y, dx, dy, k).0 == if dx == 1 {
            x + k
        } else if dx == -1 {
            x - k
        } else {
            x
        },
        ray(x, y, dx, dy, k).1 == if dy == 1 {
            y + k
        } else if dy == -1 {
            y - k
        } else {
            y
        },
{
    assert(k * 1 == k && k * 0 == 0 && k * (-1) == -k) by (nonlinear_arith);
}

/// The sign of an integer: -1, 0 or 1.
pub open spec fn sign(v: int) -> int {
    if v > 0 {
        1
    } else if v < 0 {
        -1
    } else {
        0
    }
}

/// A cell on a ray tells which direction the ray has and how many steps
/// away the cell is.
pub proof fn lemma_ray_determines_direction(x: int, y: int, dx: int, dy: int, k: int)
    requires
        is_direction(dx, dy),
        k >= 1,
    ensures
        sign(ray(x, y, dx, dy, k).0 - x) == dx,
        sign(ray(x, y, dx, dy, k).1 - y) == dy,
        ray(x, y, dx, dy, k).0 - x == k * dx,
        ray(x, y, dx, dy, k).1 - y == k * dy,
        dx != 0 ==> k == (ray(x, y, dx, dy, k).0 - x) * dx,
        dy != 0 ==> k == (ray(x, y, dx, dy, k).1 - y) * dy,
{
    lemma_ray_coordinates(x, y, dx, dy, k);
    assert(k * 1 == k && k * 0 == 0 && k * (-1) == -k && (-k) * (-1) == k) by (nonlinear_arith);
}

/// The cells trapped along one direction are those that lie within a
/// flanked run of that direction.
pub proof fn lemma_trapped_in_direction_cells(
    g: Seq<Seq<Tile>>,
    friend: Tile,
    x: int,
    y: int,
    dx: int,
    dy: int,
)
    ensures
        forall|c: (int, int)|
            trapped_in_direction(g, friend, x, y, dx, dy).contains(c) <==> exists|n: int, k: int|
                #[trigger] flank_at(g, friend, x, y, dx, dy, n) && 1 <= k <= n && c == #[trigger] ray(
                    x,
                    y,
                    dx,
                    dy,
                    k,
                ),
{
    let t = trapped_in_direction(g, friend, x, y, dx, dy);
    if flanks(g, friend, x, y, dx, dy) {
        let m = flank_len(g, friend, x, y, dx, dy);
        assert(flank_at(g, friend, x, y, dx, dy, m));
        lemma_scan_decides(g, friend, x, y, dx, dy, m);
        assert forall|c: (int, int)| t.contains(c) implies exists|n: int, k: int|
            #[trigger] flank_at(g, friend, x, y, dx, dy, n) && 1 <= k <= n && c == #[trigger] ray(
                x,
                y,
                dx,
                dy,
                k,
            ) by {
            let i = choose|i: int| 0 <= i < t.len() && t[i] == c;
            assert(flank_at(g, friend, x, y, dx, dy, m) && 1 <= i + 1 <= m && c == ray(
                x,
                y,
                dx,
                dy,
                i + 1,
            ));
        }
        assert forall|c: (int, int)|
            (exists|n: int, k: int|
                #[trigger] flank_at(g, friend, x, y, dx, dy, n) && 1 <= k <= n && c == #[trigger] ray(
                    x,
                    y,
                    dx,
                    dy,
                    k,
                )) implies t.contains(c) by {
            let (n, k) = choose|n: int, k: int|
                #[trigger] flank_at(g, friend, x, y, dx, dy, n) && 1 <= k <= n && c == #[trigger] ray(
                    x,
                    y,
                    dx,
                    dy,
                    k,
                );
            assert(n == m);
            assert(t[k - 1] == c);
        }
    }
}

/// A cell is among those trapped along the first `i` offsets exactly when
/// one of these offsets traps it.
pub proof fn lemma_trapped_upto_cells(g: Seq<Seq<Tile>>, friend: Tile, x: int, y: int, i: nat)
    ensures
        forall|c: (int, int)|
            trapped_upto(g, friend, x, y, i).contains(c) <==> exists|j: int|
                0 <= j < i && (#[trigger] trapped_by_offset(g, friend, x, y, j)).contains(c),
    decreases i,
{
    if i > 0 {
        let head = trapped_upto(g, friend, x, y, (i - 1) as nat);
        let last = trapped_by_offset(g, friend, x, y, i - 1);
        lemma_trapped_upto_cells(g, friend, x, y, (i - 1) as nat);
        assert forall|c: (int, int)| (head + last).contains(c) implies exists|j: int|
            0 <= j < i && (#[trigger] trapped_by_offset(g, friend, x, y, j)).contains(c) by {
            let p = choose|p: int| 0 <= p < (head + last).len() && (head + last)[p] == c;
            if p < head.len() {
                assert(head[p] == c);
                assert(head.contains(c));
            } else {
                assert(last[p - head.len()] == c);
                assert(trapped_by_offset(g, friend, x, y, i - 1).contains(c));
            }
        }
        assert forall|c: (int, int)|
            (exists|j: int|
                0 <= j < i && (#[trigger] trapped_by_offset(g, friend, x, y, j)).contains(
                    c,
                )) implies (head + last).contains(c) by {
            let j = choose|j: int|
                0 <= j < i && (#[trigger] trapped_by_offset(g, friend, x, y, j)).contains(c);
            if j == i - 1 {
                let p = choose|p: int| 0 <= p < last.len() && last[p] == c;
                assert((head + last)[head.len() + p] == c);
            } else {
                assert(head.contains(c));
                let p = choose|p: int| 0 <= p < head.len() && head[p] == c;
                assert((head + last)[p] == c);
            }
        }
    }
}

/// The list of trapped cells holds exactly the capture set.
pub proof fn lemma_trapped_is_captured(g: Seq<Seq<Tile>>, friend: Tile, x: int, y: int)
    ensures
        trapped(g, friend, x, y).to_set() == captured(g, friend, x, y),
        forall|c: (int, int)|
            trapped(g, friend, x, y).contains(c) <==> captured(g, friend, x, y).contains(c),
{
    let t = trapped(g, friend, x, y);
    lemma_trapped_upto_cells(g, friend, x, y, 9);
    assert forall|c: (int, int)| t.contains(c) implies captured(g, friend, x, y).contains(c) by {
        let j = choose|j: int|
            0 <= j < 9 && (#[trigger] trapped_by_offset(g, friend, x, y, j)).contains(c);
        let d = offset(j);
        lemma_trapped_in_direction_cells(g, friend, x, y, d.0, d.1);
        let (n, k) = choose|n: int, k: int|
            #[trigger] flank_at(g, friend, x, y, d.0, d.1, n) && 1 <= k <= n && c == #[trigger] ray(
                x,
                y,
                d.0,
                d.1,
                k,
            );
        assert(is_direction(d.0, d.1) && flank_at(g, friend, x, y, d.0, d.1, n) && 1 <= k <= n && c
            == ray(x, y, d.0, d.1, k));
    }
    assert forall|c: (int, int)| captured(g, friend, x, y).contains(c) implies t.contains(c) by {
        let (dx, dy, n, k) = choose|dx: int, dy: int, n: int, k: int|
            is_direction(dx, dy) && #[trigger] flank_at(g, friend, x, y, dx, dy, n) && 1 <= k <= n
                && c == #[trigger] ray(x, y, dx, dy, k);
        let j = 3 * (dy + 1) + dx + 1;
        assert(offset(j) == (dx, dy));
        lemma_trapped_in_direction_cells(g, friend, x, y, dx, dy);
        assert(trapped_by_offset(g, friend, x, y, j).contains(c));
    }
    assert(t.to_set() =~= captured(g, friend, x, y));
}

/// Every captured cell is on the board and held an opponent.
pub proof fn lemma_captured_are_opponents(g: Seq<Seq<Tile>>, friend: Tile, x: int, y: int)
    ensures
        forall|c: (int, int)| #[trigger]
            captured(g, friend, x, y).contains(c) ==> on_board(g, c.0, c.1) && is_opponent(
                g[c.1][c.0],
                friend,
            ) && c != (x, y),
{
    assert forall|c: (int, int)| #[trigger]
        captured(g, friend, x, y).contains(c) implies on_board(g, c.0, c.1) && is_opponent(
        g[c.1][c.0],
        friend,
    ) && c != (x, y) by {
        let (dx, dy, n, k) = choose|dx: int, dy: int, n: int, k: int|
            is_direction(dx, dy) && #[trigger] flank_at(g, friend, x, y, dx, dy, n) && 1 <= k <= n
                && c == #[trigger] ray(x, y, dx, dy, k);
        assert(opponent_on_ray(g, friend, x, y, dx, dy, k));
        lemma_ray_determines_direction(x, y, dx, dy, k);
    }
}

/// Every cell that an offset traps lies at least one step away along that
/// offset, which is then a direction.
pub proof fn lemma_trapped_by_offset_on_ray(
    g: Seq<Seq<Tile>>,
    friend: Tile,
    x: int,
    y: int,
    j: int,
    c: (int, int),
)
    requires
        trapped_by_offset(g, friend, x, y, j).contains(c),
    ensures
        is_direction(offset(j).0, offset(j).1),
        sign(c.0 - x) == offset(j).0,
        sign(c.1 - y) == offset(j).1,
{
    let d = offset(j);
    let t = trapped_by_offset(g, friend, x, y, j);
    let p = choose|p: int| 0 <= p < t.len() && t[p] == c;
    assert(c == ray(x, y, d.0, d.1, p + 1));
    lemma_ray_determines_direction(x, y, d.0, d.1, p + 1);
}

/// No cell is listed twice among those trapped along the first `i` offsets.
pub proof fn lemma_trapped_upto_no_duplicates(
    g: Seq<Seq<Tile>>,
    friend: Tile,
    x: int,
    y: int,
    i: nat,
)
    requires
        i <= 9,
    ensures
        trapped_upto(g, friend, x, y, i).no_duplicates(),
    decreases i,
{
    if i > 0 {
        let head = trapped_upto(g, friend, x, y, (i - 1) as nat);
        let last = trapped_by_offset(g, friend, x, y, i - 1);
        let d = offset(i - 1);
        let all = head + last;
        lemma_trapped_upto_no_duplicates(g, friend, x, y, (i - 1) as nat);
        lemma_trapped_upto_cells(g, friend, x, y, (i - 1) as nat);
        assert forall|p: int, q: int| 0 <= p < all.len() && 0 <= q < all.len() && p != q implies all[p]
            != all[q] by {
            if p < head.len() && q < head.len() {
                assert(head[p] != head[q]);
            } else if p >= head.len() && q >= head.len() {
                let a = p - head.len();
                let b = q - head.len();
                assert(last[a] == ray(x, y, d.0, d.1, a + 1));
                assert(last[b] == ray(x, y, d.0, d.1, b + 1));
                lemma_ray_determines_direction(x, y, d.0, d.1, a + 1);
                lemma_ray_determines_direction(x, y, d.0, d.1, b + 1);
            } else {
                let (lo, hi) = if p < q {
                    (p, q)
                } else {
                    (q, p)
                };
                let c = head[lo];
                assert(head.contains(c));
                let j = choose|j: int|
                    0 <= j < i - 1 && (#[trigger] trapped_by_offset(g, friend, x, y, j)).contains(c);
                lemma_trapped_by_offset_on_ray(g, friend, x, y, j, c);
                let e = last[hi - head.len()];
                assert(last.contains(e));
                lemma_trapped_by_offset_on_ray(g, friend, x, y, i - 1, e);
                assert(offset(j) != offset(i - 1));
            }
        }
    }
}

/// The capture set is finite and has as many cells as the list of trapped
/// cells has entries.
pub proof fn lemma_captured_len(g: Seq<Seq<Tile>>, friend: Tile, x: int, y: int)
    ensures
        captured(g, friend, x, y).finite(),
        captured(g, friend, x, y).len() == trapped(g, friend, x, y).len(),
        trapped(g, friend, x, y).no_duplicates(),
{
    lemma_trapped_upto_no_duplicates(g, friend, x, y, 9);
    lemma_trapped_is_captured(g, friend, x, y);
    trapped(g, friend, x, y).unique_seq_to_set();
    vstd::seq_lib::seq_to_set_is_finite(trapped(g, friend, x, y));
}

} // verus!
