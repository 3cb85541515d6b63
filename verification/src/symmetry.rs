//! Mirror images of boards, and the law that captures mirror with them.

use crate::board::Tile;
use crate::capture_lemmas::lemma_captured_len;
use crate::rules::{
    after_place, captured, flank_at, flipped, friend_on_ray, is_direction, on_board,
    opponent_on_ray, place_result, ray, rectangular,
};
use vstd::prelude::*;
use vstd::relations::injective_on;
use vstd::set_lib::lemma_map_size;

verus! {

/// The image of cell `c` on a board of `w` columns and `h` rows when the
/// columns are reversed (`across_columns`), the rows are reversed
/// (`across_rows`), or both.
pub open spec fn mirror_cell(
    w: int,
    h: int,
    across_columns: bool,
    across_rows: bool,
    c: (int, int),
) -> (int, int) {
    (
        if across_columns {
            w - 1 - c.0
        } else {
            c.0
        },
        if across_rows {
            h - 1 - c.1
        } else {
            c.1
        },
    )
}

/// The image of an offset under the same mirror.
pub open spec fn mirror_offset(across_columns: bool, across_rows: bool, d: (int, int)) -> (int, int) {
    (
        if across_columns {
            -d.0
        } else {
            d.0
        },
        if across_rows {
            -d.1
        } else {
            d.1
        },
    )
}

/// The mirror image of a grid of `w` columns and `h` rows: each cell shows
/// what `g` holds at the cell's own mirror image.
pub open spec fn mirror(
    g: Seq<Seq<Tile>>,
    w: int,
    h: int,
    across_columns: bool,
    across_rows: bool,
) -> Seq<Seq<Tile>> {
    Seq::new(
        h as nat,
        |r: int|
            Seq::new(
                w as nat,
                |c: int|
                    {
                        let s = mirror_cell(w, h, across_columns, across_rows, (c, r));
                        g[s.1][s.0]
                    },
            ),
    )
}

/// A ray on the mirrored board is the mirror image of the ray on the board
/// itself, and shows the same tiles.
proof fn lemma_mirror_ray(
    g: Seq<Seq<Tile>>,
    w: int,
    h: int,
    fx: bool,
    fy: bool,
    friend: Tile,
    x: int,
    y: int,
    dx: int,
    dy: int,
    k: int,
)
    requires
        rectangular(g, w, h),
    ensures
        ({
            let o = mirror_cell(w, h, fx, fy, (x, y));
            let d = mirror_offset(fx, fy, (dx, dy));
            let m = mirror(g, w, h, fx, fy);
            &&& ray(o.0, o.1, d.0, d.1, k) == mirror_cell(w, h, fx, fy, ray(x, y, dx, dy, k))
            &&& opponent_on_ray(m, friend, o.0, o.1, d.0, d.1, k) == opponent_on_ray(
                g,
                friend,
                x,
                y,
                dx,
                dy,
                k,
            )
            &&& friend_on_ray(m, friend, o.0, o.1, d.0, d.1, k) == friend_on_ray(
                g,
                friend,
                x,
                y,
                dx,
                dy,
                k,
            )
        }),
{
    assert(k * (-dx) == -(k * dx)) by (nonlinear_arith);
    assert(k * (-dy) == -(k * dy)) by (nonlinear_arith);
    let c = ray(x, y, dx, dy, k);
    let s = mirror_cell(w, h, fx, fy, c);
    assert(mirror_cell(w, h, fx, fy, s) == c);
    if on_board(g, c.0, c.1) {
        assert(g[c.1].len() == w);
        assert(on_board(mirror(g, w, h, fx, fy), s.0, s.1));
    }
}

/// A direction flanks on the mirrored board exactly when its mirror image
/// flanks on the board itself, with a run of the same length.
proof fn lemma_mirror_flank(
    g: Seq<Seq<Tile>>,
    w: int,
    h: int,
    fx: bool,
    fy: bool,
    friend: Tile,
    x: int,
    y: int,
    dx: int,
    dy: int,
    n: int,
)
    requires
        rectangular(g, w, h),
    ensures
        ({
            let o = mirror_cell(w, h, fx, fy, (x, y));
            let d = mirror_offset(fx, fy, (dx, dy));
            flank_at(mirror(g, w, h, fx, fy), friend, o.0, o.1, d.0, d.1, n) == flank_at(
                g,
                friend,
                x,
                y,
                dx,
                dy,
                n,
            )
        }),
{
    let o = mirror_cell(w, h, fx, fy, (x, y));
    let d = mirror_offset(fx, fy, (dx, dy));
    let m = mirror(g, w, h, fx, fy);
    lemma_mirror_ray(g, w, h, fx, fy, friend, x, y, dx, dy, n + 1);
    if flank_at(g, friend, x, y, dx, dy, n) {
        assert forall|k: int| 1 <= k <= n implies #[trigger] opponent_on_ray(
            m,
            friend,
            o.0,
            o.1,
            d.0,
            d.1,
            k,
        ) by {
            lemma_mirror_ray(g, w, h, fx, fy, friend, x, y, dx, dy, k);
            assert(opponent_on_ray(g, friend, x, y, dx, dy, k));
        }
    }
    if flank_at(m, friend, o.0, o.1, d.0, d.1, n) {
        assert forall|k: int| 1 <= k <= n implies #[trigger] opponent_on_ray(
            g,
            friend,
            x,
            y,
            dx,
            dy,
            k,
        ) by {
            lemma_mirror_ray(g, w, h, fx, fy, friend, x, y, dx, dy, k);
            assert(opponent_on_ray(m, friend, o.0, o.1, d.0, d.1, k));
        }
    }
}

/// A cell is captured on the board exactly when its mirror image is
/// captured by the mirrored placement on the mirrored board.
proof fn lemma_mirror_captured_cell(
    g: Seq<Seq<Tile>>,
    w: int,
    h: int,
    fx: bool,
    fy: bool,
    friend: Tile,
    x: int,
    y: int,
    c: (int, int),
)
    requires
        rectangular(g, w, h),
    ensures
        ({
            let o = mirror_cell(w, h, fx, fy, (x, y));
            captured(mirror(g, w, h, fx, fy), friend, o.0, o.1).contains(
                mirror_cell(w, h, fx, fy, c),
            ) == captured(g, friend, x, y).contains(c)
        }),
{
    let o = mirror_cell(w, h, fx, fy, (x, y));
    let m = mirror(g, w, h, fx, fy);
    let s = mirror_cell(w, h, fx, fy, c);
    if captured(g, friend, x, y).contains(c) {
        let (dx, dy, n, k) = choose|dx: int, dy: int, n: int, k: int|
            is_direction(dx, dy) && #[trigger] flank_at(g, friend, x, y, dx, dy, n) && 1 <= k <= n
                && c == #[trigger] ray(x, y, dx, dy, k);
        let d = mirror_offset(fx, fy, (dx, dy));
        lemma_mirror_flank(g, w, h, fx, fy, friend, x, y, dx, dy, n);
        lemma_mirror_ray(g, w, h, fx, fy, friend, x, y, dx, dy, k);
        assert(is_direction(d.0, d.1) && flank_at(m, friend, o.0, o.1, d.0, d.1, n) && 1 <= k <= n
            && s == ray(o.0, o.1, d.0, d.1, k));
    }
    if captured(m, friend, o.0, o.1).contains(s) {
        let (ex, ey, n, k) = choose|ex: int, ey: int, n: int, k: int|
            is_direction(ex, ey) && #[trigger] flank_at(m, friend, o.0, o.1, ex, ey, n) && 1 <= k
                <= n && s == #[trigger] ray(o.0, o.1, ex, ey, k);
        let d = mirror_offset(fx, fy, (ex, ey));
        assert(mirror_offset(fx, fy, d) == (ex, ey));
        lemma_mirror_flank(g, w, h, fx, fy, friend, x, y, d.0, d.1, n);
        lemma_mirror_ray(g, w, h, fx, fy, friend, x, y, d.0, d.1, k);
        assert(mirror_cell(w, h, fx, fy, s) == c);
        assert(mirror_cell(w, h, fx, fy, ray(x, y, d.0, d.1, k)) == s);
        assert(c == ray(x, y, d.0, d.1, k));
        assert(is_direction(d.0, d.1) && flank_at(g, friend, x, y, d.0, d.1, n) && 1 <= k <= n && c
            == ray(x, y, d.0, d.1, k));
    }
}

/// Mirroring the board and the move mirrors the capture set: the mirrored
/// placement on the mirrored board captures exactly the mirror images of the
/// cells that the placement captures on the board itself. The move is then
/// legal on both boards or on neither, captures as many cells, and leaves
/// boards that are mirror images of each other again. This holds for a
/// mirror across the columns, across the rows, and across both.
pub proof fn lemma_mirrored_placement(
    g: Seq<Seq<Tile>>,
    w: int,
    h: int,
    across_columns: bool,
    across_rows: bool,
    friend: Tile,
    x: int,
    y: int,
)
    requires
        rectangular(g, w, h),
        on_board(g, x, y),
    ensures
        ({
            let o = mirror_cell(w, h, across_columns, across_rows, (x, y));
            let m = mirror(g, w, h, across_columns, across_rows);
            &&& captured(m, friend, o.0, o.1) == captured(g, friend, x, y).map(
                |c: (int, int)| mirror_cell(w, h, across_columns, across_rows, c),
            )
            &&& place_result(m, friend, o.0, o.1) == place_result(g, friend, x, y)
            &&& after_place(m, friend, o.0, o.1) == mirror(
                after_place(g, friend, x, y),
                w,
                h,
                across_columns,
                across_rows,
            )
        }),
{
    let fx = across_columns;
    let fy = across_rows;
    let o = mirror_cell(w, h, fx, fy, (x, y));
    let m = mirror(g, w, h, fx, fy);
    let f = |c: (int, int)| mirror_cell(w, h, fx, fy, c);
    let cap = captured(g, friend, x, y);
    let mcap = captured(m, friend, o.0, o.1);
    assert forall|s: (int, int)| mcap.contains(s) == cap.map(f).contains(s) by {
        let c = mirror_cell(w, h, fx, fy, s);
        assert(mirror_cell(w, h, fx, fy, c) == s);
        lemma_mirror_captured_cell(g, w, h, fx, fy, friend, x, y, c);
        if mcap.contains(s) {
            assert(cap.contains(c) && s == f(c));
        }
        if cap.map(f).contains(s) {
            let a = choose|a: (int, int)| cap.contains(a) && s == f(a);
            assert(mirror_cell(w, h, fx, fy, f(a)) == a);
        }
    }
    assert(mcap =~= cap.map(f));
    lemma_captured_len(g, friend, x, y);
    assert(injective_on(f, cap)) by {
        assert forall|a: (int, int), b: (int, int)|
            cap.contains(a) && cap.contains(b) && #[trigger] f(a) == #[trigger] f(b) implies a
            == b by {
            assert(mirror_cell(w, h, fx, fy, f(a)) == a);
            assert(mirror_cell(w, h, fx, fy, f(b)) == b);
        }
    }
    lemma_map_size(cap, mcap, f);
    assert(g[y].len() == w);
    assert(m[o.1][o.0] == g[y][x]);
    if cap == Set::<(int, int)>::empty() {
        assert(mcap =~= Set::<(int, int)>::empty());
    }
    if mcap == Set::<(int, int)>::empty() {
        assert(cap.len() == 0);
        cap.lemma_len0_is_empty();
        assert(cap =~= Set::<(int, int)>::empty());
    }
    assert(place_result(m, friend, o.0, o.1) == place_result(g, friend, x, y));
    if place_result(g, friend, x, y) is Ok {
        let left = flipped(m, friend, o.0, o.1);
        let right = mirror(flipped(g, friend, x, y), w, h, fx, fy);
        assert forall|r: int| 0 <= r < h implies #[trigger] left[r] =~= right[r] by {
            assert forall|c: int| 0 <= c < w implies left[r][c] == right[r][c] by {
                let s = mirror_cell(w, h, fx, fy, (c, r));
                assert(mirror_cell(w, h, fx, fy, s) == (c, r));
                lemma_mirror_captured_cell(g, w, h, fx, fy, friend, x, y, s);
                assert(g[s.1].len() == w);
            }
        }
        assert(left =~= right);
    }
}

} // verus!
