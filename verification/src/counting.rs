//! Counting the pieces on a board, and how a placement changes the counts.

use crate::board::Tile;
use crate::capture_lemmas::{lemma_captured_are_opponents, lemma_captured_len};
use crate::rules::{after_place, captured, flipped, on_board, place_result, rectangular};
use vstd::prelude::*;
use vstd::relations::injective_on;
use vstd::set_lib::{
    lemma_int_range, lemma_len_subset, lemma_map_size, lemma_set_disjoint_lens, set_int_range,
};

verus! {

/// The cells of `g` that hold `t`.
pub open spec fn cells_holding(g: Seq<Seq<Tile>>, t: Tile) -> Set<(int, int)> {
    Set::new(|c: (int, int)| on_board(g, c.0, c.1) && g[c.1][c.0] == t)
}

/// How many cells of `g` hold `t`.
pub open spec fn count(g: Seq<Seq<Tile>>, t: Tile) -> nat {
    cells_holding(g, t).len()
}

/// All cells of a board of `w` columns and `h` rows.
pub open spec fn board_cells(w: int, h: int) -> Set<(int, int)> {
    Set::new(|c: (int, int)| 0 <= c.0 < w && 0 <= c.1 < h)
}

/// The piece of the other player; nothing stands against an empty cell.
pub open spec fn rival(t: Tile) -> Tile {
    match t {
        Tile::Black => Tile::White,
        Tile::White => Tile::Black,
        Tile::Empty => Tile::Empty,
    }
}

/// A board of `w` columns and `h` rows has `w * h` cells.
pub proof fn lemma_board_cells(w: int, h: int)
    requires
        0 <= w,
        0 <= h,
    ensures
        board_cells(w, h).finite(),
        board_cells(w, h).len() == w * h,
    decreases h,
{
    if h == 0 {
        assert(board_cells(w, h) =~= Set::<(int, int)>::empty());
        assert(w * 0 == 0) by (nonlinear_arith);
    } else {
        lemma_board_cells(w, h - 1);
        lemma_int_range(0, w);
        let in_row = |x: int| (x, h - 1);
        let row = set_int_range(0, w).map(in_row);
        assert(injective_on(in_row, set_int_range(0, w)));
        lemma_map_size(set_int_range(0, w), row, in_row);
        let below = board_cells(w, h - 1);
        assert forall|c: (int, int)| board_cells(w, h).contains(c) implies (below + row).contains(
            c,
        ) by {
            if c.1 == h - 1 {
                assert(set_int_range(0, w).contains(c.0) && c == in_row(c.0));
            }
        }
        assert(board_cells(w, h) =~= below + row);
        assert(below.disjoint(row));
        lemma_set_disjoint_lens(below, row);
        assert(w * h == w * (h - 1) + w) by (nonlinear_arith);
    }
}

/// The cells that hold a given tile are finitely many, and no more than the
/// board has cells.
pub proof fn lemma_count_bounded(g: Seq<Seq<Tile>>, w: int, h: int, t: Tile)
    requires
        rectangular(g, w, h),
        0 <= w,
    ensures
        cells_holding(g, t).finite(),
        count(g, t) <= w * h,
{
    lemma_board_cells(w, h);
    assert(cells_holding(g, t).subset_of(board_cells(w, h)));
    lemma_len_subset(cells_holding(g, t), board_cells(w, h));
}

/// On a board without pieces every count of pieces is zero.
pub proof fn lemma_count_on_empty_board(g: Seq<Seq<Tile>>, t: Tile)
    requires
        t != Tile::Empty,
        forall|x: int, y: int| on_board(g, x, y) ==> g[y][x] == Tile::Empty,
    ensures
        count(g, t) == 0,
{
    assert(cells_holding(g, t) =~= Set::<(int, int)>::empty());
}

/// Writing a piece into an empty cell adds one to the count of that piece
/// and leaves the count of the other player's pieces as it was.
pub proof fn lemma_count_after_set(g: Seq<Seq<Tile>>, w: int, h: int, x: int, y: int, t: Tile)
    requires
        rectangular(g, w, h),
        on_board(g, x, y),
        g[y][x] == Tile::Empty,
        t != Tile::Empty,
    ensures
        rectangular(g.update(y, g[y].update(x, t)), w, h),
        count(g.update(y, g[y].update(x, t)), t) == count(g, t) + 1,
        count(g.update(y, g[y].update(x, t)), rival(t)) == count(g, rival(t)),
{
    let after = g.update(y, g[y].update(x, t));
    lemma_count_bounded(g, w, h, t);
    assert(cells_holding(after, t) =~= cells_holding(g, t).insert((x, y)));
    assert(cells_holding(after, rival(t)) =~= cells_holding(g, rival(t)));
}

/// A legal placement by a player that captures `n` cells gives that player
/// `n + 1` more pieces and the other player `n` fewer.
pub proof fn lemma_counts_after_place(
    g: Seq<Seq<Tile>>,
    w: int,
    h: int,
    friend: Tile,
    x: int,
    y: int,
)
    requires
        rectangular(g, w, h),
        on_board(g, x, y),
        friend != Tile::Empty,
        place_result(g, friend, x, y) is Ok,
    ensures
        rectangular(after_place(g, friend, x, y), w, h),
        count(after_place(g, friend, x, y), friend) == count(g, friend) + captured(
            g,
            friend,
            x,
            y,
        ).len() + 1,
        count(after_place(g, friend, x, y), rival(friend)) + captured(g, friend, x, y).len()
            == count(g, rival(friend)),
{
    let after = after_place(g, friend, x, y);
    let cap = captured(g, friend, x, y);
    let mine = cells_holding(g, friend);
    let theirs = cells_holding(g, rival(friend));
    lemma_captured_len(g, friend, x, y);
    lemma_captured_are_opponents(g, friend, x, y);
    lemma_count_bounded(g, w, h, friend);
    lemma_count_bounded(g, w, h, rival(friend));
    assert(after == flipped(g, friend, x, y));
    assert(cells_holding(after, friend) =~= (mine + cap).insert((x, y)));
    assert(mine.disjoint(cap));
    lemma_set_disjoint_lens(mine, cap);
    assert(!(mine + cap).contains((x, y)));
    let left = cells_holding(after, rival(friend));
    assert(theirs =~= left + cap);
    assert(left.disjoint(cap));
    assert(left.subset_of(theirs));
    lemma_len_subset(left, theirs);
    lemma_set_disjoint_lens(left, cap);
}

} // verus!
