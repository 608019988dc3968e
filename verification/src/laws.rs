use vstd::prelude::*;

verus! {

use crate::grid::{
    adjacent,
    connected,
    diag_has_color,
    flood_grid,
    grid_rect,
    in_bounds,
    is_fill_path,
    is_uniform,
    lemma_connected_color,
    reaches,
};
use crate::model::{work_tick_rel, Game, State};

/// Law: a legal repaint changes exactly the maximal 4-connected region of
/// the anchor cell's color. A cell's color changes if and only if the cell
/// belongs to the anchored region; changed cells take the chosen color and
/// all other cells are untouched.
pub proof fn lemma_flood_fill_region(g: Seq<Seq<i32>>, c: i32)
    requires
        grid_rect(g),
        c != g[0][0],
    ensures
        forall|x: int, y: int|
            in_bounds(g, x, y) ==> ((#[trigger] flood_grid(g, c)[y][x]) != g[y][x] <==> reaches(
                g,
                x,
                y,
            )),
        forall|x: int, y: int|
            in_bounds(g, x, y) && reaches(g, x, y) ==> #[trigger] flood_grid(g, c)[y][x] == c,
        forall|x: int, y: int|
            in_bounds(g, x, y) && !reaches(g, x, y) ==> #[trigger] flood_grid(g, c)[y][x] == g[y][x],
{
    assert forall|x: int, y: int|
        in_bounds(g, x, y) && reaches(g, x, y) implies #[trigger] flood_grid(g, c)[y][x] == c
        && flood_grid(g, c)[y][x] != g[y][x] by {
        lemma_connected_color(g, g[0][0], (0, 0), (x, y));
        assert(g[y][x] == g[0][0]);
    }
}

/// Law: the reveal wave cannot outlive the grid: past the longest
/// anti-diagonal no cell can match, so the tick that reaches such a sweep
/// index ends the wave and returns control to the player.
pub proof fn lemma_wave_passes_end(g: Seq<Seq<i32>>, s: int, c: i32)
    requires
        grid_rect(g),
        s > g.len() + g[0].len() - 2,
    ensures
        !diag_has_color(g, s, c),
{
}

/// Law (win detection): while the reveal wave runs over a uniform grid — as
/// a repaint leaves it when it fills the whole grid — every working tick
/// either keeps the wave alive with a strictly larger sweep index, which the
/// well-formedness bound caps, or ends the wave, setting is_clear and
/// queueing "bravo.wav"; is_over is never set on a uniform grid. Once
/// is_clear holds, update freezes the state (see update_rel), so the grid
/// never changes in response to further commands.
pub proof fn lemma_win_detection(pre: Game, post: Game)
    requires
        pre.wf(),
        !pre.is_clear && !pre.is_over,
        pre.state == State::Painting,
        is_uniform(pre.grid()),
        work_tick_rel(pre, post),
    ensures
        post.sum == pre.sum + 1,
        post.state == State::Painting ==> post.sum <= pre.grid_w() + pre.grid_h() - 1,
        post.state == State::Controllable ==> post.is_clear && !post.is_over && post.sounds()
            == pre.sounds().push("bravo.wav"@),
        post.state == State::Painting ==> !post.is_clear && !post.is_over,
{
    if diag_has_color(pre.grid(), pre.sum as int, pre.last_color) {
        let (yy, xx): (int, int) = choose|yy: int, xx: int|
            in_bounds(pre.grid(), xx, yy) && xx + yy == pre.sum as int && #[trigger] pre.grid()[yy][xx]
                == pre.last_color;
        assert(pre.sum as int <= pre.grid_w() + pre.grid_h() - 2);
    }
}

proof fn lemma_path_hits_diag(p: Seq<(int, int)>, s: int)
    requires
        p.len() >= 1,
        p[0].0 + p[0].1 == 0,
        forall|i: int| 0 < i < p.len() ==> adjacent(p[i - 1], #[trigger] p[i]),
        0 <= s <= p.last().0 + p.last().1,
    ensures
        exists|i: int| 0 <= i < p.len() && (#[trigger] p[i]).0 + p[i].1 == s,
    decreases p.len(),
{
    let last = p.last();
    if last.0 + last.1 == s {
        assert((#[trigger] p[p.len() - 1]).0 + p[p.len() - 1].1 == s);
    } else {
        assert(p.len() >= 2);
        let q = p.drop_last();
        assert(adjacent(p[p.len() - 2], p[p.len() - 1]));
        assert(q.last() == p[p.len() - 2]);
        assert(q[0] == p[0]);
        assert forall|i: int| 0 < i < q.len() implies adjacent(q[i - 1], #[trigger] q[i]) by {
            assert(q[i - 1] == p[i - 1] && q[i] == p[i]);
        }
        lemma_path_hits_diag(q, s);
        let i = choose|i: int| 0 <= i < q.len() && (#[trigger] q[i]).0 + q[i].1 == s;
        assert((#[trigger] p[i]).0 + p[i].1 == s);
    }
}

proof fn lemma_path_prefix_reaches(g: Seq<Seq<i32>>, p: Seq<(int, int)>, i: int)
    requires
        is_fill_path(g, g[0][0], (0, 0), p),
        0 <= i < p.len(),
    ensures
        reaches(g, p[i].0, p[i].1),
{
    reveal(connected);
    let q = p.take(i + 1);
    assert(q[0] == p[0]);
    assert forall|j: int|
        0 <= j < q.len() implies in_bounds(g, (#[trigger] q[j]).0, q[j].1) && g[q[j].1][q[j].0]
        == g[0][0] by {
        assert(q[j] == p[j]);
    }
    assert forall|j: int| 0 < j < q.len() implies adjacent(q[j - 1], #[trigger] q[j]) by {
        assert(q[j - 1] == p[j - 1] && q[j] == p[j]);
    }
    assert(is_fill_path(g, g[0][0], (0, 0), q));
    assert(q.last() == p[i]);
}

/// Law: after any legal repaint, the reveal wave finds a matching cell on
/// every anti-diagonal up to and including the farthest repainted cell —
/// the anchored region is 4-connected to (0, 0), so it cannot skip an
/// anti-diagonal. The wave therefore runs for at least m + 1 working ticks,
/// where m is the largest anti-diagonal index x + y of any repainted cell.
pub proof fn lemma_wave_covers_region(g: Seq<Seq<i32>>, c: i32, m: int)
    requires
        grid_rect(g),
        c != g[0][0],
        exists|x: int, y: int| in_bounds(g, x, y) && #[trigger] reaches(g, x, y) && x + y == m,
    ensures
        forall|s: int| 0 <= s <= m ==> #[trigger] diag_has_color(flood_grid(g, c), s, c),
{
    lemma_flood_fill_region(g, c);
    let fg = flood_grid(g, c);
    assert(fg.len() == g.len());
    assert(fg[0].len() == g[0].len());

    let (xm, ym): (int, int) = choose|x: int, y: int|
        in_bounds(g, x, y) && #[trigger] reaches(g, x, y) && x + y == m;
    reveal(connected);
    let p = choose|p: Seq<(int, int)>|
        is_fill_path(g, g[0][0], (0, 0), p) && p.last() == (xm, ym);

    assert forall|s: int| 0 <= s <= m implies #[trigger] diag_has_color(fg, s, c) by {
        assert(p[0] == (0int, 0int));
        assert(p.last().0 + p.last().1 == m);
        lemma_path_hits_diag(p, s);
        let i = choose|i: int| 0 <= i < p.len() && (#[trigger] p[i]).0 + p[i].1 == s;
        lemma_path_prefix_reaches(g, p, i);
        let (cx, cy) = p[i];
        assert(in_bounds(g, cx, cy));
        assert(fg[cy][cx] == c);
        assert(in_bounds(fg, cx, cy) && cx + cy == s && fg[cy][cx] == c);
    }
}

/// Law: after a legal repaint of a grid that held no cell of the chosen
/// color, the repainted region is exactly the set of cells holding that
/// color, so the wave matches on anti-diagonals 0 through m and on no
/// later one. With the tick relation (one working tick per sweep index,
/// starting at 0, advancing by one, stopping at the first miss) the wave
/// runs for exactly m + 1 matching working ticks, where m is the largest
/// anti-diagonal index x + y of any repainted cell. On a grid that already
/// held the chosen color elsewhere the exact count can be larger, which is
/// why this law asks for a grid without such cells.
pub proof fn lemma_wave_tick_count(g: Seq<Seq<i32>>, c: i32, m: int)
    requires
        grid_rect(g),
        c != g[0][0],
        forall|x: int, y: int| in_bounds(g, x, y) ==> #[trigger] g[y][x] != c,
        forall|x: int, y: int|
            in_bounds(g, x, y) && #[trigger] reaches(g, x, y) ==> x + y <= m,
        exists|x: int, y: int| in_bounds(g, x, y) && #[trigger] reaches(g, x, y) && x + y == m,
    ensures
        forall|s: int| 0 <= s <= m ==> #[trigger] diag_has_color(flood_grid(g, c), s, c),
        forall|s: int| s > m ==> !#[trigger] diag_has_color(flood_grid(g, c), s, c),
{
    lemma_wave_covers_region(g, c, m);
    lemma_flood_fill_region(g, c);
    let fg = flood_grid(g, c);
    assert(fg.len() == g.len());
    assert(fg[0].len() == g[0].len());

    assert forall|s: int| s > m implies !#[trigger] diag_has_color(fg, s, c) by {
        if diag_has_color(fg, s, c) {
            let (yy, xx): (int, int) = choose|yy: int, xx: int|
                in_bounds(fg, xx, yy) && xx + yy == s && #[trigger] fg[yy][xx] == c;
            assert(in_bounds(g, xx, yy));
            if reaches(g, xx, yy) {
                assert(xx + yy <= m);
            } else {
                assert(fg[yy][xx] == g[yy][xx]);
                assert(g[yy][xx] != c);
            }
            assert(false);
        }
    }
}

} // verus!
