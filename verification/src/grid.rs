use vstd::prelude::*;

verus! {

use crate::COLOR_COUNT;

/// The mathematical model of a grid: a sequence of rows, each row a sequence
/// of color indices.
pub open spec fn grid_view(rows: Seq<Vec<i32>>) -> Seq<Seq<i32>> {
    Seq::new(rows.len(), |y: int| rows[y]@)
}

/// The grid is non-empty and rectangular: every row has the length of row 0.
pub open spec fn grid_rect(g: Seq<Seq<i32>>) -> bool {
    &&& g.len() >= 1
    &&& g[0].len() >= 1
    &&& forall|y: int| 0 <= y < g.len() ==> (#[trigger] g[y]).len() == g[0].len()
}

/// Every cell holds a valid color index.
pub open spec fn grid_colors_ok(g: Seq<Seq<i32>>) -> bool {
    forall|y: int, x: int|
        0 <= y < g.len() && 0 <= x < g[y].len() ==> 0 <= #[trigger] g[y][x] < COLOR_COUNT
}

/// Column x, row y lies inside the grid.
pub open spec fn in_bounds(g: Seq<Seq<i32>>, x: int, y: int) -> bool {
    0 <= y < g.len() && 0 <= x < g[0].len()
}

/// The two cells are 4-directionally adjacent (cells are (column, row) pairs).
pub open spec fn adjacent(a: (int, int), b: (int, int)) -> bool {
    ||| a.0 == b.0 && (b.1 == a.1 + 1 || b.1 == a.1 - 1)
    ||| a.1 == b.1 && (b.0 == a.0 + 1 || b.0 == a.0 - 1)
}

/// p is a walk of in-bounds cells of color c, starting at s, each step moving
/// to a 4-adjacent cell.
pub open spec fn is_fill_path(g: Seq<Seq<i32>>, c: i32, s: (int, int), p: Seq<(int, int)>) -> bool {
    &&& p.len() >= 1
    &&& p[0] == s
    &&& (forall|i: int|
        0 <= i < p.len() ==> in_bounds(g, (#[trigger] p[i]).0, p[i].1) && g[p[i].1][p[i].0] == c)
    &&& (forall|i: int| 0 < i < p.len() ==> adjacent(p[i - 1], #[trigger] p[i]))
}

/// Cell t belongs to the maximal 4-connected region of cells of color c that
/// contains cell s.
#[verifier::opaque]
pub open spec fn connected(g: Seq<Seq<i32>>, c: i32, s: (int, int), t: (int, int)) -> bool {
    exists|p: Seq<(int, int)>| is_fill_path(g, c, s, p) && p.last() == t
}

/// Cell (x, y) belongs to the anchored region: the maximal 4-connected region
/// of the anchor cell (0, 0) sharing the anchor's color.
pub open spec fn reaches(g: Seq<Seq<i32>>, x: int, y: int) -> bool {
    connected(g, g[0][0], (0, 0), (x, y))
}

/// The grid after repainting the connected c0-colored region containing s
/// with color c; all cells outside that region keep their color.
pub open spec fn region_fill(g: Seq<Seq<i32>>, c0: i32, s: (int, int), c: i32) -> Seq<Seq<i32>> {
    Seq::new(
        g.len(),
        |y: int|
            Seq::new(
                g[y].len(),
                |x: int| if connected(g, c0, s, (x, y)) { c } else { g[y][x] },
            ),
    )
}

/// The grid after a legal repaint with color c: the anchored region takes
/// color c, everything else is unchanged.
pub open spec fn flood_grid(g: Seq<Seq<i32>>, c: i32) -> Seq<Seq<i32>> {
    region_fill(g, g[0][0], (0, 0), c)
}

/// The mathematical model of an effect mask: a sequence of rows of booleans.
pub open spec fn mask_view(rows: Seq<Vec<bool>>) -> Seq<Seq<bool>> {
    Seq::new(rows.len(), |y: int| rows[y]@)
}

/// Every cell holds the anchor cell's color.
pub open spec fn is_uniform(g: Seq<Seq<i32>>) -> bool {
    forall|y: int, x: int| in_bounds(g, x, y) ==> #[trigger] g[y][x] == g[0][0]
}

/// Some cell on the anti-diagonal x + y == s holds color c.
pub open spec fn diag_has_color(g: Seq<Seq<i32>>, s: int, c: i32) -> bool {
    exists|y: int, x: int| in_bounds(g, x, y) && x + y == s && #[trigger] g[y][x] == c
}

/// The mask of one reveal-wave tick: a cell is highlighted exactly when it
/// lies on the anti-diagonal x + y == s and holds color c.
pub open spec fn effect_mask(g: Seq<Seq<i32>>, s: int, c: i32) -> Seq<Seq<bool>> {
    Seq::new(g.len(), |y: int| Seq::new(g[y].len(), |x: int| x + y == s && g[y][x] == c))
}

/// Number of cells of color c in one row; a termination measure for the fill.
spec fn count_in_row(r: Seq<i32>, c: i32) -> nat
    decreases r.len(),
{
    if r.len() == 0 {
        0
    } else {
        count_in_row(r.drop_last(), c) + if r.last() == c {
            1nat
        } else {
            0nat
        }
    }
}

/// Number of cells of color c in the whole grid.
spec fn count_color(g: Seq<Seq<i32>>, c: i32) -> nat
    decreases g.len(),
{
    if g.len() == 0 {
        0
    } else {
        count_color(g.drop_last(), c) + count_in_row(g.last(), c)
    }
}

proof fn lemma_count_in_row_update(r: Seq<i32>, c: i32, x: int, v: i32)
    requires
        0 <= x < r.len(),
        r[x] == c,
        v != c,
    ensures
        count_in_row(r.update(x, v), c) + 1 == count_in_row(r, c),
    decreases r.len(),
{
    let r2 = r.update(x, v);
    if x == r.len() - 1 {
        assert(r2.drop_last() =~= r.drop_last());
        assert(r2.last() == v);
    } else {
        assert(r2.drop_last() =~= r.drop_last().update(x, v));
        lemma_count_in_row_update(r.drop_last(), c, x, v);
        assert(r2.last() == r.last());
    }
}

proof fn lemma_count_color_update(g: Seq<Seq<i32>>, c: i32, x: int, y: int, v: i32)
    requires
        0 <= y < g.len(),
        0 <= x < g[y].len(),
        g[y][x] == c,
        v != c,
    ensures
        count_color(g.update(y, g[y].update(x, v)), c) + 1 == count_color(g, c),
    decreases g.len(),
{
    let g2 = g.update(y, g[y].update(x, v));
    if y == g.len() - 1 {
        assert(g2.drop_last() =~= g.drop_last());
        assert(g2.last() == g[y].update(x, v));
        lemma_count_in_row_update(g[y], c, x, v);
    } else {
        assert(g2.drop_last() =~= g.drop_last().update(y, g[y].update(x, v)));
        assert(g.drop_last()[y] == g[y]);
        lemma_count_color_update(g.drop_last(), c, x, y, v);
        assert(g2.last() == g.last());
    }
}

/// A cell of color c is connected to itself.
pub proof fn lemma_connected_self(g: Seq<Seq<i32>>, c: i32, s: (int, int))
    requires
        in_bounds(g, s.0, s.1),
        g[s.1][s.0] == c,
    ensures
        connected(g, c, s, s),
{
    reveal(connected);
    let p: Seq<(int, int)> = seq![s];
    assert(is_fill_path(g, c, s, p));
    assert(p.last() == s);
}

/// The region grows along adjacency: a c-colored cell next to a cell of the
/// region is itself in the region.
pub proof fn lemma_connected_extend(g: Seq<Seq<i32>>, c: i32, s: (int, int), d: (int, int), t: (int, int))
    requires
        connected(g, c, s, d),
        adjacent(d, t),
        in_bounds(g, t.0, t.1),
        g[t.1][t.0] == c,
    ensures
        connected(g, c, s, t),
{
    reveal(connected);
    let p = choose|p: Seq<(int, int)>| is_fill_path(g, c, s, p) && p.last() == d;
    let q = p.push(t);
    assert(q[0] == p[0]);
    assert forall|i: int| 0 < i < q.len() implies adjacent(q[i - 1], #[trigger] q[i]) by {
        if i < q.len() - 1 {
            assert(q[i - 1] == p[i - 1] && q[i] == p[i]);
        } else {
            assert(q[i - 1] == p.last() && q[i] == t);
        }
    }
    assert(is_fill_path(g, c, s, q));
    assert(q.last() == t);
}

/// Every cell of the region is of color c (in particular, s itself, whenever
/// the region is not empty).
pub proof fn lemma_connected_color(g: Seq<Seq<i32>>, c: i32, s: (int, int), t: (int, int))
    requires
        connected(g, c, s, t),
    ensures
        in_bounds(g, t.0, t.1),
        g[t.1][t.0] == c,
        in_bounds(g, s.0, s.1),
        g[s.1][s.0] == c,
{
    reveal(connected);
    let p = choose|p: Seq<(int, int)>| is_fill_path(g, c, s, p) && p.last() == t;
    assert(p[0] == s);
    assert(p[p.len() - 1] == t);
}

/// A set of cells that contains s and is closed under stepping to adjacent
/// c-colored cells contains every cell connected to s.
proof fn lemma_closed_contains_path_end(
    g: Seq<Seq<i32>>,
    c: i32,
    s: (int, int),
    done: Set<(int, int)>,
    p: Seq<(int, int)>,
)
    requires
        is_fill_path(g, c, s, p),
        done.contains(s),
        forall|u: (int, int), v: (int, int)|
            done.contains(u) && #[trigger] adjacent(u, v) && in_bounds(g, v.0, v.1) && g[v.1][v.0]
                == c ==> done.contains(v),
    ensures
        done.contains(p.last()),
    decreases p.len(),
{
    if p.len() == 1 {
        assert(p.last() == s);
    } else {
        let q = p.drop_last();
        assert(q[0] == p[0]);
        assert forall|i: int| 0 <= i < q.len() implies in_bounds(g, (#[trigger] q[i]).0, q[i].1)
            && g[q[i].1][q[i].0] == c by {
            assert(q[i] == p[i]);
        }
        assert forall|i: int| 0 < i < q.len() implies adjacent(q[i - 1], #[trigger] q[i]) by {
            assert(q[i - 1] == p[i - 1] && q[i] == p[i]);
        }
        lemma_closed_contains_path_end(g, c, s, done, q);
        assert(q.last() == p[p.len() - 2]);
        assert(adjacent(p[p.len() - 2], p[p.len() - 1]));
    }
}

/// Same statement, quantified over targets instead of paths.
proof fn lemma_closed_contains_region(
    g: Seq<Seq<i32>>,
    c: i32,
    s: (int, int),
    done: Set<(int, int)>,
)
    requires
        done.contains(s),
        forall|u: (int, int), v: (int, int)|
            done.contains(u) && #[trigger] adjacent(u, v) && in_bounds(g, v.0, v.1) && g[v.1][v.0]
                == c ==> done.contains(v),
    ensures
        forall|t: (int, int)| connected(g, c, s, t) ==> done.contains(t),
{
    assert forall|t: (int, int)| connected(g, c, s, t) implies done.contains(t) by {
        reveal(connected);
        let p = choose|p: Seq<(int, int)>| is_fill_path(g, c, s, p) && p.last() == t;
        lemma_closed_contains_path_end(g, c, s, done, p);
    }
}

/// The (column, row) pair of a worklist entry, as mathematical integers.
spec fn cell_int(p: (usize, usize)) -> (int, int) {
    (p.0 as int, p.1 as int)
}

/// Some worklist entry denotes cell t.
spec fn stack_has(st: Seq<(usize, usize)>, t: (int, int)) -> bool {
    exists|i: int| 0 <= i < st.len() && cell_int(#[trigger] st[i]) == t
}

proof fn lemma_stack_has_push(st: Seq<(usize, usize)>, c: (usize, usize))
    ensures
        stack_has(st.push(c), cell_int(c)),
        forall|v: (int, int)| stack_has(st, v) ==> stack_has(st.push(c), v),
{
    assert(cell_int(st.push(c)[st.len() as int]) == cell_int(c));
    assert forall|v: (int, int)| stack_has(st, v) implies stack_has(st.push(c), v) by {
        let i = choose|i: int| 0 <= i < st.len() && cell_int(#[trigger] st[i]) == v;
        assert(cell_int(st.push(c)[i]) == v);
    }
}

proof fn lemma_stack_has_drop(st: Seq<(usize, usize)>, v: (int, int))
    requires
        st.len() >= 1,
        stack_has(st, v),
        v != cell_int(st.last()),
    ensures
        stack_has(st.drop_last(), v),
{
    let i = choose|i: int| 0 <= i < st.len() && cell_int(#[trigger] st[i]) == v;
    assert(i < st.len() - 1);
    assert(cell_int(st.drop_last()[i]) == v);
}

/// Repaint with to_color the maximal 4-connected from_color-colored region
/// containing (x, y), using an explicit worklist. If the start cell does not
/// hold from_color, the region is empty and the grid is unchanged.
#[verifier::rlimit(100)]
pub fn fill_region(field: &mut Vec<Vec<i32>>, x: usize, y: usize, from_color: i32, to_color: i32)
    requires
        grid_rect(grid_view(old(field)@)),
        in_bounds(grid_view(old(field)@), x as int, y as int),
        from_color != to_color,
    ensures
        grid_view(final(field)@) == region_fill(
            grid_view(old(field)@),
            from_color,
            (x as int, y as int),
            to_color,
        ),
{
    let ghost g0: Seq<Seq<i32>> = grid_view(field@);
    let ghost s: (int, int) = (x as int, y as int);
    let h: usize = field.len();
    let w: usize = field[0].len();
    let mut stack: Vec<(usize, usize)> = Vec::new();
    stack.push((x, y));
    let ghost mut done: Set<(int, int)> = Set::empty();
    proof {
        lemma_stack_has_push(Seq::<(usize, usize)>::empty(), (x, y));
    }
    while stack.len() != 0
        invariant
            grid_rect(g0),
            h == g0.len(),
            w == g0[0].len(),
            field@.len() == g0.len(),
            forall|yy: int| 0 <= yy < g0.len() ==> (#[trigger] field@[yy])@.len() == g0[yy].len(),
            from_color != to_color,
            in_bounds(g0, s.0, s.1),
            forall|t: (int, int)| #[trigger] done.contains(t) ==> connected(g0, from_color, s, t),
            forall|t: (int, int)| #[trigger]
                done.contains(t) ==> in_bounds(g0, t.0, t.1) && g0[t.1][t.0] == from_color,
            forall|yy: int, xx: int| #![trigger g0[yy][xx]]
                in_bounds(g0, xx, yy) ==> field@[yy]@[xx] == (if done.contains((xx, yy)) {
                    to_color
                } else {
                    g0[yy][xx]
                }),
            forall|i: int|
                0 <= i < stack@.len() ==> {
                    let t = cell_int(#[trigger] stack@[i]);
                    in_bounds(g0, t.0, t.1) && (t == s || exists|d: (int, int)|
                        #[trigger] done.contains(d) && adjacent(d, t))
                },
            forall|u: (int, int), v: (int, int)|
                done.contains(u) && #[trigger] adjacent(u, v) && in_bounds(g0, v.0, v.1)
                    && g0[v.1][v.0] == from_color && !done.contains(v) ==> stack_has(stack@, v),
            (g0[s.1][s.0] == from_color && !done.contains(s)) ==> stack_has(stack@, s),
        decreases count_color(grid_view(field@), from_color), stack.len(),
    {
        let ghost stack_pre = stack@;
        let top = stack.pop();
        let (cx, cy) = top.unwrap();
        let ghost t: (int, int) = (cx as int, cy as int);
        proof {
            assert(cell_int(stack_pre[stack_pre.len() - 1]) == t);
        }
        if field[cy][cx] == from_color {
            proof {
                assert(field@[cy as int]@[cx as int] == from_color);
                assert(!done.contains(t));
                assert(g0[t.1][t.0] == from_color);
                if t == s {
                    lemma_connected_self(g0, from_color, s);
                } else {
                    let d = choose|d: (int, int)| #[trigger] done.contains(d) && adjacent(d, t);
                    lemma_connected_extend(g0, from_color, s, d, t);
                }
                assert(connected(g0, from_color, s, t));
            }
            let ghost f_pre = grid_view(field@);
            field[cy][cx] = to_color;
            proof {
                assert(grid_view(field@) =~= f_pre.update(
                    cy as int,
                    f_pre[cy as int].update(cx as int, to_color),
                ));
                assert(f_pre[cy as int][cx as int] == from_color);
                lemma_count_color_update(f_pre, from_color, cx as int, cy as int, to_color);
                let done0 = done;
                done = done.insert(t);
                assert forall|i: int|
                    0 <= i < stack@.len() implies (cell_int(#[trigger] stack@[i]) == s
                        || exists|d: (int, int)|
                        #[trigger] done.contains(d) && adjacent(d, cell_int(stack@[i]))) by {
                    let u = cell_int(stack@[i]);
                    assert(stack@[i] == stack_pre[i]);
                    if u != s {
                        let d0 = choose|d: (int, int)| #[trigger] done0.contains(d) && adjacent(d, u);
                        assert(done.contains(d0) && adjacent(d0, u));
                    }
                }
                if g0[s.1][s.0] == from_color && !done.contains(s) {
                    assert(stack_has(stack_pre, s));
                    lemma_stack_has_drop(stack_pre, s);
                }
            }
            if cx + 1 < w {
                proof {
                    lemma_stack_has_push(stack@, ((cx + 1) as usize, cy));
                }
                stack.push((cx + 1, cy));
                proof {
                    assert(done.contains(t) && adjacent(t, (cx as int + 1, cy as int)));
                }
            }
            if cx > 0 {
                proof {
                    lemma_stack_has_push(stack@, ((cx - 1) as usize, cy));
                }
                stack.push((cx - 1, cy));
                proof {
                    assert(done.contains(t) && adjacent(t, (cx as int - 1, cy as int)));
                }
            }
            if cy + 1 < h {
                proof {
                    lemma_stack_has_push(stack@, (cx, (cy + 1) as usize));
                }
                stack.push((cx, cy + 1));
                proof {
                    assert(done.contains(t) && adjacent(t, (cx as int, cy as int + 1)));
                }
            }
            if cy > 0 {
                proof {
                    lemma_stack_has_push(stack@, (cx, (cy - 1) as usize));
                }
                stack.push((cx, cy - 1));
                proof {
                    assert(done.contains(t) && adjacent(t, (cx as int, cy as int - 1)));
                }
            }
            proof {
                assert forall|u: (int, int), v: (int, int)|
                    done.contains(u) && #[trigger] adjacent(u, v) && in_bounds(g0, v.0, v.1)
                        && g0[v.1][v.0] == from_color && !done.contains(v) implies stack_has(
                    stack@,
                    v,
                ) by {
                    if u == t {
                        assert(adjacent(t, v));
                        if v.0 == t.0 + 1 {
                            assert(cx + 1 < w);
                            assert(stack_has(stack@, (cx as int + 1, cy as int)));
                        } else if v.0 == t.0 - 1 {
                            assert(cx > 0);
                            assert(stack_has(stack@, (cx as int - 1, cy as int)));
                        } else if v.1 == t.1 + 1 {
                            assert(cy + 1 < h);
                            assert(stack_has(stack@, (cx as int, cy as int + 1)));
                        } else {
                            assert(v.1 == t.1 - 1);
                            assert(cy > 0);
                            assert(stack_has(stack@, (cx as int, cy as int - 1)));
                        }
                    } else {
                        assert(stack_has(stack_pre, v));
                        lemma_stack_has_drop(stack_pre, v);
                    }
                }
            }
        } else {
            proof {
                assert forall|u: (int, int), v: (int, int)|
                    done.contains(u) && #[trigger] adjacent(u, v) && in_bounds(g0, v.0, v.1)
                        && g0[v.1][v.0] == from_color && !done.contains(v) implies stack_has(
                    stack@,
                    v,
                ) by {
                    assert(stack_has(stack_pre, v));
                    if v == t {
                        assert(field@[cy as int]@[cx as int] != from_color);
                        assert(field@[cy as int]@[cx as int] == g0[v.1][v.0]);
                        assert(false);
                    }
                    lemma_stack_has_drop(stack_pre, v);
                }
                if g0[s.1][s.0] == from_color && !done.contains(s) {
                    if s == t {
                        assert(field@[cy as int]@[cx as int] == g0[s.1][s.0]);
                        assert(false);
                    }
                    lemma_stack_has_drop(stack_pre, s);
                }
            }
        }
    }
    proof {
        if g0[s.1][s.0] == from_color {
            assert(done.contains(s));
            lemma_closed_contains_region(g0, from_color, s, done);
        } else {
            assert forall|tt: (int, int)| !connected(g0, from_color, s, tt) by {
                if connected(g0, from_color, s, tt) {
                    lemma_connected_color(g0, from_color, s, tt);
                }
            }
        }
        assert forall|yy: int, xx: int| in_bounds(g0, xx, yy) implies grid_view(field@)[yy][xx]
            == region_fill(g0, from_color, s, to_color)[yy][xx] by {
            assert(done.contains((xx, yy)) <==> connected(g0, from_color, s, (xx, yy)));
        }
        assert(grid_view(field@) =~~= region_fill(g0, from_color, s, to_color));
    }
}

} // verus!
