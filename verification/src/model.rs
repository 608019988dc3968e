use vstd::prelude::*;

verus! {

use crate::{ALLOWED_STEP_COUNT, COLOR_COUNT, FIELD_H, FIELD_W, PAINT_WAIT};
use crate::grid::{
    diag_has_color,
    effect_mask,
    fill_region,
    flood_grid,
    grid_colors_ok,
    grid_rect,
    grid_view,
    in_bounds,
    is_uniform,
    mask_view,
    region_fill,
};
use crate::rng::{rng_below, rng_from_seed};

/// The per-frame input handed to the engine by the shell.
#[derive(Debug, Clone, Copy, PartialEq, Eq, Structural)]
pub enum Command {
    Idle,
    Paint(i32),
}

/// A command is either empty or a paint with a valid color index.
pub open spec fn command_ok(command: Command) -> bool {
    match command {
        Command::Idle => true,
        Command::Paint(color) => 0 <= color < COLOR_COUNT,
    }
}

/// The animation sub-state: waiting for input, or revealing a repaint.
#[derive(Debug, Default, Copy, Clone, PartialEq, Eq, Structural)]
pub enum State {
    #[default]
    Controllable,
    Painting,
}

/// The whole simulation state of one game session.
pub struct Game {
    pub rng: rand::rngs::StdRng,
    pub is_clear: bool,
    pub is_over: bool,
    pub frame: i32,
    pub requested_sounds: Vec<&'static str>,
    pub state: State,
    pub field: Vec<Vec<i32>>,
    pub effect: Vec<Vec<bool>>,
    pub painted_count: i32,
    pub hover_color: i32,
    pub sum: usize,
    pub paint_wait: i32,
    pub last_color: i32,
}

impl Game {
    /// The grid of color indices, as a mathematical value.
    pub open spec fn grid(&self) -> Seq<Seq<i32>> {
        grid_view(self.field@)
    }

    /// The reveal-wave highlight mask, as a mathematical value.
    pub open spec fn effects(&self) -> Seq<Seq<bool>> {
        mask_view(self.effect@)
    }

    /// The queue of pending sound-effect identifiers, as character sequences.
    pub open spec fn sounds(&self) -> Seq<Seq<char>> {
        self.requested_sounds.deep_view()
    }

    pub open spec fn grid_h(&self) -> int {
        self.grid().len() as int
    }

    pub open spec fn grid_w(&self) -> int {
        self.grid()[0].len() as int
    }

    /// Well-formedness: the shape of the grids, the color invariant, and the
    /// bounds the state machine maintains on its counters.
    pub open spec fn wf(&self) -> bool {
        &&& grid_rect(self.grid())
        &&& grid_colors_ok(self.grid())
        &&& self.effects().len() == self.grid_h()
        &&& (forall|y: int|
            0 <= y < self.grid_h() ==> (#[trigger] self.effects()[y]).len() == self.grid_w())
        &&& self.grid_w() + self.grid_h() <= usize::MAX
        &&& 0 <= self.painted_count <= ALLOWED_STEP_COUNT
        &&& !(self.is_clear && self.is_over)
        &&& (self.state == State::Controllable && !self.is_clear && !self.is_over
            ==> self.painted_count < ALLOWED_STEP_COUNT)
        &&& (self.state == State::Painting ==> {
            &&& 0 <= self.last_color < COLOR_COUNT
            &&& 0 <= self.paint_wait <= PAINT_WAIT
            &&& self.sum <= self.grid_w() + self.grid_h() - 1
        })
    }
}

/// Nothing the simulation owns differs between the two states; only frame,
/// the random source and hover may.
pub open spec fn sim_unchanged(pre: Game, post: Game) -> bool {
    &&& post.grid() == pre.grid()
    &&& post.effects() == pre.effects()
    &&& post.sounds() == pre.sounds()
    &&& post.state == pre.state
    &&& post.painted_count == pre.painted_count
    &&& post.is_clear == pre.is_clear
    &&& post.is_over == pre.is_over
    &&& post.sum == pre.sum
    &&& post.paint_wait == pre.paint_wait
    &&& post.last_color == pre.last_color
}

/// What one call of the repaint trigger does. An illegal color (equal to the
/// anchor cell's color) costs no move and only queues "ng.wav"; a legal color
/// floods the anchored region, costs one move, and enters Painting.
pub open spec fn paint_rel(pre: Game, post: Game, color: i32) -> bool {
    if color == pre.grid()[0][0] {
        &&& post.sounds() == pre.sounds().push("ng.wav"@)
        &&& post.grid() == pre.grid()
        &&& post.effects() == pre.effects()
        &&& post.state == pre.state
        &&& post.painted_count == pre.painted_count
        &&& post.is_clear == pre.is_clear
        &&& post.is_over == pre.is_over
        &&& post.sum == pre.sum
        &&& post.paint_wait == pre.paint_wait
        &&& post.last_color == pre.last_color
    } else {
        &&& post.grid() == flood_grid(pre.grid(), color)
        &&& post.painted_count == pre.painted_count + 1
        &&& post.last_color == color
        &&& post.state == State::Painting
        &&& post.sum == 0
        &&& post.paint_wait == 0
        &&& post.sounds() == pre.sounds()
        &&& post.effects() == pre.effects()
        &&& post.is_clear == pre.is_clear
        &&& post.is_over == pre.is_over
    }
}

/// One working tick of the reveal wave: the mask is recomputed for the
/// current anti-diagonal, the sweep index advances, and when the wave finds
/// nothing the win/loss evaluation runs and control returns to the player.
pub open spec fn work_tick_rel(pre: Game, post: Game) -> bool {
    let found = diag_has_color(pre.grid(), pre.sum as int, pre.last_color);
    &&& post.grid() == pre.grid()
    &&& post.effects() == effect_mask(pre.grid(), pre.sum as int, pre.last_color)
    &&& post.sum == pre.sum + 1
    &&& post.paint_wait == PAINT_WAIT
    &&& post.painted_count == pre.painted_count
    &&& post.last_color == pre.last_color
    &&& (if found {
        &&& post.state == State::Painting
        &&& post.is_clear == pre.is_clear
        &&& post.is_over == pre.is_over
        &&& post.sounds() == pre.sounds()
    } else {
        &&& post.state == State::Controllable
        &&& post.is_clear == is_uniform(pre.grid())
        &&& post.is_over == (!is_uniform(pre.grid()) && pre.painted_count == ALLOWED_STEP_COUNT)
        &&& post.sounds() == (if is_uniform(pre.grid()) {
            pre.sounds().push("bravo.wav"@)
        } else if pre.painted_count == ALLOWED_STEP_COUNT {
            pre.sounds().push("crash.wav"@)
        } else {
            pre.sounds()
        })
    })
}

/// Everything the wait gate leaves untouched when it skips a tick's work.
pub open spec fn wave_gated(pre: Game, post: Game) -> bool {
    &&& post.grid() == pre.grid()
    &&& post.effects() == pre.effects()
    &&& post.sounds() == pre.sounds()
    &&& post.state == pre.state
    &&& post.painted_count == pre.painted_count
    &&& post.is_clear == pre.is_clear
    &&& post.is_over == pre.is_over
    &&& post.sum == pre.sum
    &&& post.last_color == pre.last_color
}

/// One frame in the Painting sub-state, including the wait-counter gate: a
/// positive counter is decremented first; the tick's work runs only when the
/// counter lands on exactly zero; a negative counter skips forever.
pub open spec fn tick_rel(pre: Game, post: Game) -> bool {
    if pre.paint_wait > 1 {
        wave_gated(pre, post) && post.paint_wait == pre.paint_wait - 1
    } else if pre.paint_wait < 0 {
        wave_gated(pre, post) && post.paint_wait == pre.paint_wait
    } else {
        work_tick_rel(pre, post)
    }
}

/// The full step relation of `update`: a terminal state is frozen; otherwise
/// the frame advances and the sub-state dispatches the command.
pub open spec fn update_rel(pre: Game, post: Game, command: Command) -> bool {
    if pre.is_clear || pre.is_over {
        post == pre
    } else {
        &&& post.rng == pre.rng
        &&& post.hover_color == pre.hover_color
        &&& post.frame == pre.frame + 1
        &&& (match pre.state {
            State::Controllable => match command {
                Command::Idle => sim_unchanged(pre, post),
                Command::Paint(color) => paint_rel(pre, post, color),
            },
            State::Painting => tick_rel(pre, post),
        })
    }
}

/// A fresh w-by-h grid with every cell set to v.
fn filled_grid<T: Copy>(w: usize, h: usize, v: T) -> (g: Vec<Vec<T>>)
    ensures
        g@.len() == h as int,
        forall|y: int| 0 <= y < h as int ==> (#[trigger] g@[y])@.len() == w as int,
        forall|y: int, x: int|
            0 <= y < h as int && 0 <= x < w as int ==> #[trigger] g@[y]@[x] == v,
{
    let mut g: Vec<Vec<T>> = Vec::new();
    let mut yy: usize = 0;
    while yy < h
        invariant
            yy <= h,
            g@.len() == yy as int,
            forall|y: int| 0 <= y < yy as int ==> (#[trigger] g@[y])@.len() == w as int,
            forall|y: int, x: int|
                0 <= y < yy as int && 0 <= x < w as int ==> #[trigger] g@[y]@[x] == v,
        decreases h - yy,
    {
        let mut row: Vec<T> = Vec::new();
        let mut xx: usize = 0;
        while xx < w
            invariant
                xx <= w,
                row@.len() == xx as int,
                forall|x: int| 0 <= x < xx as int ==> #[trigger] row@[x] == v,
            decreases w - xx,
        {
            row.push(v);
            xx = xx + 1;
        }
        g.push(row);
        yy = yy + 1;
    }
    g
}

/// Recompute the reveal mask for sweep index s and color c, and report
/// whether any cell matched.
fn compute_effect_mask(field: &Vec<Vec<i32>>, s: usize, c: i32) -> (r: (Vec<Vec<bool>>, bool))
    requires
        grid_rect(grid_view(field@)),
        grid_view(field@).len() + grid_view(field@)[0].len() <= usize::MAX,
    ensures
        mask_view(r.0@) == effect_mask(grid_view(field@), s as int, c),
        r.1 == diag_has_color(grid_view(field@), s as int, c),
{
    let ghost g = grid_view(field@);
    let h = field.len();
    let w = field[0].len();
    let mut mask: Vec<Vec<bool>> = Vec::new();
    let mut found = false;
    let mut y: usize = 0;
    while y < h
        invariant
            grid_rect(g),
            g == grid_view(field@),
            h == g.len(),
            w == g[0].len(),
            w + h <= usize::MAX,
            y <= h,
            mask@.len() == y as int,
            forall|yy: int|
                0 <= yy < y as int ==> (#[trigger] mask@[yy])@ == effect_mask(g, s as int, c)[yy],
            found == (exists|yy: int, xx: int|
                0 <= yy < y as int && 0 <= xx < w as int && xx + yy == s as int && #[trigger] g[yy][xx] == c),
        decreases h - y,
    {
        let mut row: Vec<bool> = Vec::new();
        let mut x: usize = 0;
        while x < w
            invariant
                grid_rect(g),
                g == grid_view(field@),
                h == g.len(),
                w == g[0].len(),
                w + h <= usize::MAX,
                y < h,
                x <= w,
                row@.len() == x as int,
                forall|xx: int|
                    0 <= xx < x as int ==> #[trigger] row@[xx] == (xx + y as int == s as int
                        && g[y as int][xx] == c),
                found == (exists|yy: int, xx: int|
                    (0 <= yy < y as int && 0 <= xx < w as int || yy == y as int && 0 <= xx
                        < x as int) && xx + yy == s as int && #[trigger] g[yy][xx] == c),
            decreases w - x,
        {
            proof {
                assert(g[y as int].len() == w as int);
                assert(field@[y as int]@ == g[y as int]);
            }
            let hit = x + y == s && field[y][x] == c;
            row.push(hit);
            if hit {
                found = true;
                proof {
                    assert(g[y as int][x as int] == c);
                }
            }
            x = x + 1;
        }
        proof {
            assert(row@ =~= effect_mask(g, s as int, c)[y as int]);
        }
        mask.push(row);
        y = y + 1;
    }
    proof {
        assert(mask_view(mask@) =~~= effect_mask(g, s as int, c));
        if found {
            assert(diag_has_color(g, s as int, c));
        }
        if diag_has_color(g, s as int, c) {
            let (yy, xx) = choose|yy: int, xx: int|
                in_bounds(g, xx, yy) && xx + yy == s as int && #[trigger] g[yy][xx] == c;
            assert(0 <= yy < h as int && 0 <= xx < w as int && xx + yy == s as int && g[yy][xx] == c);
        }
    }
    (mask, found)
}

/// Whether the whole grid holds the anchor cell's color.
fn grid_is_uniform(field: &Vec<Vec<i32>>) -> (r: bool)
    requires
        grid_rect(grid_view(field@)),
    ensures
        r == is_uniform(grid_view(field@)),
{
    let ghost g = grid_view(field@);
    let h = field.len();
    let w = field[0].len();
    let anchor = field[0][0];
    let mut uniform = true;
    let mut y: usize = 0;
    while y < h
        invariant
            grid_rect(g),
            g == grid_view(field@),
            h == g.len(),
            w == g[0].len(),
            anchor == g[0][0],
            y <= h,
            uniform == (forall|yy: int, xx: int|
                0 <= yy < y as int && 0 <= xx < w as int ==> #[trigger] g[yy][xx] == anchor),
        decreases h - y,
    {
        let mut x: usize = 0;
        while x < w
            invariant
                grid_rect(g),
                g == grid_view(field@),
                h == g.len(),
                w == g[0].len(),
                anchor == g[0][0],
                y < h,
                x <= w,
                uniform == ((forall|yy: int, xx: int|
                    0 <= yy < y as int && 0 <= xx < w as int ==> #[trigger] g[yy][xx] == anchor)
                    && (forall|xx: int| 0 <= xx < x as int ==> #[trigger] g[y as int][xx] == anchor)),
            decreases w - x,
        {
            proof {
                assert(g[y as int].len() == w as int);
                assert(field@[y as int]@ == g[y as int]);
            }
            if field[y][x] != anchor {
                uniform = false;
            }
            x = x + 1;
        }
        y = y + 1;
    }
    uniform
}

impl Game {
    /// Create a game from a seed: all flags cleared, sub-state Controllable,
    /// and the grid filled with uniformly drawn colors from the seeded
    /// generator. The caller chooses (and may log) the seed.
    pub fn new(seed: u64) -> (game: Game)
        ensures
            game.wf(),
            game.grid().len() == FIELD_H as int,
            game.grid()[0].len() == FIELD_W as int,
            game.is_clear == false,
            game.is_over == false,
            game.frame == -1,
            game.sounds() == Seq::<Seq<char>>::empty(),
            game.state == State::Controllable,
            game.painted_count == 0,
            game.hover_color == -1,
            game.sum == 0,
            game.paint_wait == 0,
            game.last_color == -1,
            forall|y: int, x: int|
                0 <= y < game.effects().len() && 0 <= x < game.effects()[y].len()
                    ==> (#[trigger] game.effects()[y][x]) == false,
    {
        let rng = rng_from_seed(seed);
        let mut game = Game {
            rng,
            is_clear: false,
            is_over: false,
            frame: -1,
            requested_sounds: Vec::new(),
            state: State::Controllable,
            field: filled_grid(FIELD_W, FIELD_H, 0i32),
            effect: filled_grid(FIELD_W, FIELD_H, false),
            painted_count: 0,
            hover_color: -1,
            sum: 0,
            paint_wait: 0,
            last_color: -1,
        };
        proof {
            assert(game.sounds() =~= Seq::<Seq<char>>::empty());
            assert(grid_rect(game.grid()));
            assert(grid_colors_ok(game.grid()));
            assert forall|y: int, x: int|
                0 <= y < game.effects().len() && 0 <= x < game.effects()[y].len() implies (
            #[trigger] game.effects()[y][x]) == false by {
                assert(game.effect@[y]@[x] == false);
            }
        }
        game.set_field_random();
        game
    }

    /// Overwrite every cell with an independently drawn color in
    /// [0, COLOR_COUNT).
    pub fn set_field_random(&mut self)
        requires
            old(self).wf(),
        ensures
            final(self).wf(),
            final(self).grid().len() == old(self).grid().len(),
            final(self).grid()[0].len() == old(self).grid()[0].len(),
            final(self).effects() == old(self).effects(),
            final(self).sounds() == old(self).sounds(),
            final(self).state == old(self).state,
            final(self).painted_count == old(self).painted_count,
            final(self).is_clear == old(self).is_clear,
            final(self).is_over == old(self).is_over,
            final(self).frame == old(self).frame,
            final(self).hover_color == old(self).hover_color,
            final(self).sum == old(self).sum,
            final(self).paint_wait == old(self).paint_wait,
            final(self).last_color == old(self).last_color,
    {
        let h = self.field.len();
        let w = self.field[0].len();
        let mut y: usize = 0;
        while y < h
            invariant
                self.wf(),
                h == self.grid().len(),
                w == self.grid()[0].len(),
                y <= h,
                self.effects() == old(self).effects(),
                self.sounds() == old(self).sounds(),
                self.state == old(self).state,
                self.painted_count == old(self).painted_count,
                self.is_clear == old(self).is_clear,
                self.is_over == old(self).is_over,
                self.frame == old(self).frame,
                self.hover_color == old(self).hover_color,
                self.sum == old(self).sum,
                self.paint_wait == old(self).paint_wait,
                self.last_color == old(self).last_color,
            decreases h - y,
        {
            let mut x: usize = 0;
            while x < w
                invariant
                    self.wf(),
                    h == self.grid().len(),
                    w == self.grid()[0].len(),
                    y < h,
                    x <= w,
                    self.effects() == old(self).effects(),
                    self.sounds() == old(self).sounds(),
                    self.state == old(self).state,
                    self.painted_count == old(self).painted_count,
                    self.is_clear == old(self).is_clear,
                    self.is_over == old(self).is_over,
                    self.frame == old(self).frame,
                    self.hover_color == old(self).hover_color,
                    self.sum == old(self).sum,
                    self.paint_wait == old(self).paint_wait,
                    self.last_color == old(self).last_color,
                decreases w - x,
            {
                let ghost pre_grid = self.grid();
                proof {
                    assert(self.field@.len() == pre_grid.len());
                    assert(pre_grid[y as int].len() == w as int);
                    assert(self.field@[y as int]@ == pre_grid[y as int]);
                }
                let c = rng_below(&mut self.rng, COLOR_COUNT);
                self.field[y][x] = c;
                proof {
                    assert(self.grid() =~= pre_grid.update(
                        y as int,
                        pre_grid[y as int].update(x as int, c),
                    ));
                }
                x = x + 1;
            }
            y = y + 1;
        }
    }

    /// Advance the simulation by one frame. Terminal states are frozen: the
    /// call then changes nothing at all.
    pub fn update(&mut self, command: Command)
        requires
            old(self).wf(),
            command_ok(command),
            old(self).frame < i32::MAX,
        ensures
            final(self).wf(),
            update_rel(*old(self), *final(self), command),
    {
        if self.is_clear || self.is_over {
            return;
        }

        self.frame = self.frame + 1;

        match self.state {
            State::Controllable => match command {
                Command::Idle => {}
                Command::Paint(color) => {
                    self.paint(color);
                }
            },
            State::Painting => {
                if self.paint_wait > 0 {
                    self.paint_wait = self.paint_wait - 1;
                }
                if self.paint_wait == 0 {
                    self.wave_tick();
                }
            }
        }
    }

    /// One working tick of the reveal wave (the wait gate already passed).
    fn wave_tick(&mut self)
        requires
            old(self).wf(),
            old(self).state == State::Painting,
            !old(self).is_clear && !old(self).is_over,
            old(self).paint_wait == 0,
        ensures
            final(self).wf(),
            work_tick_rel(*old(self), *final(self)),
            final(self).frame == old(self).frame,
            final(self).hover_color == old(self).hover_color,
            final(self).rng == old(self).rng,
    {
        let (mask, found) = compute_effect_mask(&self.field, self.sum, self.last_color);
        self.effect = mask;
        self.sum = self.sum + 1;
        if !found {
            let uniform = grid_is_uniform(&self.field);
            if uniform {
                self.is_clear = true;
                self.requested_sounds.push("bravo.wav");
                proof {
                    assert(self.sounds() =~= old(self).sounds().push("bravo.wav"@));
                }
            } else if ALLOWED_STEP_COUNT - self.painted_count == 0 {
                self.is_over = true;
                self.requested_sounds.push("crash.wav");
                proof {
                    assert(self.sounds() =~= old(self).sounds().push("crash.wav"@));
                }
            }
            self.set_state(State::Controllable);
        } else {
            proof {
                let (yy, xx) = choose|yy: int, xx: int|
                    in_bounds(old(self).grid(), xx, yy) && xx + yy == old(self).sum as int
                        && #[trigger] old(self).grid()[yy][xx] == old(self).last_color;
                assert(old(self).sum as int <= old(self).grid_w() + old(self).grid_h() - 2);
            }
        }
        self.paint_wait = PAINT_WAIT;
    }

    /// Transition between sub-states; entering Painting resets the sweep.
    /// Entering Painting from any state but Controllable is a caller error.
    pub fn set_state(&mut self, new_state: State)
        requires
            new_state == State::Painting ==> old(self).state == State::Controllable,
        ensures
            final(self).state == new_state,
            new_state == State::Painting ==> final(self).sum == 0 && final(self).paint_wait == 0,
            new_state == State::Controllable ==> final(self).sum == old(self).sum
                && final(self).paint_wait == old(self).paint_wait,
            final(self).grid() == old(self).grid(),
            final(self).effects() == old(self).effects(),
            final(self).sounds() == old(self).sounds(),
            final(self).painted_count == old(self).painted_count,
            final(self).is_clear == old(self).is_clear,
            final(self).is_over == old(self).is_over,
            final(self).frame == old(self).frame,
            final(self).hover_color == old(self).hover_color,
            final(self).rng == old(self).rng,
            final(self).last_color == old(self).last_color,
    {
        match new_state {
            State::Controllable => {}
            State::Painting => {
                self.sum = 0;
                self.paint_wait = 0;
            }
        }
        self.state = new_state;
    }

    /// The repaint trigger: reject a color equal to the anchor's (queueing
    /// "ng.wav"), otherwise flood the anchored region, consume a move, and
    /// enter the Painting sub-state.
    pub fn paint(&mut self, color: i32)
        requires
            old(self).wf(),
            0 <= color < COLOR_COUNT,
            old(self).state == State::Controllable,
            !old(self).is_clear && !old(self).is_over,
        ensures
            final(self).wf(),
            paint_rel(*old(self), *final(self), color),
            final(self).frame == old(self).frame,
            final(self).hover_color == old(self).hover_color,
            final(self).rng == old(self).rng,
    {
        let anchor = self.field[0][0];
        if color == anchor {
            self.requested_sounds.push("ng.wav");
            proof {
                assert(self.sounds() =~= old(self).sounds().push("ng.wav"@));
            }
            return;
        }
        self.set_color(0, 0, anchor, color);
        self.painted_count = self.painted_count + 1;
        self.last_color = color;
        self.set_state(State::Painting);
        proof {
            assert(grid_rect(self.grid()));
            assert forall|y: int, x: int|
                0 <= y < self.grid().len() && 0 <= x < self.grid()[y].len() implies 0
                <= #[trigger] self.grid()[y][x] < COLOR_COUNT by {
                assert(in_bounds(old(self).grid(), x, y));
            }
        }
    }

    /// Repaint the maximal 4-connected from_color region containing (x, y)
    /// with to_color; cells outside the region keep their color.
    pub fn set_color(&mut self, x: usize, y: usize, from_color: i32, to_color: i32)
        requires
            old(self).wf(),
            in_bounds(old(self).grid(), x as int, y as int),
            from_color != to_color,
        ensures
            final(self).grid() == region_fill(
                old(self).grid(),
                from_color,
                (x as int, y as int),
                to_color,
            ),
            final(self).effects() == old(self).effects(),
            final(self).sounds() == old(self).sounds(),
            final(self).state == old(self).state,
            final(self).painted_count == old(self).painted_count,
            final(self).is_clear == old(self).is_clear,
            final(self).is_over == old(self).is_over,
            final(self).frame == old(self).frame,
            final(self).hover_color == old(self).hover_color,
            final(self).rng == old(self).rng,
            final(self).sum == old(self).sum,
            final(self).paint_wait == old(self).paint_wait,
            final(self).last_color == old(self).last_color,
    {
        fill_region(&mut self.field, x, y, from_color, to_color);
    }
}

} // verus!
