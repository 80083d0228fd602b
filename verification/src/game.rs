use vstd::prelude::*;
use crate::grid::{grid_dim, grid_seq, TileGrid};
use crate::lemmas::{
    lemma_dead_inv, lemma_eat_full_inv, lemma_eat_inv, lemma_move_inv, lemma_move_positions,
    lemma_pos_index_bound, lemma_pos_index_inj_pair, lemma_snake_room, lemma_start_inv,
    lemma_start_tiles_at, lemma_step_valid,
};
use crate::model::{
    dead_model, eaten_full_model, eaten_model, effective_dir, interior, inv, moved_model, next_of,
    pos_index, prev_of, start_food_spot, start_model, start_snake, start_tile, start_tiles,
    step_pos, tile_at, update_post, valid_pos, Model, FOOD_REWARD, MAX_CELLS,
};
use crate::tiles::{Direction, Tile};

verus! {

/// Relies on `rand::random_range`: a value drawn uniformly from the given
/// range by the thread-local generator. The call panics on an empty range,
/// so that is excluded here; nothing more can be promised of a random draw
/// than its bound.
#[verifier::external_body]
fn random_below(n: usize) -> (r: usize)
    requires
        0 < n,
    ensures
        r < n,
{
    rand::random_range(0..n)
}

/// The aggregate state of one game: the level dimensions, the grid, the
/// cached head and tail coordinates, the current heading, whether the snake
/// is alive, and the score and high score.
///
/// The chain of snake cells and the food cell are carried alongside as ghost
/// data so that the invariant can speak about them; the real information
/// lives in the grid itself.
pub struct GameState {
    level_width: usize,
    level_height: usize,
    tiles: TileGrid,
    snake_head_idx: (usize, usize),
    snake_tail_idx: (usize, usize),
    snake_dir: Direction,
    snake_alive: bool,
    score: u32,
    highscore: u32,
    snake: Ghost<Seq<(int, int)>>,
    food: Ghost<(int, int)>,
}

impl View for GameState {
    type V = Model;

    closed spec fn view(&self) -> Model {
        Model {
            width: self.level_width as int,
            height: self.level_height as int,
            tiles: self.tiles@,
            head: (self.snake_head_idx.0 as int, self.snake_head_idx.1 as int),
            tail: (self.snake_tail_idx.0 as int, self.snake_tail_idx.1 as int),
            dir: self.snake_dir,
            alive: self.snake_alive,
            score: self.score as int,
            highscore: self.highscore as int,
            snake: self.snake@,
            food: self.food@,
        }
    }
}

impl GameState {
    /// The grid buffer was made with the level's dimensions.
    pub closed spec fn grid_fits(&self) -> bool {
        grid_dim(self.tiles) == (self.level_height as nat, self.level_width as nat)
    }

    /// A well-formed state: the invariant holds of its model and the grid
    /// buffer matches the level dimensions.
    pub open spec fn wf(&self) -> bool {
        &&& inv(self@)
        &&& self.grid_fits()
    }

    /// The level dimensions, as `(width, height)`.
    pub fn level_size(&self) -> (r: (usize, usize))
        ensures
            r.0 as int == self@.width,
            r.1 as int == self@.height,
    {
        (self.level_width, self.level_height)
    }

    /// Whether the snake is still alive.
    pub fn snake_alive(&self) -> (r: bool)
        ensures
            r == self@.alive,
    {
        self.snake_alive
    }

    /// The current score.
    pub fn score(&self) -> (r: u32)
        ensures
            r as int == self@.score,
    {
        self.score
    }

    /// The high score carried across games.
    pub fn highscore(&self) -> (r: u32)
        ensures
            r as int == self@.highscore,
    {
        self.highscore
    }

    /// The tile at `(row, column)`.
    pub fn tile_at(&self, y: usize, x: usize) -> (t: Tile)
        requires
            self.wf(),
            (y as int) < self@.height,
            (x as int) < self@.width,
        ensures
            t == tile_at(self@, (y as int, x as int)),
    {
        proof {
            lemma_pos_index_bound(self@, (y as int, x as int));
        }
        self.tiles.get(y, x)
    }

    /// A row-major snapshot of the grid, for rendering.
    pub fn tiles(&self) -> (r: Vec<Tile>)
        requires
            self.wf(),
        ensures
            r@ == self@.tiles,
    {
        let h = self.level_height;
        let w = self.level_width;
        let mut r: Vec<Tile> = Vec::new();
        let mut y: usize = 0;
        while y < h
            invariant
                self.wf(),
                h == self@.height,
                w == self@.width,
                y <= h,
                r@.len() == y * w,
                r@ == self@.tiles.subrange(0, (y * w) as int),
            decreases h - y,
        {
            let mut x: usize = 0;
            while x < w
                invariant
                    self.wf(),
                    h == self@.height,
                    w == self@.width,
                    y < h,
                    x <= w,
                    r@.len() == y * w + x,
                    r@ == self@.tiles.subrange(0, y * w + x),
                decreases w - x,
            {
                proof {
                    lemma_pos_index_bound(self@, (y as int, x as int));
                }
                let t = self.tiles.get(y, x);
                r.push(t);
                proof {
                    assert(r@ =~= self@.tiles.subrange(0, y * w + x + 1));
                }
                x = x + 1;
            }
            proof {
                assert(y * w + w == (y + 1) * w) by (nonlinear_arith);
            }
            y = y + 1;
        }
        proof {
            assert(h * w == self@.width * self@.height) by (nonlinear_arith)
                requires
                    h == self@.height,
                    w == self@.width,
            ;
            assert(r@ =~= self@.tiles);
        }
        r
    }

    /// The neighbouring cell in the given direction, wrapping around the
    /// grid edges.
    fn add_dir(&self, y: usize, x: usize, d: Direction) -> (r: (usize, usize))
        requires
            (y as int) < self@.height,
            (x as int) < self@.width,
            1 <= self@.width,
            1 <= self@.height,
            self@.width * self@.height <= MAX_CELLS,
        ensures
            (r.0 as int, r.1 as int) == step_pos(self@, (y as int, x as int), d),
            (r.0 as int) < self@.height,
            (r.1 as int) < self@.width,
    {
        let h = self.level_height;
        let w = self.level_width;
        proof {
            assert(h <= MAX_CELLS && w <= MAX_CELLS) by (nonlinear_arith)
                requires
                    1 <= w,
                    1 <= h,
                    w * h <= MAX_CELLS,
                    h == self@.height,
                    w == self@.width,
            ;
        }
        match d {
            Direction::Up => {
                proof {
                    if y == 0 {
                        vstd::arithmetic::div_mod::lemma_small_mod((h - 1) as nat, h as nat);
                    } else {
                        vstd::arithmetic::div_mod::lemma_mod_add_multiples_vanish(
                            y as int - 1,
                            h as int,
                        );
                        vstd::arithmetic::div_mod::lemma_small_mod((y - 1) as nat, h as nat);
                    }
                }
                ((y + h - 1) % h, x)
            },
            Direction::Down => {
                proof {
                    if y == h - 1 {
                        vstd::arithmetic::div_mod::lemma_mod_self_0(h as int);
                    } else {
                        vstd::arithmetic::div_mod::lemma_small_mod((y + 1) as nat, h as nat);
                    }
                }
                ((y + 1) % h, x)
            },
            Direction::Left => {
                proof {
                    if x == 0 {
                        vstd::arithmetic::div_mod::lemma_small_mod((w - 1) as nat, w as nat);
                    } else {
                        vstd::arithmetic::div_mod::lemma_mod_add_multiples_vanish(
                            x as int - 1,
                            w as int,
                        );
                        vstd::arithmetic::div_mod::lemma_small_mod((x - 1) as nat, w as nat);
                    }
                }
                (y, (x + w - 1) % w)
            },
            Direction::Right => {
                proof {
                    if x == w - 1 {
                        vstd::arithmetic::div_mod::lemma_mod_self_0(w as int);
                    } else {
                        vstd::arithmetic::div_mod::lemma_small_mod((x + 1) as nat, w as nat);
                    }
                }
                (y, (x + 1) % w)
            },
        }
    }

    /// The link towards the previous segment stored at a snake cell that has
    /// one.
    fn get_snake_prev(&self, y: usize, x: usize) -> (r: Direction)
        requires
            self.grid_fits(),
            (y as int) < self@.height,
            (x as int) < self@.width,
            prev_of(self@, (y as int, x as int)) is Some,
        ensures
            Some(r) == prev_of(self@, (y as int, x as int)),
    {
        proof {
            lemma_pos_index_bound(self@, (y as int, x as int));
        }
        match self.tiles.get(y, x) {
            Tile::Snake(Some(p), _) => p,
            _ => vstd::pervasive::unreached(),
        }
    }

    /// The link towards the next segment stored at a snake cell that has
    /// one.
    fn get_snake_next(&self, y: usize, x: usize) -> (r: Direction)
        requires
            self.grid_fits(),
            (y as int) < self@.height,
            (x as int) < self@.width,
            next_of(self@, (y as int, x as int)) is Some,
        ensures
            Some(r) == next_of(self@, (y as int, x as int)),
    {
        proof {
            lemma_pos_index_bound(self@, (y as int, x as int));
        }
        match self.tiles.get(y, x) {
            Tile::Snake(_, Some(n)) => n,
            _ => vstd::pervasive::unreached(),
        }
    }
}

impl GameState {
    /// The tile the fresh level holds at `(y, x)` before food is placed.
    fn start_tile_exec(w: usize, h: usize, y: usize, x: usize) -> (t: Tile)
        requires
            1 <= w,
            1 <= h,
        ensures
            t == start_tile(w as int, h as int, y as int, x as int),
    {
        if y == 0 || y == h - 1 || x == 0 || x == w - 1 {
            Tile::Wall
        } else if y == 3 && x == 3 {
            Tile::Snake(None, Some(Direction::Right))
        } else if y == 3 && x == 4 {
            Tile::Snake(Some(Direction::Left), Some(Direction::Right))
        } else if y == 3 && x == 5 {
            Tile::Snake(Some(Direction::Left), None)
        } else {
            Tile::Floor
        }
    }

    /// Builds the fresh level's grid: all floor, then the walls and the
    /// initial snake stamped cell by cell.
    fn build_start_grid(w: usize, h: usize) -> (g: TileGrid)
        requires
            7 <= w,
            5 <= h,
            w * h <= MAX_CELLS,
        ensures
            grid_dim(g) == (h as nat, w as nat),
            grid_seq(g) == start_tiles(w as int, h as int),
    {
        proof {
            assert(h * w == w * h && w * h <= usize::MAX) by (nonlinear_arith)
                requires
                    7 <= w,
                    5 <= h,
                    w * h <= MAX_CELLS,
            ;
        }
        let mut g = TileGrid::filled(h, w, Tile::Floor);
        let mut y: usize = 0;
        while y < h
            invariant
                7 <= w,
                5 <= h,
                w * h <= MAX_CELLS,
                y <= h,
                grid_dim(g) == (h as nat, w as nat),
                grid_seq(g).len() == w * h,
                forall|j: int|
                    0 <= j < y * w ==> grid_seq(g)[j] == start_tiles(w as int, h as int)[j],
                forall|j: int| y * w <= j < w * h ==> grid_seq(g)[j] == Tile::Floor,
            decreases h - y,
        {
            let mut x: usize = 0;
            proof {
                assert(y * w + w <= h * w && h * w == w * h) by (nonlinear_arith)
                    requires
                        y < h,
                        7 <= w,
                ;
            }
            while x < w
                invariant
                    7 <= w,
                    5 <= h,
                    w * h <= MAX_CELLS,
                    y < h,
                    x <= w,
                    y * w + w <= w * h,
                    grid_dim(g) == (h as nat, w as nat),
                    grid_seq(g).len() == w * h,
                    forall|j: int|
                        0 <= j < y * w + x ==> grid_seq(g)[j] == start_tiles(w as int, h as int)[j],
                    forall|j: int| y * w + x <= j < w * h ==> grid_seq(g)[j] == Tile::Floor,
                decreases w - x,
            {
                let t = Self::start_tile_exec(w, h, y, x);
                proof {
                    lemma_start_tiles_at(w as int, h as int, y as int, x as int);
                }
                match t {
                    Tile::Floor => {},
                    _ => {
                        g.set(y, x, t);
                    },
                }
                x = x + 1;
            }
            proof {
                assert((y + 1) * w == y * w + w) by (nonlinear_arith);
            }
            y = y + 1;
        }
        proof {
            assert(h * w == w * h) by (nonlinear_arith);
            assert(grid_seq(g) =~= start_tiles(w as int, h as int));
        }
        g
    }

    /// Places a piece of food on a floor cell chosen uniformly at random
    /// among all floor cells. Returns false, leaving the state untouched,
    /// when the board holds no floor cell at all.
    fn spawn_food(&mut self) -> (placed: bool)
        requires
            old(self).grid_fits(),
            1 <= old(self)@.width,
            1 <= old(self)@.height,
            old(self)@.width * old(self)@.height <= MAX_CELLS,
            old(self)@.tiles.len() == old(self)@.width * old(self)@.height,
        ensures
            final(self).grid_fits(),
            placed ==> exists|f: (int, int)|
                valid_pos(old(self)@, f) && tile_at(old(self)@, f) is Floor && final(self)@ == (
                Model {
                    tiles: old(self)@.tiles.update(pos_index(old(self)@, f), Tile::Food),
                    food: f,
                    ..old(self)@
                }),
            !placed ==> final(self)@ == old(self)@ && (forall|p: (int, int)|
                valid_pos(old(self)@, p) ==> !((#[trigger] tile_at(old(self)@, p)) is Floor)),
    {
        let h = self.level_height;
        let w = self.level_width;
        let mut floors: Vec<(usize, usize)> = Vec::new();
        let mut y: usize = 0;
        while y < h
            invariant
                *self == *old(self),
                self.grid_fits(),
                h == self@.height,
                w == self@.width,
                1 <= w,
                1 <= h,
                w * h <= MAX_CELLS,
                self@.tiles.len() == w * h,
                y <= h,
                forall|k: int|
                    0 <= k < floors@.len() ==> (#[trigger] floors@[k]).0 < h && floors@[k].1 < w
                        && tile_at(self@, (floors@[k].0 as int, floors@[k].1 as int)) is Floor,
                floors@.len() == 0 ==> (forall|j: int|
                    0 <= j < y * w ==> !((#[trigger] self@.tiles[j]) is Floor)),
            decreases h - y,
        {
            let mut x: usize = 0;
            proof {
                assert(y * w + w <= h * w && h * w == w * h) by (nonlinear_arith)
                    requires
                        y < h,
                        1 <= w,
                ;
            }
            while x < w
                invariant
                    *self == *old(self),
                    self.grid_fits(),
                    h == self@.height,
                    w == self@.width,
                    1 <= w,
                    1 <= h,
                    w * h <= MAX_CELLS,
                    self@.tiles.len() == w * h,
                    y < h,
                    x <= w,
                    y * w + w <= w * h,
                    forall|k: int|
                        0 <= k < floors@.len() ==> (#[trigger] floors@[k]).0 < h && floors@[k].1
                            < w && tile_at(
                            self@,
                            (floors@[k].0 as int, floors@[k].1 as int),
                        ) is Floor,
                    floors@.len() == 0 ==> (forall|j: int|
                        0 <= j < y * w + x ==> !((#[trigger] self@.tiles[j]) is Floor)),
                decreases w - x,
            {
                proof {
                    lemma_pos_index_bound(self@, (y as int, x as int));
                }
                let t = self.tiles.get(y, x);
                match t {
                    Tile::Floor => {
                        floors.push((y, x));
                    },
                    _ => {},
                }
                x = x + 1;
            }
            proof {
                assert((y + 1) * w == y * w + w) by (nonlinear_arith);
            }
            y = y + 1;
        }
        if floors.len() == 0 {
            proof {
                assert forall|p: (int, int)| valid_pos(old(self)@, p) implies !((#[trigger] tile_at(
                    old(self)@,
                    p,
                )) is Floor) by {
                    lemma_pos_index_bound(old(self)@, p);
                    assert(h * w == w * h) by (nonlinear_arith);
                }
            }
            return false;
        }
        let k = random_below(floors.len());
        let (fy, fx) = floors[k];
        proof {
            assert(tile_at(self@, (fy as int, fx as int)) is Floor);
            lemma_pos_index_bound(self@, (fy as int, fx as int));
        }
        self.tiles.set(fy, fx, Tile::Food);
        self.food = Ghost((fy as int, fx as int));
        proof {
            let f = (fy as int, fx as int);
            assert(valid_pos(old(self)@, f));
            assert(tile_at(old(self)@, f) is Floor);
            assert(self@ =~= (Model {
                tiles: old(self)@.tiles.update(pos_index(old(self)@, f), Tile::Food),
                food: f,
                ..old(self)@
            }));
        }
        true
    }

    /// A fresh game: a walled level of the given size, a three-segment
    /// snake heading right, score zero, the given high score carried over,
    /// and one piece of food on a random floor cell.
    pub fn new(level_width: usize, level_height: usize, highscore: u32) -> (s: GameState)
        requires
            7 <= level_width,
            5 <= level_height,
            level_width * level_height <= MAX_CELLS,
        ensures
            s.wf(),
            s@.width == level_width as int,
            s@.height == level_height as int,
            s@.highscore == highscore as int,
            s@.score == 0,
            s@.alive,
            exists|f: (int, int)|
                start_food_spot(level_width as int, level_height as int, f) && s@ == start_model(
                    level_width as int,
                    level_height as int,
                    highscore as int,
                    f,
                ),
    {
        let w = level_width;
        let h = level_height;
        let tiles = Self::build_start_grid(w, h);
        let mut s = GameState {
            level_width: w,
            level_height: h,
            tiles: tiles,
            snake_head_idx: (3, 5),
            snake_tail_idx: (3, 3),
            snake_dir: Direction::Right,
            snake_alive: true,
            score: 0,
            highscore: highscore,
            snake: Ghost(start_snake()),
            food: Ghost((0int, 0int)),
        };
        let ghost inter = s@;
        proof {
            assert(inter.tiles == start_tiles(w as int, h as int));
            assert(inter.tiles.len() == w * h) by {
                assert(0 <= w * h) by (nonlinear_arith)
                    requires
                        7 <= w,
                        5 <= h,
                ;
            }
        }
        let placed = s.spawn_food();
        proof {
            // The cell (1, 1) is interior, off the snake, and therefore
            // floor: food placement cannot have failed.
            lemma_start_tiles_at(w as int, h as int, 1, 1);
            assert(tile_at(inter, (1int, 1int)) is Floor);
            if !placed {
                assert(false);
            }
            let f = choose|f: (int, int)|
                valid_pos(inter, f) && tile_at(inter, f) is Floor && s@ == (Model {
                    tiles: inter.tiles.update(pos_index(inter, f), Tile::Food),
                    food: f,
                    ..inter
                });
            lemma_start_tiles_at(w as int, h as int, f.0, f.1);
            assert(start_tile(w as int, h as int, f.0, f.1) is Floor);
            assert(start_food_spot(w as int, h as int, f));
            assert(s@ =~= start_model(w as int, h as int, highscore as int, f));
            lemma_start_inv(w as int, h as int, highscore as int, f);
        }
        s
    }

    /// A fresh game with the first piece of food at the given interior
    /// floor cell. The resulting state is pinned down exactly.
    pub fn new_with_food(
        level_width: usize,
        level_height: usize,
        highscore: u32,
        food_y: usize,
        food_x: usize,
    ) -> (s: GameState)
        requires
            7 <= level_width,
            5 <= level_height,
            level_width * level_height <= MAX_CELLS,
            start_food_spot(
                level_width as int,
                level_height as int,
                (food_y as int, food_x as int),
            ),
        ensures
            s.wf(),
            s@ == start_model(
                level_width as int,
                level_height as int,
                highscore as int,
                (food_y as int, food_x as int),
            ),
    {
        let w = level_width;
        let h = level_height;
        let mut tiles = Self::build_start_grid(w, h);
        proof {
            lemma_start_tiles_at(w as int, h as int, food_y as int, food_x as int);
        }
        tiles.set(food_y, food_x, Tile::Food);
        let s = GameState {
            level_width: w,
            level_height: h,
            tiles: tiles,
            snake_head_idx: (3, 5),
            snake_tail_idx: (3, 3),
            snake_dir: Direction::Right,
            snake_alive: true,
            score: 0,
            highscore: highscore,
            snake: Ghost(start_snake()),
            food: Ghost((food_y as int, food_x as int)),
        };
        proof {
            let f = (food_y as int, food_x as int);
            assert(s@ =~= start_model(w as int, h as int, highscore as int, f));
            lemma_start_inv(w as int, h as int, highscore as int, f);
        }
        s
    }

    /// Starts a new game on the same level, discarding the board and the
    /// score but carrying the high score forward.
    pub fn reset(&mut self)
        requires
            old(self).wf(),
        ensures
            final(self).wf(),
            final(self)@.width == old(self)@.width,
            final(self)@.height == old(self)@.height,
            final(self)@.highscore == old(self)@.highscore,
            final(self)@.score == 0,
            final(self)@.alive,
            exists|f: (int, int)|
                start_food_spot(old(self)@.width, old(self)@.height, f) && final(self)@
                    == start_model(
                    old(self)@.width,
                    old(self)@.height,
                    old(self)@.highscore,
                    f,
                ),
    {
        *self = GameState::new(self.level_width, self.level_height, self.highscore);
    }
}

impl Default for GameState {
    /// The default game: a 40 by 30 level with no high score yet.
    fn default() -> (s: Self)
        ensures
            s.wf(),
            s@.width == 40,
            s@.height == 30,
            s@.highscore == 0,
            s@.score == 0,
            s@.alive,
    {
        GameState::new(40, 30, 0)
    }
}

impl GameState {
    /// Kills the snake after a collision: the grid is untouched and the
    /// high score latches the score if it is larger.
    fn apply_collision(&mut self, Ghost(pre): Ghost<Model>)
        requires
            inv(pre),
            old(self).grid_fits(),
            old(self)@ == (Model { dir: old(self)@.dir, ..pre }),
            pre.alive,
        ensures
            final(self).wf(),
            final(self)@ == dead_model(pre, old(self)@.dir),
    {
        let ghost d = self@.dir;
        self.snake_alive = false;
        if self.score > self.highscore {
            self.highscore = self.score;
        }
        proof {
            assert(self@ =~= dead_model(pre, d));
            lemma_dead_inv(pre, d);
        }
    }

    /// Moves the snake one cell onto floor: the head advances and the tail
    /// follows.
    fn apply_move(&mut self, Ghost(pre): Ghost<Model>)
        requires
            inv(pre),
            old(self).grid_fits(),
            old(self)@ == (Model { dir: old(self)@.dir, ..pre }),
            tile_at(pre, step_pos(pre, pre.head, old(self)@.dir)) is Floor,
        ensures
            final(self).wf(),
            final(self)@ == moved_model(pre, old(self)@.dir),
    {
        let d = self.snake_dir;
        let ghost nh = step_pos(pre, pre.head, d);
        let ghost nt = step_pos(pre, pre.tail, next_of(pre, pre.tail)->0);
        proof {
            assert(pre.head == pre.snake[pre.snake.len() - 1]);
            assert(interior(pre, pre.snake[pre.snake.len() - 1]));
            assert(pre.tail == pre.snake[0]);
            assert(interior(pre, pre.snake[0]));
            assert(next_of(pre, pre.snake[0]) is Some);
            lemma_move_positions(pre, d);
            lemma_pos_index_bound(pre, pre.head);
            lemma_pos_index_bound(pre, pre.tail);
            lemma_pos_index_bound(pre, nh);
            lemma_pos_index_bound(pre, nt);
        }
        let (hy, hx) = self.snake_head_idx;
        let (nhy, nhx) = self.add_dir(hy, hx, d);
        let (ty, tx) = self.snake_tail_idx;
        let tnext = self.get_snake_next(ty, tx);
        let (nty, ntx) = self.add_dir(ty, tx, tnext);
        proof {
            assert((nhy as int, nhx as int) == nh);
            assert((nty as int, ntx as int) == nt);
        }
        let hprev = self.get_snake_prev(hy, hx);
        self.tiles.set(hy, hx, Tile::Snake(Some(hprev), Some(d)));
        self.tiles.set(nhy, nhx, Tile::Snake(Some(d.reverse()), None));
        self.snake_head_idx = (nhy, nhx);
        self.tiles.set(ty, tx, Tile::Floor);
        proof {
            // The new tail cell is none of the three cells written so far,
            // so its link is still the old one.
            assert(nt == pre.snake[1]);
            assert(nt != pre.head && nt != pre.tail && nt != nh);
            if pos_index(pre, nt) == pos_index(pre, pre.head) {
                lemma_pos_index_inj_pair(pre, nt, pre.head);
            }
            if pos_index(pre, nt) == pos_index(pre, nh) {
                lemma_pos_index_inj_pair(pre, nt, nh);
            }
            if pos_index(pre, nt) == pos_index(pre, pre.tail) {
                lemma_pos_index_inj_pair(pre, nt, pre.tail);
            }
            assert(tile_at(self@, nt) == tile_at(pre, nt));
            assert(next_of(self@, nt) == next_of(pre, nt));
            assert(next_of(pre, pre.snake[1]) is Some);
        }
        let ntnext = self.get_snake_next(nty, ntx);
        self.tiles.set(nty, ntx, Tile::Snake(None, Some(ntnext)));
        self.snake_tail_idx = (nty, ntx);
        self.snake = Ghost(pre.snake.subrange(1, pre.snake.len() as int).push(nh));
        proof {
            assert(Some(ntnext) == next_of(pre, nt));
            assert(self@ =~= moved_model(pre, d));
            lemma_move_inv(pre, d);
        }
    }

    /// Moves the head onto the food cell: the snake grows by one segment,
    /// the score rises by the reward, and new food is spawned if any floor
    /// is left.
    fn apply_eat(&mut self, Ghost(pre): Ghost<Model>)
        requires
            inv(pre),
            old(self).grid_fits(),
            old(self)@ == (Model { dir: old(self)@.dir, ..pre }),
            tile_at(pre, step_pos(pre, pre.head, old(self)@.dir)) is Food,
        ensures
            final(self).wf(),
            ({
                let d = old(self)@.dir;
                ||| (exists|f: (int, int)|
                    valid_pos(pre, f) && tile_at(pre, f) is Floor && final(self)@ == eaten_model(
                        pre,
                        d,
                        f,
                    ))
                ||| (final(self)@ == eaten_full_model(pre, d) && (forall|p: (int, int)|
                    valid_pos(pre, p) ==> !((#[trigger] tile_at(pre, p)) is Floor)))
            }),
    {
        let d = self.snake_dir;
        let ghost nh = step_pos(pre, pre.head, d);
        proof {
            assert(pre.head == pre.snake[pre.snake.len() - 1]);
            assert(interior(pre, pre.snake[pre.snake.len() - 1]));
            lemma_move_positions(pre, d);
            lemma_pos_index_bound(pre, pre.head);
            lemma_pos_index_bound(pre, nh);
            assert(pre.head != nh) by {
                assert(tile_at(pre, pre.head) is Snake);
            }
            if pos_index(pre, pre.head) == pos_index(pre, nh) {
                lemma_pos_index_inj_pair(pre, pre.head, nh);
            }
        }
        let (hy, hx) = self.snake_head_idx;
        let (nhy, nhx) = self.add_dir(hy, hx, d);
        proof {
            assert((nhy as int, nhx as int) == nh);
        }
        let hprev = self.get_snake_prev(hy, hx);
        self.tiles.set(hy, hx, Tile::Snake(Some(hprev), Some(d)));
        self.tiles.set(nhy, nhx, Tile::Snake(Some(d.reverse()), None));
        self.snake_head_idx = (nhy, nhx);
        proof {
            lemma_snake_room(pre, d);
            assert(pre.score == FOOD_REWARD * (pre.snake.len() - 3));
            assert(pre.snake.len() + 1 <= MAX_CELLS);
        }
        self.score = self.score + FOOD_REWARD;
        self.snake = Ghost(pre.snake.push(nh));
        let ghost inter = self@;
        proof {
            assert(inter =~= eaten_full_model(pre, d));
            assert(inter.tiles.len() == inter.width * inter.height);
        }
        let placed = self.spawn_food();
        proof {
            // Floor cells of the intermediate board are floor cells of the
            // old board: only the two head cells changed, and neither was
            // floor.
            assert forall|p: (int, int)|
                valid_pos(pre, p) && p != pre.head && p != nh implies #[trigger] tile_at(inter, p)
                    == tile_at(pre, p) by {
                lemma_pos_index_bound(pre, p);
                if pos_index(pre, p) == pos_index(pre, pre.head) {
                    lemma_pos_index_inj_pair(pre, p, pre.head);
                }
                if pos_index(pre, p) == pos_index(pre, nh) {
                    lemma_pos_index_inj_pair(pre, p, nh);
                }
            }
            assert(tile_at(pre, pre.head) is Snake);
            if placed {
                let f = choose|f: (int, int)|
                    valid_pos(inter, f) && tile_at(inter, f) is Floor && self@ == (Model {
                        tiles: inter.tiles.update(pos_index(inter, f), Tile::Food),
                        food: f,
                        ..inter
                    });
                assert(tile_at(inter, f) is Floor);
                assert(f != pre.head && f != nh) by {
                    assert(tile_at(inter, pre.head) == Tile::Snake(Some(hprev), Some(d)));
                    assert(tile_at(inter, nh) == Tile::Snake(Some(d.spec_reverse()), None));
                }
                assert(tile_at(pre, f) is Floor);
                assert(self@ =~= eaten_model(pre, d, f));
                lemma_eat_inv(pre, d, f);
                assert(valid_pos(pre, f));
            } else {
                assert(self@ == inter);
                assert(self@ =~= eaten_full_model(pre, d));
                assert forall|p: (int, int)| valid_pos(pre, p) implies !((#[trigger] tile_at(
                    pre,
                    p,
                )) is Floor) by {
                    assert(valid_pos(inter, p));
                    assert(!(tile_at(inter, p) is Floor));
                    if p != pre.head && p != nh {
                        assert(tile_at(inter, p) == tile_at(pre, p));
                    } else {
                        assert(tile_at(pre, pre.head) is Snake);
                        assert(tile_at(pre, nh) is Food);
                    }
                }
                lemma_eat_full_inv(pre, d);
            }
        }
    }

    /// One tick of the game.
    ///
    /// A queued direction is adopted unless it is the exact reverse of the
    /// current heading. The head then steps one cell in the heading: a wall
    /// or snake cell kills the snake and latches the high score, a floor
    /// cell moves the snake, and the food cell grows it by one segment,
    /// awards the reward, and spawns new food. A dead snake is left
    /// entirely untouched.
    pub fn update(&mut self, input: Option<Direction>)
        requires
            old(self).wf(),
        ensures
            final(self).wf(),
            update_post(old(self)@, final(self)@, input),
            final(self)@.width == old(self)@.width,
            final(self)@.height == old(self)@.height,
            !old(self)@.alive ==> final(self)@ == old(self)@,
            old(self)@.alive ==> final(self)@.dir == effective_dir(old(self)@.dir, input),
            old(self)@.alive && input == Some(old(self)@.dir.spec_reverse()) ==> final(self)@.dir
                == old(self)@.dir,
            final(self)@.score >= old(self)@.score,
            final(self)@.highscore >= old(self)@.highscore,
    {
        let ghost pre = old(self)@;

        // A dead snake is left untouched.
        if !self.snake_alive {
            return ;
        }
        // Adopt the queued direction, unless it would reverse in place.
        if let Some(nd) = input {
            if !(nd == self.snake_dir.reverse()) {
                self.snake_dir = nd;
            }
        }
        let d = self.snake_dir;
        proof {
            assert(d == effective_dir(pre.dir, input));
            assert(self@ == (Model { dir: d, ..pre }));
            assert(pre.head == pre.snake[pre.snake.len() - 1]);
            assert(interior(pre, pre.snake[pre.snake.len() - 1]));
            lemma_pos_index_bound(pre, step_pos(pre, pre.head, d));
            lemma_step_valid(pre, pre.head, d);
        }
        // Inspect the cell the head is about to enter.
        let (hy, hx) = self.snake_head_idx;
        let (nhy, nhx) = self.add_dir(hy, hx, d);
        let target = self.tiles.get(nhy, nhx);
        proof {
            assert(target == tile_at(pre, step_pos(pre, pre.head, d)));
        }
        match target {
            Tile::Wall | Tile::Snake(_, _) => {
                self.apply_collision(Ghost(pre));
            },
            Tile::Food => {
                self.apply_eat(Ghost(pre));
            },
            Tile::Floor => {
                self.apply_move(Ghost(pre));
            },
        }
    }
}

} // verus!
