use vstd::prelude::*;
use crate::tiles::{Direction, Tile};

verus! {

/// The largest number of cells a level may have. Each food eaten grows the
/// snake by one cell and awards 10 points, so with at most this many cells
/// the score can never overflow a `u32`.
pub const MAX_CELLS: usize = 4294967295 / 10;

/// The points awarded for one piece of food.
pub const FOOD_REWARD: u32 = 10;

/// The mathematical model of a game state.
///
/// `tiles` is the grid in row-major order; positions are `(row, column)`
/// pairs. `snake` is the chain of occupied cells from tail to head, and
/// `food` the cell holding the current piece of food.
#[verifier::ext_equal]
pub ghost struct Model {
    pub width: int,
    pub height: int,
    pub tiles: Seq<Tile>,
    pub head: (int, int),
    pub tail: (int, int),
    pub dir: Direction,
    pub alive: bool,
    pub score: int,
    pub highscore: int,
    pub snake: Seq<(int, int)>,
    pub food: (int, int),
}

/// A position that lies on the grid.
pub open spec fn valid_pos(m: Model, p: (int, int)) -> bool {
    &&& 0 <= p.0 < m.height
    &&& 0 <= p.1 < m.width
}

/// A position strictly inside the wall ring.
pub open spec fn interior(m: Model, p: (int, int)) -> bool {
    &&& 1 <= p.0 < m.height - 1
    &&& 1 <= p.1 < m.width - 1
}

/// A position on the wall ring.
pub open spec fn on_border(m: Model, p: (int, int)) -> bool {
    p.0 == 0 || p.0 == m.height - 1 || p.1 == 0 || p.1 == m.width - 1
}

/// The row-major index of a position.
pub open spec fn pos_index(m: Model, p: (int, int)) -> int {
    p.0 * m.width + p.1
}

/// The tile at a position.
pub open spec fn tile_at(m: Model, p: (int, int)) -> Tile {
    m.tiles[pos_index(m, p)]
}

/// The link towards the next segment (closer to the head) stored at a
/// position, if the position holds a snake segment with such a link.
pub open spec fn next_of(m: Model, p: (int, int)) -> Option<Direction> {
    match tile_at(m, p) {
        Tile::Snake(_, n) => n,
        _ => None,
    }
}

/// The link towards the previous segment (closer to the tail) stored at a
/// position, if the position holds a snake segment with such a link.
pub open spec fn prev_of(m: Model, p: (int, int)) -> Option<Direction> {
    match tile_at(m, p) {
        Tile::Snake(pr, _) => pr,
        _ => None,
    }
}

/// The neighbouring position in the given direction, wrapping around the
/// grid edges.
pub open spec fn step_pos(m: Model, p: (int, int), d: Direction) -> (int, int) {
    match d {
        Direction::Up => (if p.0 == 0 { m.height - 1 } else { p.0 - 1 }, p.1),
        Direction::Down => (if p.0 == m.height - 1 { 0 } else { p.0 + 1 }, p.1),
        Direction::Left => (p.0, if p.1 == 0 { m.width - 1 } else { p.1 - 1 }),
        Direction::Right => (p.0, if p.1 == m.width - 1 { 0 } else { p.1 + 1 }),
    }
}

/// The level has room for the initial snake and the wall ring, few enough
/// cells that the score cannot overflow, and a tile sequence of matching
/// length.
pub open spec fn dims_ok(m: Model) -> bool {
    &&& 7 <= m.width
    &&& 5 <= m.height
    &&& m.width * m.height <= MAX_CELLS
    &&& m.tiles.len() == m.width * m.height
}

/// Every cell of the border ring is a wall.
pub open spec fn border_walls(m: Model) -> bool {
    forall|p: (int, int)|
        valid_pos(m, p) && on_border(m, p) ==> #[trigger] tile_at(m, p) == Tile::Wall
}

/// The snake chain: `m.snake` lists, from tail to head, pairwise distinct
/// interior cells that all hold `Snake` tiles; the stored links walk the
/// chain in both directions; every `Snake` tile on the grid belongs to the
/// chain; and the cached head and tail positions match its ends.
pub open spec fn chain_ok(m: Model) -> bool {
    let sn = m.snake;
    let len = sn.len() as int;
    &&& 3 <= len
    &&& forall|i: int| 0 <= i < len ==> interior(m, #[trigger] sn[i])
    &&& forall|i: int| 0 <= i < len ==> (#[trigger] tile_at(m, sn[i])) is Snake
    &&& forall|i: int| 0 <= i < len - 1 ==> (#[trigger] next_of(m, sn[i])) is Some
    &&& forall|i: int|
        0 <= i < len - 1 ==> step_pos(m, #[trigger] sn[i], next_of(m, sn[i])->0) == sn[i + 1]
    &&& next_of(m, sn[len - 1]) is None
    &&& prev_of(m, sn[0]) is None
    &&& forall|i: int|
        1 <= i < len ==> #[trigger] prev_of(m, sn[i]) == Some(
            next_of(m, sn[i - 1])->0.spec_reverse(),
        )
    &&& forall|i: int, j: int| #![trigger sn[i], sn[j]] 0 <= i < j < len ==> sn[i] != sn[j]
    &&& forall|p: (int, int)|
        valid_pos(m, p) && (#[trigger] tile_at(m, p)) is Snake ==> sn.contains(p)
    &&& m.head == sn[len - 1]
    &&& m.tail == sn[0]
}

/// Either exactly one food tile lies on the grid, at the cached interior
/// position `m.food`, or the board is saturated: no food and no floor is
/// left anywhere.
pub open spec fn food_ok(m: Model) -> bool {
    ||| {
        &&& interior(m, m.food)
        &&& tile_at(m, m.food) == Tile::Food
        &&& forall|p: (int, int)|
            valid_pos(m, p) && (#[trigger] tile_at(m, p)) is Food ==> p == m.food
    }
    ||| forall|p: (int, int)|
        valid_pos(m, p) ==> !((#[trigger] tile_at(m, p)) is Food) && !(tile_at(m, p) is Floor)
}

/// The score counts the food eaten so far: 10 points for each segment grown
/// beyond the initial three.
pub open spec fn score_ok(m: Model) -> bool {
    m.score == FOOD_REWARD * (m.snake.len() - 3)
}

/// The state invariant: it holds after construction and after every update.
pub open spec fn inv(m: Model) -> bool {
    &&& dims_ok(m)
    &&& border_walls(m)
    &&& chain_ok(m)
    &&& food_ok(m)
    &&& score_ok(m)
}

/// The heading adopted on a tick: a queued direction is taken over unless it
/// is the exact reverse of the current heading, which is always rejected.
pub open spec fn effective_dir(cur: Direction, input: Option<Direction>) -> Direction {
    match input {
        Some(d) => if d == cur.spec_reverse() {
            cur
        } else {
            d
        },
        None => cur,
    }
}

/// The state after a tick that ran into a wall or a snake segment: the grid
/// is untouched, the snake dies, and the high score latches the final score
/// if it is larger.
pub open spec fn dead_model(pre: Model, d: Direction) -> Model {
    Model {
        dir: d,
        alive: false,
        highscore: if pre.score > pre.highscore {
            pre.score
        } else {
            pre.highscore
        },
        ..pre
    }
}

/// The state after a normal step onto a floor cell: the old head cell gains
/// a next link in the direction of travel, the stepped-to cell becomes the
/// new head, the old tail cell is cleared, and the following segment becomes
/// the new tail.
pub open spec fn moved_model(pre: Model, d: Direction) -> Model {
    let nh = step_pos(pre, pre.head, d);
    let nt = step_pos(pre, pre.tail, next_of(pre, pre.tail)->0);
    Model {
        tiles: pre.tiles.update(
            pos_index(pre, pre.head),
            Tile::Snake(prev_of(pre, pre.head), Some(d)),
        ).update(pos_index(pre, nh), Tile::Snake(Some(d.spec_reverse()), None)).update(
            pos_index(pre, pre.tail),
            Tile::Floor,
        ).update(pos_index(pre, nt), Tile::Snake(None, next_of(pre, nt))),
        head: nh,
        tail: nt,
        dir: d,
        snake: pre.snake.subrange(1, pre.snake.len() as int).push(nh),
        ..pre
    }
}

/// The state after a step onto the food cell: the head moves as in
/// `moved_model` but the tail stays, so the snake grows by one segment; the
/// score rises by the reward and a new piece of food appears on the floor
/// cell `f`.
pub open spec fn eaten_model(pre: Model, d: Direction, f: (int, int)) -> Model {
    let nh = step_pos(pre, pre.head, d);
    Model {
        tiles: pre.tiles.update(
            pos_index(pre, pre.head),
            Tile::Snake(prev_of(pre, pre.head), Some(d)),
        ).update(pos_index(pre, nh), Tile::Snake(Some(d.spec_reverse()), None)).update(
            pos_index(pre, f),
            Tile::Food,
        ),
        head: nh,
        dir: d,
        snake: pre.snake.push(nh),
        score: pre.score + FOOD_REWARD,
        food: f,
        ..pre
    }
}

/// The state after a step onto the food cell when the grown snake saturates
/// the board: as `eaten_model`, but no floor cell is left to receive a new
/// piece of food.
pub open spec fn eaten_full_model(pre: Model, d: Direction) -> Model {
    let nh = step_pos(pre, pre.head, d);
    Model {
        tiles: pre.tiles.update(
            pos_index(pre, pre.head),
            Tile::Snake(prev_of(pre, pre.head), Some(d)),
        ).update(pos_index(pre, nh), Tile::Snake(Some(d.spec_reverse()), None)),
        head: nh,
        dir: d,
        snake: pre.snake.push(nh),
        score: pre.score + FOOD_REWARD,
        ..pre
    }
}

/// The tile the fresh level holds at `(y, x)` before food is placed: walls
/// on the border ring, a three-segment snake at `(3, 3)`..`(3, 5)` heading
/// right, floor everywhere else.
pub open spec fn start_tile(w: int, h: int, y: int, x: int) -> Tile {
    if y == 0 || y == h - 1 || x == 0 || x == w - 1 {
        Tile::Wall
    } else if y == 3 && x == 3 {
        Tile::Snake(None, Some(Direction::Right))
    } else if y == 3 && x == 4 {
        Tile::Snake(Some(Direction::Left), Some(Direction::Right))
    } else if y == 3 && x == 5 {
        Tile::Snake(Some(Direction::Left), None)
    } else {
        Tile::Floor
    }
}

/// The fresh level's grid before food is placed, row-major.
pub open spec fn start_tiles(w: int, h: int) -> Seq<Tile> {
    Seq::new((w * h) as nat, |i: int| start_tile(w, h, i / w, i % w))
}

/// A cell on which the fresh level may place its first piece of food: any
/// interior cell off the initial snake.
pub open spec fn start_food_spot(w: int, h: int, f: (int, int)) -> bool {
    &&& 1 <= f.0 < h - 1
    &&& 1 <= f.1 < w - 1
    &&& !(f.0 == 3 && 3 <= f.1 <= 5)
}

/// The initial chain of snake positions, tail to head.
pub open spec fn start_snake() -> Seq<(int, int)> {
    seq![(3int, 3int), (3int, 4int), (3int, 5int)]
}

/// A freshly constructed state with food at `f`.
pub open spec fn start_model(w: int, h: int, hs: int, f: (int, int)) -> Model {
    Model {
        width: w,
        height: h,
        tiles: start_tiles(w, h).update(f.0 * w + f.1, Tile::Food),
        head: (3, 5),
        tail: (3, 3),
        dir: Direction::Right,
        alive: true,
        score: 0,
        highscore: hs,
        snake: start_snake(),
        food: f,
    }
}

/// The full per-tick transition relation: what one `update` call does to
/// the model.
///
/// A dead snake is left untouched. Otherwise the effective heading is
/// adopted and the cell ahead decides: wall or snake kills, floor moves the
/// snake, food grows it and either a new piece of food lands on some floor
/// cell or, on a saturated board, none can.
pub open spec fn update_post(pre: Model, post: Model, input: Option<Direction>) -> bool {
    if !pre.alive {
        post == pre
    } else {
        let d = effective_dir(pre.dir, input);
        let nh = step_pos(pre, pre.head, d);
        match tile_at(pre, nh) {
            Tile::Wall => post == dead_model(pre, d),
            Tile::Snake(_, _) => post == dead_model(pre, d),
            Tile::Floor => post == moved_model(pre, d),
            Tile::Food => {
                ||| (exists|f: (int, int)|
                    valid_pos(pre, f) && tile_at(pre, f) is Floor && post == eaten_model(
                        pre,
                        d,
                        f,
                    ))
                ||| (post == eaten_full_model(pre, d) && (forall|p: (int, int)|
                    valid_pos(pre, p) ==> !((#[trigger] tile_at(pre, p)) is Floor)))
            },
        }
    }
}

} // verus!
