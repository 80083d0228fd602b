use vstd::prelude::*;
use crate::model::{
    border_walls, chain_ok, dead_model, dims_ok, eaten_full_model, eaten_model, food_ok, interior,
    inv, moved_model, next_of, on_border, pos_index, prev_of, score_ok, start_food_spot,
    start_model, start_snake, start_tile, start_tiles, step_pos, tile_at, valid_pos, Model,
    MAX_CELLS,
};
use crate::tiles::{Direction, Tile};

verus! {

/// Two grid positions with the same row-major index are the same position.
pub proof fn lemma_pos_index_inj_pair(m: Model, p: (int, int), q: (int, int))
    requires
        valid_pos(m, p),
        valid_pos(m, q),
        pos_index(m, p) == pos_index(m, q),
    ensures
        p == q,
{
    vstd::arithmetic::div_mod::lemma_fundamental_div_mod_converse(
        pos_index(m, p),
        m.width,
        p.0,
        p.1,
    );
    vstd::arithmetic::div_mod::lemma_fundamental_div_mod_converse(
        pos_index(m, q),
        m.width,
        q.0,
        q.1,
    );
}

/// The row-major index of a grid position lies within the tile sequence.
pub proof fn lemma_pos_index_bound(m: Model, p: (int, int))
    by (nonlinear_arith)
    requires
        valid_pos(m, p),
    ensures
        0 <= pos_index(m, p) < m.width * m.height,
{
}

/// All distinctness and bound facts about row-major indices at once.
pub proof fn lemma_pos_index_inj(m: Model)
    ensures
        forall|p: (int, int), q: (int, int)|
            valid_pos(m, p) && valid_pos(m, q) && #[trigger] pos_index(m, p)
                == #[trigger] pos_index(m, q) ==> p == q,
        forall|p: (int, int)|
            valid_pos(m, p) ==> 0 <= #[trigger] pos_index(m, p) < m.width * m.height,
{
    assert forall|p: (int, int), q: (int, int)|
        valid_pos(m, p) && valid_pos(m, q) && #[trigger] pos_index(m, p) == #[trigger] pos_index(
            m,
            q,
        ) implies p == q by {
        lemma_pos_index_inj_pair(m, p, q);
    }
    assert forall|p: (int, int)| valid_pos(m, p) implies 0 <= #[trigger] pos_index(m, p)
        < m.width * m.height by {
        lemma_pos_index_bound(m, p);
    }
}

/// Stepping from a grid position lands on a grid position.
pub proof fn lemma_step_valid(m: Model, p: (int, int), d: Direction)
    requires
        valid_pos(m, p),
        1 <= m.width,
        1 <= m.height,
    ensures
        valid_pos(m, step_pos(m, p, d)),
{
}

/// Stepping and then stepping back in the opposite direction returns to the
/// starting position.
pub proof fn lemma_step_reverse(m: Model, p: (int, int), d: Direction)
    requires
        valid_pos(m, p),
        1 <= m.width,
        1 <= m.height,
    ensures
        step_pos(m, step_pos(m, p, d), d.spec_reverse()) == p,
{
}

/// A sequence of pairwise distinct grid positions cannot be longer than the
/// number of cells.
pub proof fn lemma_distinct_positions_bound(m: Model, sn: Seq<(int, int)>)
    requires
        0 <= m.width,
        0 <= m.height,
        forall|i: int| 0 <= i < sn.len() ==> valid_pos(m, #[trigger] sn[i]),
        forall|i: int, j: int| #![trigger sn[i], sn[j]] 0 <= i < j < sn.len() ==> sn[i] != sn[j],
    ensures
        sn.len() <= m.width * m.height,
{
    broadcast use vstd::seq_lib::group_seq_properties;

    let idxs = sn.map_values(|p: (int, int)| pos_index(m, p));
    assert forall|i: int, j: int|
        0 <= i < idxs.len() && 0 <= j < idxs.len() && i != j implies idxs[i] != idxs[j] by {
        if idxs[i] == idxs[j] {
            lemma_pos_index_inj_pair(m, sn[i], sn[j]);
        }
    }
    assert(idxs.no_duplicates());
    idxs.unique_seq_to_set();
    let cells = vstd::set_lib::set_int_range(0, m.width * m.height);
    assert forall|e: int| idxs.to_set().contains(e) implies cells.contains(e) by {
        let i = choose|i: int| 0 <= i < idxs.len() && idxs[i] == e;
        lemma_pos_index_bound(m, sn[i]);
    }
    assert(0 <= m.width * m.height) by (nonlinear_arith)
        requires
            0 <= m.width,
            0 <= m.height,
    ;
    vstd::set_lib::lemma_int_range(0, m.width * m.height);
    vstd::set_lib::lemma_len_subset(idxs.to_set(), cells);
}

/// The fresh grid holds `start_tile` at every position.
pub proof fn lemma_start_tiles_at(w: int, h: int, y: int, x: int)
    requires
        1 <= w,
        1 <= h,
        0 <= y < h,
        0 <= x < w,
    ensures
        0 <= y * w + x < w * h,
        start_tiles(w, h)[y * w + x] == start_tile(w, h, y, x),
{
    assert(0 <= y * w + x < w * h) by (nonlinear_arith)
        requires
            1 <= w,
            1 <= h,
            0 <= y < h,
            0 <= x < w,
    ;
    vstd::arithmetic::div_mod::lemma_fundamental_div_mod_converse(y * w + x, w, y, x);
}

/// A freshly constructed state holds `start_tile` everywhere except at the
/// food cell.
pub proof fn lemma_start_model_tile_at(w: int, h: int, hs: int, f: (int, int), p: (int, int))
    requires
        7 <= w,
        5 <= h,
        start_food_spot(w, h, f),
        valid_pos(start_model(w, h, hs, f), p),
    ensures
        tile_at(start_model(w, h, hs, f), p) == if p == f {
            Tile::Food
        } else {
            start_tile(w, h, p.0, p.1)
        },
{
    let m = start_model(w, h, hs, f);
    lemma_start_tiles_at(w, h, p.0, p.1);
    lemma_start_tiles_at(w, h, f.0, f.1);
    if p != f && pos_index(m, p) == pos_index(m, f) {
        lemma_pos_index_inj_pair(m, p, f);
    }
}

/// A freshly constructed state satisfies the invariant.
pub proof fn lemma_start_inv(w: int, h: int, hs: int, f: (int, int))
    requires
        7 <= w,
        5 <= h,
        w * h <= MAX_CELLS,
        start_food_spot(w, h, f),
    ensures
        inv(start_model(w, h, hs, f)),
{
    let m = start_model(w, h, hs, f);
    let sn = start_snake();
    assert(0 < w * h) by (nonlinear_arith)
        requires
            7 <= w,
            5 <= h,
    ;
    assert(start_tiles(w, h).len() == (w * h) as nat);
    lemma_start_tiles_at(w, h, f.0, f.1);
    assert(m.tiles.len() == w * h);
    assert forall|p: (int, int)| valid_pos(m, p) && on_border(m, p) implies #[trigger] tile_at(
        m,
        p,
    ) == Tile::Wall by {
        lemma_start_model_tile_at(w, h, hs, f, p);
    }
    assert(sn[0] == (3int, 3int) && sn[1] == (3int, 4int) && sn[2] == (3int, 5int));
    lemma_start_model_tile_at(w, h, hs, f, (3int, 3int));
    lemma_start_model_tile_at(w, h, hs, f, (3int, 4int));
    lemma_start_model_tile_at(w, h, hs, f, (3int, 5int));
    assert(tile_at(m, (3int, 3int)) == Tile::Snake(None, Some(Direction::Right)));
    assert(tile_at(m, (3int, 4int)) == Tile::Snake(
        Some(Direction::Left),
        Some(Direction::Right),
    ));
    assert(tile_at(m, (3int, 5int)) == Tile::Snake(Some(Direction::Left), None));
    assert(step_pos(m, (3int, 3int), Direction::Right) == (3int, 4int));
    assert(step_pos(m, (3int, 4int), Direction::Right) == (3int, 5int));
    assert forall|p: (int, int)|
        valid_pos(m, p) && (#[trigger] tile_at(m, p)) is Snake implies sn.contains(p) by {
        lemma_start_model_tile_at(w, h, hs, f, p);
        if p == (3int, 3int) {
            assert(sn[0] == p);
        } else if p == (3int, 4int) {
            assert(sn[1] == p);
        } else {
            assert(sn[2] == p);
        }
    }
    lemma_start_tiles_at(w, h, f.0, f.1);
    assert(tile_at(m, f) == Tile::Food);
    assert forall|p: (int, int)|
        valid_pos(m, p) && (#[trigger] tile_at(m, p)) is Food implies p == f by {
        lemma_start_model_tile_at(w, h, hs, f, p);
    }
    assert(chain_ok(m));
    assert(food_ok(m));
}

/// Facts shared by the per-tick transitions: the cell the tail is about to
/// move to is the second chain element, and the four cells a normal step
/// rewrites are pairwise distinct grid cells.
pub proof fn lemma_move_positions(pre: Model, d: Direction)
    requires
        inv(pre),
        !(tile_at(pre, step_pos(pre, pre.head, d)) is Snake),
    ensures
        step_pos(pre, pre.tail, next_of(pre, pre.tail)->0) == pre.snake[1],
        valid_pos(pre, step_pos(pre, pre.head, d)),
        forall|i: int|
            0 <= i < pre.snake.len() ==> #[trigger] pre.snake[i] != step_pos(pre, pre.head, d),
        pre.head == pre.snake[pre.snake.len() - 1],
        pre.tail == pre.snake[0],
        pre.head != pre.tail,
        pre.head != pre.snake[1],
        pre.tail != pre.snake[1],
{
    let sn = pre.snake;
    let len = sn.len() as int;
    let nh = step_pos(pre, pre.head, d);
    assert(interior(pre, sn[len - 1]));
    lemma_step_valid(pre, pre.head, d);
    assert forall|i: int| 0 <= i < len implies #[trigger] sn[i] != nh by {
        assert(tile_at(pre, sn[i]) is Snake);
    }
    assert(step_pos(pre, sn[0], next_of(pre, sn[0])->0) == sn[1]);
}

/// The grid after a normal step, cell by cell.
pub proof fn lemma_move_tile_at(pre: Model, d: Direction, p: (int, int))
    requires
        inv(pre),
        tile_at(pre, step_pos(pre, pre.head, d)) is Floor,
        valid_pos(pre, p),
    ensures
        tile_at(moved_model(pre, d), p) == {
            let nh = step_pos(pre, pre.head, d);
            let nt = step_pos(pre, pre.tail, next_of(pre, pre.tail)->0);
            if p == nt {
                Tile::Snake(None, next_of(pre, nt))
            } else if p == pre.tail {
                Tile::Floor
            } else if p == nh {
                Tile::Snake(Some(d.spec_reverse()), None)
            } else if p == pre.head {
                Tile::Snake(prev_of(pre, pre.head), Some(d))
            } else {
                tile_at(pre, p)
            }
        },
{
    let post = moved_model(pre, d);
    let sn = pre.snake;
    let len = sn.len() as int;
    let nh = step_pos(pre, pre.head, d);
    let nt = step_pos(pre, pre.tail, next_of(pre, pre.tail)->0);
    lemma_move_positions(pre, d);
    lemma_pos_index_inj(pre);
    assert(interior(pre, pre.head));
    assert(interior(pre, pre.tail));
    assert(interior(pre, nt));
    assert(nt != nh && pre.tail != nh && pre.head != nh);
    assert(nt != pre.tail && nt != pre.head && pre.tail != pre.head);
}

/// After a normal step the new chain lists interior snake cells and ends at
/// the cached head and tail.
#[verifier::spinoff_prover]
proof fn lemma_move_chain_cells(pre: Model, d: Direction)
    requires
        inv(pre),
        tile_at(pre, step_pos(pre, pre.head, d)) is Floor,
    ensures
        moved_model(pre, d).snake.len() == pre.snake.len(),
        forall|i: int|
            0 <= i < moved_model(pre, d).snake.len() ==> interior(
                moved_model(pre, d),
                #[trigger] moved_model(pre, d).snake[i],
            ),
        forall|i: int|
            0 <= i < moved_model(pre, d).snake.len() ==> (#[trigger] tile_at(
                moved_model(pre, d),
                moved_model(pre, d).snake[i],
            )) is Snake,
        moved_model(pre, d).head == moved_model(pre, d).snake[moved_model(pre, d).snake.len() - 1],
        moved_model(pre, d).tail == moved_model(pre, d).snake[0],
{
    let post = moved_model(pre, d);
    let sn = pre.snake;
    let len = sn.len() as int;
    let nh = step_pos(pre, pre.head, d);
    let nt = step_pos(pre, pre.tail, next_of(pre, pre.tail)->0);
    let psn = post.snake;
    lemma_move_positions(pre, d);
    assert(psn.len() == len);
    assert(forall|i: int| 0 <= i < len - 1 ==> #[trigger] psn[i] == sn[i + 1]);
    assert(psn[len - 1] == nh);
    // The new head cell is interior: it held floor, and border cells hold
    // walls.
    assert(interior(post, nh)) by {
        if on_border(pre, nh) {
            assert(tile_at(pre, nh) == Tile::Wall);
        }
    }
    assert forall|i: int| 0 <= i < len implies interior(post, #[trigger] psn[i]) by {
        if i < len - 1 {
            assert(interior(pre, sn[i + 1]));
        }
    }
    assert forall|i: int| 0 <= i < len implies (#[trigger] tile_at(post, psn[i])) is Snake by {
        lemma_move_tile_at(pre, d, psn[i]);
        if i < len - 1 {
            assert(psn[i] == sn[i + 1]);
            assert(tile_at(pre, sn[i + 1]) is Snake);
        }
    }
}

/// After a normal step the forward links still walk the chain.
#[verifier::spinoff_prover]
proof fn lemma_move_chain_next(pre: Model, d: Direction)
    requires
        inv(pre),
        tile_at(pre, step_pos(pre, pre.head, d)) is Floor,
    ensures
        forall|i: int|
            0 <= i < moved_model(pre, d).snake.len() - 1 ==> (#[trigger] next_of(
                moved_model(pre, d),
                moved_model(pre, d).snake[i],
            )) is Some,
        forall|i: int|
            0 <= i < moved_model(pre, d).snake.len() - 1 ==> step_pos(
                moved_model(pre, d),
                #[trigger] moved_model(pre, d).snake[i],
                next_of(moved_model(pre, d), moved_model(pre, d).snake[i])->0,
            ) == moved_model(pre, d).snake[i + 1],
        next_of(moved_model(pre, d), moved_model(pre, d).snake[moved_model(pre, d).snake.len() - 1])
            is None,
{
    let post = moved_model(pre, d);
    let sn = pre.snake;
    let len = sn.len() as int;
    let nh = step_pos(pre, pre.head, d);
    let nt = step_pos(pre, pre.tail, next_of(pre, pre.tail)->0);
    let psn = post.snake;
    lemma_move_positions(pre, d);
    assert(psn.len() == len);
    assert(forall|i: int| 0 <= i < len - 1 ==> #[trigger] psn[i] == sn[i + 1]);
    assert(psn[len - 1] == nh);
    assert forall|i: int| 0 <= i < len - 1 implies (#[trigger] next_of(post, psn[i])) is Some
        && step_pos(post, psn[i], next_of(post, psn[i])->0) == psn[i + 1] by {
        lemma_move_tile_at(pre, d, psn[i]);
        if i == 0 {
            // The new tail keeps its old outgoing link.
            assert(psn[0] == nt && nt == sn[1]);
            assert(next_of(post, psn[0]) == next_of(pre, sn[1]));
            assert(step_pos(pre, sn[1], next_of(pre, sn[1])->0) == sn[2]);
        } else if i == len - 2 {
            // The old head now links forward to the new head.
            assert(psn[i] == sn[len - 1] && sn[len - 1] == pre.head);
            assert(next_of(post, pre.head) == Some(d));
        } else {
            assert(psn[i] == sn[i + 1]);
            assert(sn[i + 1] != sn[1] && sn[i + 1] != sn[0] && sn[i + 1] != sn[len - 1]);
            assert(next_of(post, psn[i]) == next_of(pre, sn[i + 1]));
            assert(step_pos(pre, sn[i + 1], next_of(pre, sn[i + 1])->0) == sn[i + 2]);
        }
    }
    assert(next_of(post, psn[len - 1]) is None) by {
        lemma_move_tile_at(pre, d, nh);
    }
}

/// After a normal step, the back link at chain position `i` is the reverse
/// of the forward link at position `i - 1`.
#[verifier::spinoff_prover]
proof fn lemma_move_prev_at(pre: Model, d: Direction, i: int)
    requires
        inv(pre),
        tile_at(pre, step_pos(pre, pre.head, d)) is Floor,
        1 <= i < moved_model(pre, d).snake.len(),
    ensures
        prev_of(moved_model(pre, d), moved_model(pre, d).snake[i]) == Some(
            next_of(moved_model(pre, d), moved_model(pre, d).snake[i - 1])->0.spec_reverse(),
        ),
{
    let post = moved_model(pre, d);
    let sn = pre.snake;
    let len = sn.len() as int;
    let nh = step_pos(pre, pre.head, d);
    let nt = step_pos(pre, pre.tail, next_of(pre, pre.tail)->0);
    let psn = post.snake;
    lemma_move_positions(pre, d);
    assert(psn.len() == len);
    assert(forall|k: int| 0 <= k < len - 1 ==> #[trigger] psn[k] == sn[k + 1]);
    assert(psn[len - 1] == nh);
    lemma_move_tile_at(pre, d, psn[i]);
    lemma_move_tile_at(pre, d, psn[i - 1]);
    if i == len - 1 {
        // New head: its back link is the reverse of the travel direction.
        assert(psn[i] == nh);
        assert(psn[i - 1] == sn[len - 1] && sn[len - 1] == pre.head);
        assert(prev_of(post, nh) == Some(d.spec_reverse()));
        assert(next_of(post, pre.head) == Some(d));
    } else {
        assert(psn[i] == sn[i + 1]);
        assert(psn[i - 1] == sn[i]);
        // The cell at sn[i + 1] keeps its back link.
        if i + 1 == len - 1 {
            assert(prev_of(post, psn[i]) == prev_of(pre, sn[i + 1]));
        } else {
            assert(sn[i + 1] != sn[1] && sn[i + 1] != sn[0] && sn[i + 1] != sn[len - 1]);
            assert(prev_of(post, psn[i]) == prev_of(pre, sn[i + 1]));
        }
        assert(prev_of(pre, sn[i + 1]) == Some(next_of(pre, sn[i])->0.spec_reverse()));
        // The cell at sn[i] keeps its forward link.
        if i == 1 {
            assert(next_of(post, psn[0]) == next_of(pre, sn[1]));
        } else {
            assert(sn[i] != sn[0] && sn[i] != sn[1] && sn[i] != sn[len - 1]);
            assert(next_of(post, psn[i - 1]) == next_of(pre, sn[i]));
        }
    }
}

/// After a normal step the back links still mirror the forward links.
#[verifier::spinoff_prover]
proof fn lemma_move_chain_prev(pre: Model, d: Direction)
    requires
        inv(pre),
        tile_at(pre, step_pos(pre, pre.head, d)) is Floor,
    ensures
        prev_of(moved_model(pre, d), moved_model(pre, d).snake[0]) is None,
        forall|i: int|
            1 <= i < moved_model(pre, d).snake.len() ==> #[trigger] prev_of(
                moved_model(pre, d),
                moved_model(pre, d).snake[i],
            ) == Some(
                next_of(moved_model(pre, d), moved_model(pre, d).snake[i - 1])->0.spec_reverse(),
            ),
{
    let post = moved_model(pre, d);
    let nt = step_pos(pre, pre.tail, next_of(pre, pre.tail)->0);
    let psn = post.snake;
    lemma_move_positions(pre, d);
    assert(psn[0] == nt);
    assert(prev_of(post, psn[0]) is None) by {
        lemma_move_tile_at(pre, d, nt);
    }
    assert forall|i: int| 1 <= i < psn.len() implies #[trigger] prev_of(post, psn[i]) == Some(
        next_of(post, psn[i - 1])->0.spec_reverse(),
    ) by {
        lemma_move_prev_at(pre, d, i);
    }
}

/// After a normal step the chain cells stay pairwise distinct and cover all
/// snake tiles.
#[verifier::spinoff_prover]
proof fn lemma_move_chain_cover(pre: Model, d: Direction)
    requires
        inv(pre),
        tile_at(pre, step_pos(pre, pre.head, d)) is Floor,
    ensures
        forall|i: int, j: int|
            #![trigger moved_model(pre, d).snake[i], moved_model(pre, d).snake[j]]
            0 <= i < j < moved_model(pre, d).snake.len() ==> moved_model(pre, d).snake[i]
                != moved_model(pre, d).snake[j],
        forall|p: (int, int)|
            valid_pos(moved_model(pre, d), p) && (#[trigger] tile_at(moved_model(pre, d), p))
                is Snake ==> moved_model(pre, d).snake.contains(p),
{
    let post = moved_model(pre, d);
    let sn = pre.snake;
    let len = sn.len() as int;
    let nh = step_pos(pre, pre.head, d);
    let nt = step_pos(pre, pre.tail, next_of(pre, pre.tail)->0);
    let psn = post.snake;
    lemma_move_positions(pre, d);
    assert(psn.len() == len);
    assert(forall|i: int| 0 <= i < len - 1 ==> #[trigger] psn[i] == sn[i + 1]);
    assert(psn[len - 1] == nh);
    assert forall|i: int, j: int| #![trigger psn[i], psn[j]] 0 <= i < j < len implies psn[i]
        != psn[j] by {
        if j < len - 1 {
            assert(sn[i + 1] != sn[j + 1]);
        } else {
            assert(psn[i] == sn[i + 1]);
            assert(sn[i + 1] != nh);
        }
    }
    assert forall|p: (int, int)|
        valid_pos(post, p) && (#[trigger] tile_at(post, p)) is Snake implies psn.contains(p) by {
        lemma_move_tile_at(pre, d, p);
        if p == nt {
            assert(psn[0] == p);
        } else if p == nh {
            assert(psn[len - 1] == p);
        } else if p == pre.head {
            assert(psn[len - 2] == p);
        } else if p != pre.tail {
            assert(tile_at(pre, p) is Snake);
            assert(sn.contains(p));
            let jw = choose|j: int| 0 <= j < len && sn[j] == p;
            assert(jw != 0);
            assert(psn[jw - 1] == p);
        }
    }
}

/// The chain clauses of the invariant hold after a normal step.
#[verifier::spinoff_prover]
proof fn lemma_move_chain(pre: Model, d: Direction)
    requires
        inv(pre),
        tile_at(pre, step_pos(pre, pre.head, d)) is Floor,
    ensures
        chain_ok(moved_model(pre, d)),
{
    lemma_move_chain_cells(pre, d);
    lemma_move_chain_next(pre, d);
    lemma_move_chain_prev(pre, d);
    lemma_move_chain_cover(pre, d);
}

/// The remaining invariant clauses hold after a normal step.
#[verifier::spinoff_prover]
proof fn lemma_move_rest(pre: Model, d: Direction)
    requires
        inv(pre),
        tile_at(pre, step_pos(pre, pre.head, d)) is Floor,
    ensures
        dims_ok(moved_model(pre, d)),
        border_walls(moved_model(pre, d)),
        food_ok(moved_model(pre, d)),
        score_ok(moved_model(pre, d)),
{
    let post = moved_model(pre, d);
    let sn = pre.snake;
    let len = sn.len() as int;
    let nh = step_pos(pre, pre.head, d);
    let nt = step_pos(pre, pre.tail, next_of(pre, pre.tail)->0);
    lemma_move_positions(pre, d);
    lemma_pos_index_inj(pre);

    // dims_ok: the four rewritten indices are in range, so the length is
    // kept.
    assert(post.tiles.len() == pre.tiles.len());

    // border_walls: only interior cells were rewritten.
    assert forall|p: (int, int)| valid_pos(post, p) && on_border(post, p) implies #[trigger] tile_at(
        post,
        p,
    ) == Tile::Wall by {
        lemma_move_tile_at(pre, d, p);
        assert(tile_at(pre, p) == Tile::Wall);
    }

    // food_ok: a floor cell exists, so the board is not saturated in `pre`
    // and the food cell survives untouched.
    assert(interior(pre, pre.food) && tile_at(pre, pre.food) == Tile::Food) by {
        assert(valid_pos(pre, nh) && tile_at(pre, nh) is Floor);
    }
    assert(tile_at(post, pre.food) == Tile::Food) by {
        lemma_move_tile_at(pre, d, pre.food);
        assert(pre.food != nt && pre.food != pre.tail && pre.food != pre.head) by {
            assert(tile_at(pre, nt) is Snake);
            assert(tile_at(pre, pre.tail) is Snake);
            assert(tile_at(pre, pre.head) is Snake);
        }
        assert(pre.food != nh);
    }
    assert forall|p: (int, int)|
        valid_pos(post, p) && (#[trigger] tile_at(post, p)) is Food implies p == post.food by {
        lemma_move_tile_at(pre, d, p);
        assert(valid_pos(pre, nh) && tile_at(pre, nh) is Floor);
        assert(tile_at(pre, p) is Food ==> p == pre.food);
    }
    assert(food_ok(post));

    assert(post.snake.len() == len);
    assert(score_ok(post));
}

/// A normal step onto a floor cell preserves the invariant.
pub proof fn lemma_move_inv(pre: Model, d: Direction)
    requires
        inv(pre),
        tile_at(pre, step_pos(pre, pre.head, d)) is Floor,
    ensures
        inv(moved_model(pre, d)),
{
    lemma_move_chain(pre, d);
    lemma_move_rest(pre, d);
}

/// Appending the stepped-to cell keeps the chain shorter than the board:
/// there is room for the snake to grow.
pub proof fn lemma_snake_room(pre: Model, d: Direction)
    requires
        inv(pre),
        !(tile_at(pre, step_pos(pre, pre.head, d)) is Snake),
    ensures
        pre.snake.len() + 1 <= pre.width * pre.height,
{
    let nh = step_pos(pre, pre.head, d);
    let sn2 = pre.snake.push(nh);
    lemma_move_positions(pre, d);
    assert(forall|i: int| 0 <= i < pre.snake.len() ==> #[trigger] sn2[i] == pre.snake[i]);
    assert forall|i: int| 0 <= i < sn2.len() implies valid_pos(pre, #[trigger] sn2[i]) by {
        if i < pre.snake.len() {
            assert(interior(pre, pre.snake[i]));
        }
    }
    assert forall|i: int, j: int| #![trigger sn2[i], sn2[j]] 0 <= i < j < sn2.len() implies sn2[i]
        != sn2[j] by {
        if j < pre.snake.len() {
            assert(pre.snake[i] != pre.snake[j]);
        } else {
            assert(pre.snake[i] != nh);
        }
    }
    lemma_distinct_positions_bound(pre, sn2);
}

/// The grid after the head steps onto the food cell, cell by cell: the old
/// head gains a forward link and the eaten cell becomes the new head.
proof fn lemma_grow_tile_at(pre: Model, d: Direction, p: (int, int))
    requires
        inv(pre),
        tile_at(pre, step_pos(pre, pre.head, d)) is Food,
        valid_pos(pre, p),
    ensures
        tile_at(eaten_full_model(pre, d), p) == {
            let nh = step_pos(pre, pre.head, d);
            if p == nh {
                Tile::Snake(Some(d.spec_reverse()), None)
            } else if p == pre.head {
                Tile::Snake(prev_of(pre, pre.head), Some(d))
            } else {
                tile_at(pre, p)
            }
        },
{
    let post = eaten_full_model(pre, d);
    let sn = pre.snake;
    let len = sn.len() as int;
    let nh = step_pos(pre, pre.head, d);
    lemma_move_positions(pre, d);
    lemma_pos_index_inj(pre);
    assert(interior(pre, pre.head));
    assert(pre.head != nh);
}

/// After eating, the grown chain lists interior snake cells and ends at the
/// cached head and tail.
#[verifier::spinoff_prover]
proof fn lemma_grow_chain_cells(pre: Model, d: Direction)
    requires
        inv(pre),
        tile_at(pre, step_pos(pre, pre.head, d)) is Food,
    ensures
        eaten_full_model(pre, d).snake.len() == pre.snake.len() + 1,
        forall|i: int|
            0 <= i < eaten_full_model(pre, d).snake.len() ==> interior(
                eaten_full_model(pre, d),
                #[trigger] eaten_full_model(pre, d).snake[i],
            ),
        forall|i: int|
            0 <= i < eaten_full_model(pre, d).snake.len() ==> (#[trigger] tile_at(
                eaten_full_model(pre, d),
                eaten_full_model(pre, d).snake[i],
            )) is Snake,
        eaten_full_model(pre, d).head == eaten_full_model(pre, d).snake[eaten_full_model(
            pre,
            d,
        ).snake.len() - 1],
        eaten_full_model(pre, d).tail == eaten_full_model(pre, d).snake[0],
{
    let post = eaten_full_model(pre, d);
    let sn = pre.snake;
    let len = sn.len() as int;
    let nh = step_pos(pre, pre.head, d);
    let psn = post.snake;
    lemma_move_positions(pre, d);
    assert(psn.len() == len + 1);
    assert(forall|i: int| 0 <= i < len ==> #[trigger] psn[i] == sn[i]);
    assert(psn[len] == nh);
    assert(interior(post, nh)) by {
        if on_border(pre, nh) {
            assert(tile_at(pre, nh) == Tile::Wall);
        }
    }
    assert forall|i: int| 0 <= i < len + 1 implies interior(post, #[trigger] psn[i]) by {
        if i < len {
            assert(interior(pre, sn[i]));
        }
    }
    assert forall|i: int| 0 <= i < len + 1 implies (#[trigger] tile_at(post, psn[i])) is Snake by {
        lemma_grow_tile_at(pre, d, psn[i]);
        if i < len {
            assert(tile_at(pre, sn[i]) is Snake);
        }
    }
}

/// After eating the forward links still walk the grown chain.
#[verifier::spinoff_prover]
proof fn lemma_grow_chain_next(pre: Model, d: Direction)
    requires
        inv(pre),
        tile_at(pre, step_pos(pre, pre.head, d)) is Food,
    ensures
        forall|i: int|
            0 <= i < eaten_full_model(pre, d).snake.len() - 1 ==> (#[trigger] next_of(
                eaten_full_model(pre, d),
                eaten_full_model(pre, d).snake[i],
            )) is Some,
        forall|i: int|
            0 <= i < eaten_full_model(pre, d).snake.len() - 1 ==> step_pos(
                eaten_full_model(pre, d),
                #[trigger] eaten_full_model(pre, d).snake[i],
                next_of(eaten_full_model(pre, d), eaten_full_model(pre, d).snake[i])->0,
            ) == eaten_full_model(pre, d).snake[i + 1],
        next_of(
            eaten_full_model(pre, d),
            eaten_full_model(pre, d).snake[eaten_full_model(pre, d).snake.len() - 1],
        ) is None,
{
    let post = eaten_full_model(pre, d);
    let sn = pre.snake;
    let len = sn.len() as int;
    let nh = step_pos(pre, pre.head, d);
    let psn = post.snake;
    lemma_move_positions(pre, d);
    assert(psn.len() == len + 1);
    assert(forall|i: int| 0 <= i < len ==> #[trigger] psn[i] == sn[i]);
    assert(psn[len] == nh);
    assert forall|i: int| 0 <= i < len implies (#[trigger] next_of(post, psn[i])) is Some
        && step_pos(post, psn[i], next_of(post, psn[i])->0) == psn[i + 1] by {
        lemma_grow_tile_at(pre, d, psn[i]);
        if i == len - 1 {
            // The old head now links forward to the new head.
            assert(psn[i] == pre.head);
            assert(next_of(post, pre.head) == Some(d));
        } else {
            assert(psn[i] == sn[i]);
            assert(sn[i] != sn[len - 1]);
            assert(next_of(post, psn[i]) == next_of(pre, sn[i]));
            assert(step_pos(pre, sn[i], next_of(pre, sn[i])->0) == sn[i + 1]);
        }
    }
    assert(next_of(post, psn[len]) is None) by {
        lemma_grow_tile_at(pre, d, nh);
    }
}

/// After eating, the back link at chain position `i` is the reverse of the
/// forward link at position `i - 1`.
#[verifier::spinoff_prover]
proof fn lemma_grow_prev_at(pre: Model, d: Direction, i: int)
    requires
        inv(pre),
        tile_at(pre, step_pos(pre, pre.head, d)) is Food,
        1 <= i < eaten_full_model(pre, d).snake.len(),
    ensures
        prev_of(eaten_full_model(pre, d), eaten_full_model(pre, d).snake[i]) == Some(
            next_of(eaten_full_model(pre, d), eaten_full_model(pre, d).snake[i - 1])
                ->0.spec_reverse(),
        ),
{
    let post = eaten_full_model(pre, d);
    let sn = pre.snake;
    let len = sn.len() as int;
    let nh = step_pos(pre, pre.head, d);
    let psn = post.snake;
    lemma_move_positions(pre, d);
    assert(psn.len() == len + 1);
    assert(forall|k: int| 0 <= k < len ==> #[trigger] psn[k] == sn[k]);
    assert(psn[len] == nh);
    lemma_grow_tile_at(pre, d, psn[i]);
    lemma_grow_tile_at(pre, d, psn[i - 1]);
    if i == len {
        // New head: its back link is the reverse of the travel direction.
        assert(psn[i] == nh);
        assert(psn[i - 1] == pre.head);
        assert(prev_of(post, nh) == Some(d.spec_reverse()));
        assert(next_of(post, pre.head) == Some(d));
    } else {
        assert(psn[i] == sn[i]);
        assert(psn[i - 1] == sn[i - 1]);
        // The cell at sn[i] keeps its back link.
        if i == len - 1 {
            assert(prev_of(post, psn[i]) == prev_of(pre, sn[i]));
        } else {
            assert(sn[i] != sn[len - 1]);
            assert(prev_of(post, psn[i]) == prev_of(pre, sn[i]));
        }
        assert(prev_of(pre, sn[i]) == Some(next_of(pre, sn[i - 1])->0.spec_reverse()));
        // The cell at sn[i - 1] keeps its forward link.
        assert(sn[i - 1] != sn[len - 1]);
        assert(next_of(post, psn[i - 1]) == next_of(pre, sn[i - 1]));
    }
}

/// After eating the back links still mirror the forward links, and the
/// chain cells stay pairwise distinct and cover all snake tiles.
#[verifier::spinoff_prover]
proof fn lemma_grow_chain_prev_cover(pre: Model, d: Direction)
    requires
        inv(pre),
        tile_at(pre, step_pos(pre, pre.head, d)) is Food,
    ensures
        prev_of(eaten_full_model(pre, d), eaten_full_model(pre, d).snake[0]) is None,
        forall|i: int|
            1 <= i < eaten_full_model(pre, d).snake.len() ==> #[trigger] prev_of(
                eaten_full_model(pre, d),
                eaten_full_model(pre, d).snake[i],
            ) == Some(
                next_of(eaten_full_model(pre, d), eaten_full_model(pre, d).snake[i - 1])
                    ->0.spec_reverse(),
            ),
        forall|i: int, j: int|
            #![trigger eaten_full_model(pre, d).snake[i], eaten_full_model(pre, d).snake[j]]
            0 <= i < j < eaten_full_model(pre, d).snake.len() ==> eaten_full_model(pre, d).snake[i]
                != eaten_full_model(pre, d).snake[j],
        forall|p: (int, int)|
            valid_pos(eaten_full_model(pre, d), p) && (#[trigger] tile_at(
                eaten_full_model(pre, d),
                p,
            )) is Snake ==> eaten_full_model(pre, d).snake.contains(p),
{
    let post = eaten_full_model(pre, d);
    let sn = pre.snake;
    let len = sn.len() as int;
    let nh = step_pos(pre, pre.head, d);
    let psn = post.snake;
    lemma_move_positions(pre, d);
    assert(psn.len() == len + 1);
    assert(forall|k: int| 0 <= k < len ==> #[trigger] psn[k] == sn[k]);
    assert(psn[len] == nh);
    assert(prev_of(post, psn[0]) is None) by {
        lemma_grow_tile_at(pre, d, sn[0]);
        assert(sn[0] != sn[len - 1]);
    }
    assert forall|i: int| 1 <= i < psn.len() implies #[trigger] prev_of(post, psn[i]) == Some(
        next_of(post, psn[i - 1])->0.spec_reverse(),
    ) by {
        lemma_grow_prev_at(pre, d, i);
    }
    assert forall|i: int, j: int| #![trigger psn[i], psn[j]] 0 <= i < j < psn.len() implies psn[i]
        != psn[j] by {
        if j < len {
            assert(sn[i] != sn[j]);
        } else {
            assert(sn[i] != nh);
        }
    }
    assert forall|p: (int, int)|
        valid_pos(post, p) && (#[trigger] tile_at(post, p)) is Snake implies psn.contains(p) by {
        lemma_grow_tile_at(pre, d, p);
        if p == nh {
            assert(psn[len] == p);
        } else if p == pre.head {
            assert(psn[len - 1] == p);
        } else {
            assert(tile_at(pre, p) is Snake);
            assert(sn.contains(p));
            let jw = choose|j: int| 0 <= j < len && sn[j] == p;
            assert(psn[jw] == p);
        }
    }
}

/// The dimension, border, chain and score clauses hold after the head steps
/// onto the food cell, whether or not new food can still be placed.
#[verifier::spinoff_prover]
proof fn lemma_grow_inv_parts(pre: Model, d: Direction)
    requires
        inv(pre),
        tile_at(pre, step_pos(pre, pre.head, d)) is Food,
    ensures
        dims_ok(eaten_full_model(pre, d)),
        border_walls(eaten_full_model(pre, d)),
        chain_ok(eaten_full_model(pre, d)),
        score_ok(eaten_full_model(pre, d)),
{
    let post = eaten_full_model(pre, d);
    let nh = step_pos(pre, pre.head, d);
    lemma_move_positions(pre, d);
    lemma_pos_index_inj(pre);
    assert(post.tiles.len() == pre.tiles.len());
    assert forall|p: (int, int)| valid_pos(post, p) && on_border(post, p) implies #[trigger] tile_at(
        post,
        p,
    ) == Tile::Wall by {
        lemma_grow_tile_at(pre, d, p);
        assert(tile_at(pre, p) == Tile::Wall);
    }
    lemma_grow_chain_cells(pre, d);
    lemma_grow_chain_next(pre, d);
    lemma_grow_chain_prev_cover(pre, d);
    assert(post.snake.len() == pre.snake.len() + 1);
    assert(score_ok(post));
}

/// Eating the food on a saturated board preserves the invariant: no floor
/// cell is left, so no new food appears.
pub proof fn lemma_eat_full_inv(pre: Model, d: Direction)
    requires
        inv(pre),
        tile_at(pre, step_pos(pre, pre.head, d)) is Food,
        forall|p: (int, int)| valid_pos(pre, p) ==> !((#[trigger] tile_at(pre, p)) is Floor),
    ensures
        inv(eaten_full_model(pre, d)),
{
    let post = eaten_full_model(pre, d);
    let nh = step_pos(pre, pre.head, d);
    lemma_grow_inv_parts(pre, d);
    lemma_move_positions(pre, d);
    // The eaten cell was the unique food cell.
    assert(tile_at(pre, nh) is Food && valid_pos(pre, nh));
    assert(nh == pre.food);
    assert forall|p: (int, int)| valid_pos(post, p) implies !((#[trigger] tile_at(post, p)) is Food)
        && !(tile_at(post, p) is Floor) by {
        lemma_grow_tile_at(pre, d, p);
        if p != nh && p != pre.head {
            assert(tile_at(pre, p) is Food ==> p == pre.food);
        }
    }
    assert(food_ok(post));
}

/// Eating the food and placing a new piece on the floor cell `f` preserves
/// the invariant.
#[verifier::spinoff_prover]
pub proof fn lemma_eat_inv(pre: Model, d: Direction, f: (int, int))
    requires
        inv(pre),
        tile_at(pre, step_pos(pre, pre.head, d)) is Food,
        valid_pos(pre, f),
        tile_at(pre, f) is Floor,
    ensures
        inv(eaten_model(pre, d, f)),
{
    let grown = eaten_full_model(pre, d);
    let post = eaten_model(pre, d, f);
    let sn = pre.snake;
    let len = sn.len() as int;
    let nh = step_pos(pre, pre.head, d);
    let psn = post.snake;
    lemma_grow_inv_parts(pre, d);
    lemma_move_positions(pre, d);
    lemma_pos_index_inj(pre);
    assert(post.tiles == grown.tiles.update(pos_index(pre, f), Tile::Food));
    assert(psn == grown.snake);

    // The new food cell is still floor after the head moved: it is neither
    // the old head nor the eaten cell.
    assert(f != pre.head && f != nh) by {
        assert(tile_at(pre, pre.head) is Snake);
        assert(tile_at(pre, nh) is Food);
    }
    assert(tile_at(grown, f) is Floor) by {
        lemma_grow_tile_at(pre, d, f);
    }
    // Every cell but `f` is unchanged from the grown board.
    assert forall|p: (int, int)| valid_pos(post, p) && p != f implies #[trigger] tile_at(post, p)
        == tile_at(grown, p) by {
        if pos_index(pre, p) == pos_index(pre, f) {
            lemma_pos_index_inj_pair(pre, p, f);
        }
    }
    assert(tile_at(post, f) == Tile::Food);

    // The chain avoids `f`, so every chain clause carries over.
    assert forall|i: int| 0 <= i < psn.len() implies #[trigger] psn[i] != f by {
        assert(tile_at(grown, psn[i]) is Snake);
    }
    assert forall|i: int| 0 <= i < psn.len() implies interior(post, #[trigger] psn[i])
        && #[trigger] tile_at(post, psn[i]) == tile_at(grown, psn[i]) by {
        assert(interior(grown, psn[i]));
    }
    assert forall|i: int| 0 <= i < psn.len() - 1 implies (#[trigger] next_of(post, psn[i])) is Some
        && step_pos(post, psn[i], next_of(post, psn[i])->0) == psn[i + 1] by {
        assert(tile_at(post, psn[i]) == tile_at(grown, psn[i]));
        assert(next_of(grown, psn[i]) is Some);
        assert(step_pos(grown, psn[i], next_of(grown, psn[i])->0) == psn[i + 1]);
    }
    assert(next_of(post, psn[psn.len() - 1]) is None) by {
        assert(tile_at(post, psn[psn.len() - 1]) == tile_at(grown, psn[psn.len() - 1]));
        assert(next_of(grown, psn[psn.len() - 1]) is None);
    }
    assert(prev_of(post, psn[0]) is None) by {
        assert(tile_at(post, psn[0]) == tile_at(grown, psn[0]));
        assert(prev_of(grown, psn[0]) is None);
    }
    assert forall|i: int| 1 <= i < psn.len() implies #[trigger] prev_of(post, psn[i]) == Some(
        next_of(post, psn[i - 1])->0.spec_reverse(),
    ) by {
        assert(tile_at(post, psn[i]) == tile_at(grown, psn[i]));
        assert(tile_at(post, psn[i - 1]) == tile_at(grown, psn[i - 1]));
        assert(prev_of(grown, psn[i]) == Some(next_of(grown, psn[i - 1])->0.spec_reverse()));
    }
    assert forall|p: (int, int)|
        valid_pos(post, p) && (#[trigger] tile_at(post, p)) is Snake implies psn.contains(p) by {
        assert(tile_at(post, p) == tile_at(grown, p));
        assert(tile_at(grown, p) is Snake);
    }
    assert(chain_ok(post));

    // Exactly one piece of food: the new cell. The eaten cell was the unique
    // food cell of the old board.
    assert(nh == pre.food);
    assert(interior(post, f)) by {
        if on_border(pre, f) {
            assert(tile_at(pre, f) == Tile::Wall);
        }
    }
    assert forall|p: (int, int)|
        valid_pos(post, p) && (#[trigger] tile_at(post, p)) is Food implies p == post.food by {
        if p != f {
            assert(tile_at(post, p) == tile_at(grown, p));
            lemma_grow_tile_at(pre, d, p);
            if p != nh && p != pre.head {
                assert(tile_at(pre, p) is Food ==> p == pre.food);
            }
        }
    }
    assert(food_ok(post));

    // Border and dimensions: `f` is interior and the update keeps the
    // length.
    assert forall|p: (int, int)| valid_pos(post, p) && on_border(post, p) implies #[trigger] tile_at(
        post,
        p,
    ) == Tile::Wall by {
        assert(tile_at(post, p) == tile_at(grown, p));
        assert(tile_at(grown, p) == Tile::Wall);
    }
    assert(post.tiles.len() == grown.tiles.len());
    assert(score_ok(post));
}

/// A collision leaves the board untouched and only latches the high score,
/// so the invariant is preserved.
pub proof fn lemma_dead_inv(pre: Model, d: Direction)
    requires
        inv(pre),
    ensures
        inv(dead_model(pre, d)),
{
    let post = dead_model(pre, d);
    assert(post.tiles == pre.tiles && post.snake == pre.snake && post.width == pre.width
        && post.height == pre.height && post.head == pre.head && post.tail == pre.tail && post.food
        == pre.food && post.score == pre.score);
    assert forall|p: (int, int)| valid_pos(post, p) && on_border(post, p) implies #[trigger] tile_at(
        post,
        p,
    ) == Tile::Wall by {
        assert(tile_at(pre, p) == Tile::Wall);
    }
    let sn = post.snake;
    let len = sn.len() as int;
    assert forall|i: int| 0 <= i < len implies interior(post, #[trigger] sn[i]) && (
    #[trigger] tile_at(post, sn[i])) is Snake by {
        assert(interior(pre, sn[i]));
        assert(tile_at(pre, sn[i]) is Snake);
    }
    assert forall|i: int| 0 <= i < len - 1 implies (#[trigger] next_of(post, sn[i])) is Some
        && step_pos(post, sn[i], next_of(post, sn[i])->0) == sn[i + 1] by {
        assert(next_of(pre, sn[i]) is Some);
        assert(step_pos(pre, sn[i], next_of(pre, sn[i])->0) == sn[i + 1]);
        assert(next_of(post, sn[i]) == next_of(pre, sn[i]));
    }
    assert(next_of(post, sn[len - 1]) == next_of(pre, sn[len - 1]));
    assert(prev_of(post, sn[0]) == prev_of(pre, sn[0]));
    assert forall|i: int| 1 <= i < len implies #[trigger] prev_of(post, sn[i]) == Some(
        next_of(post, sn[i - 1])->0.spec_reverse(),
    ) by {
        assert(prev_of(post, sn[i]) == prev_of(pre, sn[i]));
        assert(next_of(post, sn[i - 1]) == next_of(pre, sn[i - 1]));
        assert(prev_of(pre, sn[i]) == Some(next_of(pre, sn[i - 1])->0.spec_reverse()));
    }
    assert forall|p: (int, int)|
        valid_pos(post, p) && (#[trigger] tile_at(post, p)) is Snake implies sn.contains(p) by {
        assert(tile_at(pre, p) is Snake);
        assert(pre.snake.contains(p));
    }
    assert(chain_ok(post));
    if interior(pre, pre.food) && tile_at(pre, pre.food) == Tile::Food && (forall|p: (int, int)|
        valid_pos(pre, p) && (#[trigger] tile_at(pre, p)) is Food ==> p == pre.food) {
        assert forall|p: (int, int)|
            valid_pos(post, p) && (#[trigger] tile_at(post, p)) is Food implies p == post.food by {
            assert(tile_at(pre, p) is Food);
        }
        assert(food_ok(post));
    } else {
        assert(forall|p: (int, int)|
            valid_pos(pre, p) ==> !((#[trigger] tile_at(pre, p)) is Food) && !(tile_at(pre, p)
                is Floor));
        assert forall|p: (int, int)| valid_pos(post, p) implies !((#[trigger] tile_at(post, p))
            is Food) && !(tile_at(post, p) is Floor) by {
            assert(!(tile_at(pre, p) is Food) && !(tile_at(pre, p) is Floor));
        }
        assert(food_ok(post));
    }
    assert(score_ok(post));
}

} // verus!
