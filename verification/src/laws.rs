use vstd::prelude::*;
use crate::lemmas::lemma_step_reverse;
use crate::model::{inv, interior, next_of, prev_of, step_pos, tile_at, valid_pos, Model};
use crate::tiles::Tile;

verus! {

/// The cell reached by following `next` links for the given number of
/// steps, or nothing if a link is missing along the way.
pub open spec fn walk_next(m: Model, p: (int, int), steps: nat) -> Option<(int, int)>
    decreases steps,
{
    if steps == 0 {
        Some(p)
    } else {
        match next_of(m, p) {
            Some(d) => walk_next(m, step_pos(m, p, d), (steps - 1) as nat),
            None => None,
        }
    }
}

/// The cell reached by following `prev` links for the given number of
/// steps, or nothing if a link is missing along the way.
pub open spec fn walk_prev(m: Model, p: (int, int), steps: nat) -> Option<(int, int)>
    decreases steps,
{
    if steps == 0 {
        Some(p)
    } else {
        match prev_of(m, p) {
            Some(d) => walk_prev(m, step_pos(m, p, d), (steps - 1) as nat),
            None => None,
        }
    }
}

/// Walking `next` links from chain position `i` for `k` steps lands on
/// chain position `i + k`.
proof fn lemma_walk_next_from(m: Model, i: int, k: int)
    requires
        inv(m),
        0 <= i,
        0 <= k,
        i + k < m.snake.len(),
    ensures
        walk_next(m, m.snake[i], k as nat) == Some(m.snake[i + k]),
    decreases k,
{
    if k > 0 {
        assert(next_of(m, m.snake[i]) is Some);
        assert(step_pos(m, m.snake[i], next_of(m, m.snake[i])->0) == m.snake[i + 1]);
        lemma_walk_next_from(m, i + 1, k - 1);
    }
}

/// Walking `prev` links from chain position `i` for `k` steps lands on
/// chain position `i - k`.
proof fn lemma_walk_prev_from(m: Model, i: int, k: int)
    requires
        inv(m),
        0 <= k <= i < m.snake.len(),
    ensures
        walk_prev(m, m.snake[i], k as nat) == Some(m.snake[i - k]),
    decreases k,
{
    if k > 0 {
        let d = next_of(m, m.snake[i - 1])->0;
        assert(prev_of(m, m.snake[i]) == Some(d.spec_reverse()));
        assert(step_pos(m, m.snake[i - 1], d) == m.snake[i]);
        assert(interior(m, m.snake[i - 1]));
        lemma_step_reverse(m, m.snake[i - 1], d);
        lemma_walk_prev_from(m, i - 1, k - 1);
    }
}

/// Chain integrity: in any state satisfying the invariant, walking `next`
/// links from the tail visits the whole chain in order and reaches the head
/// in exactly one step per remaining segment — and not earlier — and
/// walking `prev` links from the head reaches the tail the same way.
#[verifier::rlimit(100)]
#[verifier::spinoff_prover]
pub proof fn lemma_chain_integrity(m: Model)
    requires
        inv(m),
    ensures
        forall|k: int|
            0 <= k < m.snake.len() ==> walk_next(m, m.tail, k as nat) == Some(#[trigger] m.snake[k]),
        forall|k: int|
            0 <= k < m.snake.len() ==> #[trigger] walk_prev(m, m.head, k as nat) == Some(
                m.snake[m.snake.len() - 1 - k],
            ),
        walk_next(m, m.tail, (m.snake.len() - 1) as nat) == Some(m.head),
        walk_prev(m, m.head, (m.snake.len() - 1) as nat) == Some(m.tail),
        forall|k: int|
            0 <= k < m.snake.len() - 1 ==> #[trigger] walk_next(m, m.tail, k as nat) != Some(
                m.head,
            ),
{
    let len = m.snake.len() as int;
    assert(m.tail == m.snake[0]);
    assert(m.head == m.snake[len - 1]);
    assert forall|k: int| 0 <= k < len implies walk_next(m, m.tail, k as nat) == Some(
        #[trigger] m.snake[k],
    ) by {
        lemma_walk_next_from(m, 0, k);
    }
    assert forall|k: int| 0 <= k < len implies #[trigger] walk_prev(m, m.head, k as nat) == Some(
        m.snake[len - 1 - k],
    ) by {
        lemma_walk_prev_from(m, len - 1, k);
    }
    assert forall|k: int| 0 <= k < len - 1 implies #[trigger] walk_next(m, m.tail, k as nat)
        != Some(m.head) by {
        assert(walk_next(m, m.tail, k as nat) == Some(m.snake[k]));
        assert(m.snake[k] != m.snake[len - 1]);
    }
}

/// Food exclusivity: in any state satisfying the invariant, at most one
/// food tile lies on the grid, it lies strictly inside the wall ring, and
/// it is not a cell of the snake chain.
pub proof fn lemma_food_exclusive(m: Model)
    requires
        inv(m),
    ensures
        forall|p: (int, int), q: (int, int)|
            valid_pos(m, p) && valid_pos(m, q) && (#[trigger] tile_at(m, p)) is Food && (
            #[trigger] tile_at(m, q)) is Food ==> p == q,
        forall|p: (int, int)|
            valid_pos(m, p) && (#[trigger] tile_at(m, p)) is Food ==> interior(m, p)
                && !m.snake.contains(p),
{
    assert forall|p: (int, int)|
        valid_pos(m, p) && (#[trigger] tile_at(m, p)) is Food implies interior(m, p)
        && !m.snake.contains(p) by {
        assert(p == m.food);
        if m.snake.contains(p) {
            let i = choose|i: int| 0 <= i < m.snake.len() && m.snake[i] == p;
            assert(tile_at(m, m.snake[i]) is Snake);
        }
    }
}

} // verus!
