use snake::game::GameState;
use snake::tiles::{Direction, Tile};

fn tile(v: &[Tile], w: usize, y: usize, x: usize) -> Tile {
    v[y * w + x]
}

fn food_cells(v: &[Tile], w: usize, h: usize) -> Vec<(usize, usize)> {
    let mut r = Vec::new();
    for y in 0..h {
        for x in 0..w {
            if tile(v, w, y, x) == Tile::Food {
                r.push((y, x));
            }
        }
    }
    r
}

fn snake_cells(v: &[Tile], w: usize, h: usize) -> Vec<(usize, usize)> {
    let mut r = Vec::new();
    for y in 0..h {
        for x in 0..w {
            if matches!(tile(v, w, y, x), Tile::Snake(_, _)) {
                r.push((y, x));
            }
        }
    }
    r
}

#[test]
fn direction_reverse() {
    assert_eq!(Direction::Up.reverse(), Direction::Down);
    assert_eq!(Direction::Down.reverse(), Direction::Up);
    assert_eq!(Direction::Left.reverse(), Direction::Right);
    assert_eq!(Direction::Right.reverse(), Direction::Left);
}

#[test]
fn fresh_board_layout() {
    let s = GameState::new_with_food(10, 10, 0, 5, 5);
    assert_eq!(s.level_size(), (10, 10));
    assert!(s.snake_alive());
    assert_eq!(s.score(), 0);
    assert_eq!(s.highscore(), 0);
    let v = s.tiles();
    assert_eq!(v.len(), 100);
    // Border ring is wall.
    for y in 0..10 {
        for x in 0..10 {
            if y == 0 || y == 9 || x == 0 || x == 9 {
                assert_eq!(tile(&v, 10, y, x), Tile::Wall);
            }
        }
    }
    // Three-segment snake heading right.
    assert_eq!(tile(&v, 10, 3, 3), Tile::Snake(None, Some(Direction::Right)));
    assert_eq!(
        tile(&v, 10, 3, 4),
        Tile::Snake(Some(Direction::Left), Some(Direction::Right))
    );
    assert_eq!(tile(&v, 10, 3, 5), Tile::Snake(Some(Direction::Left), None));
    // The chosen food cell, and nothing else but floor inside.
    assert_eq!(tile(&v, 10, 5, 5), Tile::Food);
    for y in 1..9 {
        for x in 1..9 {
            if (y, x) == (5, 5) || (y == 3 && (3..=5).contains(&x)) {
                continue;
            }
            assert_eq!(tile(&v, 10, y, x), Tile::Floor);
        }
    }
}

#[test]
fn fresh_board_random_food() {
    let s = GameState::new(12, 9, 7);
    assert_eq!(s.level_size(), (12, 9));
    assert_eq!(s.highscore(), 7);
    let v = s.tiles();
    let foods = food_cells(&v, 12, 9);
    assert_eq!(foods.len(), 1);
    let (fy, fx) = foods[0];
    // The food lies strictly inside the walls and off the snake.
    assert!((1..8).contains(&fy) && (1..11).contains(&fx));
    assert!(!(fy == 3 && (3..=5).contains(&fx)));
    assert_eq!(snake_cells(&v, 12, 9).len(), 3);
}

#[test]
fn smallest_board() {
    let mut s = GameState::new(7, 5, 0);
    assert_eq!(s.level_size(), (7, 5));
    let v = s.tiles();
    assert_eq!(food_cells(&v, 7, 5).len(), 1);
    s.update(None);
    assert_eq!(snake_cells(&s.tiles(), 7, 5).len(), 3 + (s.score() as usize) / 10);
}

#[test]
fn default_game() {
    let s = GameState::default();
    assert_eq!(s.level_size(), (40, 30));
    assert_eq!(s.highscore(), 0);
    assert_eq!(s.score(), 0);
    assert!(s.snake_alive());
    let v = s.tiles();
    assert_eq!(food_cells(&v, 40, 30).len(), 1);
}

#[test]
fn tile_at_matches_snapshot() {
    let s = GameState::new_with_food(10, 10, 0, 5, 5);
    let v = s.tiles();
    for y in 0..10 {
        for x in 0..10 {
            assert_eq!(s.tile_at(y, x), tile(&v, 10, y, x));
        }
    }
}
