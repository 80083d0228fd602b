use snake::game::GameState;
use snake::tiles::{Direction, Tile};

fn tile(v: &[Tile], w: usize, y: usize, x: usize) -> Tile {
    v[y * w + x]
}

fn count_food(v: &[Tile]) -> usize {
    v.iter().filter(|t| **t == Tile::Food).count()
}

fn count_snake(v: &[Tile]) -> usize {
    v.iter().filter(|t| matches!(t, Tile::Snake(_, _))).count()
}

#[test]
fn step_onto_floor() {
    // A 10 by 10 grid, snake at (3,3)-(3,5) heading right, one tick with no
    // input: the head moves to (3,6), the old tail cell clears, the new
    // tail is (3,4), and the score is unchanged.
    let mut s = GameState::new_with_food(10, 10, 0, 5, 5);
    s.update(None);
    assert!(s.snake_alive());
    assert_eq!(s.score(), 0);
    let v = s.tiles();
    assert_eq!(tile(&v, 10, 3, 3), Tile::Floor);
    assert_eq!(tile(&v, 10, 3, 4), Tile::Snake(None, Some(Direction::Right)));
    assert_eq!(
        tile(&v, 10, 3, 5),
        Tile::Snake(Some(Direction::Left), Some(Direction::Right))
    );
    assert_eq!(tile(&v, 10, 3, 6), Tile::Snake(Some(Direction::Left), None));
    assert_eq!(count_snake(&v), 3);
    assert_eq!(count_food(&v), 1);
    assert_eq!(tile(&v, 10, 5, 5), Tile::Food);
}

#[test]
fn turn_up() {
    let mut s = GameState::new_with_food(10, 10, 0, 5, 5);
    s.update(Some(Direction::Up));
    let v = s.tiles();
    // The head moved up; its back link points down, towards the old head.
    assert_eq!(tile(&v, 10, 2, 5), Tile::Snake(Some(Direction::Down), None));
    assert_eq!(
        tile(&v, 10, 3, 5),
        Tile::Snake(Some(Direction::Left), Some(Direction::Up))
    );
    assert_eq!(tile(&v, 10, 3, 3), Tile::Floor);
}

#[test]
fn reverse_input_is_ignored() {
    // Heading right, input left: the heading stays right, so the head still
    // moves to (3,6).
    let mut s = GameState::new_with_food(10, 10, 0, 5, 5);
    s.update(Some(Direction::Left));
    assert!(s.snake_alive());
    let v = s.tiles();
    assert_eq!(tile(&v, 10, 3, 6), Tile::Snake(Some(Direction::Left), None));
    assert_eq!(tile(&v, 10, 3, 4), Tile::Snake(None, Some(Direction::Right)));
}

#[test]
fn eat_food_grows_and_scores() {
    // The cell ahead holds food: the score rises by 10, the snake grows by
    // one segment, the old tail stays put, and a new piece of food appears
    // somewhere else.
    let mut s = GameState::new_with_food(10, 10, 0, 3, 6);
    s.update(None);
    assert!(s.snake_alive());
    assert_eq!(s.score(), 10);
    let v = s.tiles();
    assert_eq!(tile(&v, 10, 3, 3), Tile::Snake(None, Some(Direction::Right)));
    assert_eq!(tile(&v, 10, 3, 6), Tile::Snake(Some(Direction::Left), None));
    assert_eq!(count_snake(&v), 4);
    assert_eq!(count_food(&v), 1);
    // The new food is elsewhere: (3,6) is now the head.
    for y in 0..10 {
        for x in 0..10 {
            if tile(&v, 10, y, x) == Tile::Food {
                assert!((y, x) != (3, 6));
                assert!((1..9).contains(&y) && (1..9).contains(&x));
            }
        }
    }
}

#[test]
fn wall_collision_kills_and_freezes_grid() {
    // Three ticks bring the head to (3,8), next to the right wall; the
    // fourth runs into it. The snake dies and the grid is exactly what it
    // was just before the fatal tick.
    let mut s = GameState::new_with_food(10, 10, 0, 5, 5);
    s.update(None);
    s.update(None);
    s.update(None);
    assert!(s.snake_alive());
    let before = s.tiles();
    let score_before = s.score();
    s.update(None);
    assert!(!s.snake_alive());
    assert_eq!(s.tiles(), before);
    assert_eq!(s.score(), score_before);
}

#[test]
fn dead_snake_ignores_updates() {
    // Once dead, further ticks change nothing: not the grid, not the score,
    // not the heading.
    let mut s = GameState::new_with_food(10, 10, 0, 5, 5);
    for _ in 0..4 {
        s.update(None);
    }
    assert!(!s.snake_alive());
    let frozen = s.tiles();
    let score = s.score();
    let highscore = s.highscore();
    s.update(Some(Direction::Up));
    s.update(Some(Direction::Left));
    s.update(None);
    assert!(!s.snake_alive());
    assert_eq!(s.tiles(), frozen);
    assert_eq!(s.score(), score);
    assert_eq!(s.highscore(), highscore);
}

#[test]
fn self_collision_kills() {
    // Eat once to reach length four, then loop back into the own body.
    let mut s = GameState::new_with_food(10, 10, 0, 3, 6);
    s.update(None);
    assert_eq!(s.score(), 10);
    s.update(Some(Direction::Up));
    s.update(Some(Direction::Left));
    assert!(s.snake_alive());
    s.update(Some(Direction::Down));
    assert!(!s.snake_alive());
}

#[test]
fn highscore_latches_on_death() {
    // Die with a score of 10: the high score latches it. After a reset the
    // high score survives, and a scoreless death never lowers it.
    let mut s = GameState::new_with_food(10, 10, 0, 3, 6);
    s.update(None);
    assert_eq!(s.highscore(), 0);
    // Head is at (3,6); go up into the top wall.
    s.update(Some(Direction::Up));
    s.update(None);
    s.update(None);
    assert!(!s.snake_alive());
    // The random food after eating may have been hit on the way up, so the
    // final score is whatever it is; the latch takes the maximum.
    assert_eq!(s.highscore(), std::cmp::max(0, s.score()));
    assert!(s.highscore() >= 10);
    let latched = s.highscore();

    s.reset();
    assert!(s.snake_alive());
    assert_eq!(s.score(), 0);
    assert_eq!(s.highscore(), latched);
    assert_eq!(s.level_size(), (10, 10));
    // Die again, most likely without any points.
    s.update(Some(Direction::Up));
    s.update(None);
    s.update(None);
    assert!(!s.snake_alive());
    assert_eq!(s.highscore(), std::cmp::max(latched, s.score()));
    assert!(s.highscore() >= latched);
}

#[test]
fn food_stays_exclusive() {
    // Across a mix of moves and meals there is never more than one piece of
    // food on the board, and it never sits on the border ring.
    let mut s = GameState::new_with_food(10, 10, 0, 3, 6);
    let moves = [
        None,
        Some(Direction::Up),
        None,
        Some(Direction::Right),
        Some(Direction::Down),
        None,
    ];
    for input in moves {
        if !s.snake_alive() {
            break;
        }
        s.update(input);
        let v = s.tiles();
        assert_eq!(count_food(&v), 1);
        for y in 0..10 {
            for x in 0..10 {
                if tile(&v, 10, y, x) == Tile::Food {
                    assert!((1..9).contains(&y) && (1..9).contains(&x));
                }
            }
        }
    }
}

#[test]
fn score_is_monotonic() {
    let mut s = GameState::new_with_food(10, 10, 0, 3, 6);
    let mut last = s.score();
    let moves = [
        None,
        Some(Direction::Up),
        Some(Direction::Left),
        None,
        Some(Direction::Down),
        None,
        None,
        None,
    ];
    for input in moves {
        s.update(input);
        assert!(s.score() >= last);
        last = s.score();
    }
}
