use snake_core::game::{contains_position, spawn_food, EntityKind, Game, LastTailPosition};
use snake_core::grid::{in_bounds, Direction, Position, ARENA_HEIGHT, ARENA_WIDTH};

fn make_game(segments: Vec<Position>, heading: Direction, food: Option<Position>) -> Game {
    Game {
        segments,
        heading,
        food,
        last_tail: LastTailPosition(None),
    }
}

fn assert_between_tick_invariant(g: &Game) {
    assert!(g.segments.len() >= 2);
    for (i, p) in g.segments.iter().enumerate() {
        assert!(in_bounds(*p));
        for q in g.segments.iter().skip(i + 1) {
            assert_ne!(*p, *q);
        }
    }
    if let Some(f) = g.food {
        assert!(in_bounds(f));
        assert!(!g.segments.contains(&f));
    }
}

#[test]
fn spawner_builds_the_initial_configuration() {
    let g = Game::snake_spawner();
    assert_eq!(g.segments, vec![Position(5, 3), Position(5, 2)]);
    assert_eq!(g.heading, Direction::Up);
    assert!(g.food.is_some());
    assert_eq!(g.last_tail.0, None);
    assert_eq!(g.segment_positions(), &g.segments);
    assert_eq!(g.food_position(), g.food);
    assert_eq!(g.current_heading(), Direction::Up);
    assert_between_tick_invariant(&g);
}

#[test]
fn tick_moves_head_and_tail_one_cell() {
    let mut g = make_game(
        vec![Position(5, 3), Position(5, 2)],
        Direction::Up,
        Some(Position(0, 0)),
    );
    let out = g.tick();
    assert!(!out.reset);
    assert!(!out.growth);
    assert_eq!(g.segments, vec![Position(5, 4), Position(5, 3)]);
    assert_eq!(g.food, Some(Position(0, 0)));
    assert_eq!(g.last_tail.0, Some(Position(5, 2)));
    assert_between_tick_invariant(&g);
}

#[test]
fn movement_preserves_segment_count() {
    let mut g = make_game(
        vec![Position(2, 2), Position(2, 1), Position(2, 0)],
        Direction::Right,
        None,
    );
    let out = g.tick();
    assert!(!out.reset);
    assert_eq!(g.segments.len(), 3);
    assert_eq!(
        g.segments,
        vec![Position(3, 2), Position(2, 2), Position(2, 1)]
    );
}

#[test]
fn eating_grows_by_one_at_the_vacated_tail_cell() {
    let mut g = make_game(
        vec![Position(5, 3), Position(5, 2)],
        Direction::Up,
        Some(Position(5, 4)),
    );
    let out = g.tick();
    assert!(out.growth);
    assert!(!out.reset);
    assert_eq!(
        g.segments,
        vec![Position(5, 4), Position(5, 3), Position(5, 2)]
    );
    let fresh = g.food.expect("a replacement food is spawned");
    assert!(in_bounds(fresh));
    assert!(!g.segments.contains(&fresh));
    assert_between_tick_invariant(&g);
}

#[test]
fn leaving_the_arena_resets_the_round() {
    let mut g = make_game(
        vec![Position(0, 3), Position(1, 3)],
        Direction::Left,
        Some(Position(9, 9)),
    );
    let out = g.tick();
    assert!(out.reset);
    assert_eq!(g.segments, vec![Position(5, 3), Position(5, 2)]);
    assert_eq!(g.heading, Direction::Up);
    assert!(g.food.is_some());
    assert_between_tick_invariant(&g);
}

#[test]
fn self_collision_resets_the_round() {
    let mut g = make_game(
        vec![
            Position(1, 1),
            Position(0, 1),
            Position(0, 0),
            Position(1, 0),
            Position(2, 0),
        ],
        Direction::Down,
        Some(Position(9, 9)),
    );
    let out = g.tick();
    assert!(out.reset);
    assert_eq!(g.segments, vec![Position(5, 3), Position(5, 2)]);
    assert_eq!(g.heading, Direction::Up);
    assert_between_tick_invariant(&g);
}

#[test]
fn reset_restores_the_initial_configuration_exactly() {
    let mut g = make_game(
        vec![Position(7, 7), Position(7, 6), Position(6, 6)],
        Direction::Right,
        None,
    );
    g.game_over();
    assert_eq!(g.segments, vec![Position(5, 3), Position(5, 2)]);
    assert_eq!(g.heading, Direction::Up);
    let food = g.food.expect("reset spawns one food");
    assert!(in_bounds(food));
    assert!(!g.segments.contains(&food));
}

#[test]
fn reversal_request_leaves_heading_unchanged() {
    let mut g = make_game(
        vec![Position(5, 3), Position(5, 2)],
        Direction::Up,
        Some(Position(0, 0)),
    );
    g.apply_heading(Direction::Down);
    assert_eq!(g.heading, Direction::Up);
    let out = g.tick();
    assert!(!out.reset);
    assert_eq!(g.heading, Direction::Up);
}

#[test]
fn legal_heading_request_is_taken() {
    let mut g = make_game(
        vec![Position(5, 3), Position(5, 2)],
        Direction::Up,
        None,
    );
    g.apply_heading(Direction::Left);
    assert_eq!(g.heading, Direction::Left);
    let out = g.tick();
    assert!(!out.reset);
    assert_eq!(g.segments, vec![Position(4, 3), Position(5, 3)]);
}

#[test]
fn full_arena_spawns_no_food() {
    let mut occupied = Vec::new();
    for x in 0..ARENA_WIDTH as i32 {
        for y in 0..ARENA_HEIGHT as i32 {
            occupied.push(Position(x, y));
        }
    }
    assert_eq!(spawn_food(&occupied), None);
}

#[test]
fn spawned_food_avoids_occupied_cells() {
    let occupied = vec![
        Position(0, 0),
        Position(1, 0),
        Position(2, 0),
        Position(5, 5),
        Position(10, 10),
    ];
    for _ in 0..200 {
        let p = spawn_food(&occupied).expect("the arena is not full");
        assert!(in_bounds(p));
        assert!(!occupied.contains(&p));
        assert!(!contains_position(&occupied, p));
    }
}

#[test]
fn nearly_full_arena_still_finds_the_free_cell() {
    let mut occupied = Vec::new();
    for x in 0..ARENA_WIDTH as i32 {
        for y in 0..ARENA_HEIGHT as i32 {
            if !(x == 6 && y == 7) {
                occupied.push(Position(x, y));
            }
        }
    }
    assert_eq!(spawn_food(&occupied), Some(Position(6, 7)));
}

#[test]
fn render_entities_lists_head_segments_and_food() {
    let g = make_game(
        vec![Position(5, 3), Position(5, 2)],
        Direction::Up,
        Some(Position(2, 2)),
    );
    let entities = g.render_entities();
    assert_eq!(
        entities,
        vec![
            (EntityKind::Head, Position(5, 3)),
            (EntityKind::Segment, Position(5, 2)),
            (EntityKind::Food, Position(2, 2)),
        ]
    );
}

#[test]
fn invariant_holds_across_many_ticks() {
    let mut g = Game::snake_spawner();
    let tour = [
        Direction::Up,
        Direction::Right,
        Direction::Down,
        Direction::Right,
        Direction::Up,
        Direction::Left,
    ];
    for round in 0..60 {
        g.apply_heading(tour[round % tour.len()]);
        g.tick();
        assert_between_tick_invariant(&g);
    }
}
