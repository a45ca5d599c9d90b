use inundiato::engine::{eval, flood_fill};
use inundiato::small::{SmallBattleSnake, SmallBoard, SmallMove, Status};
use inundiato::types::{Coordinate, Weights};

fn c(x: i8, y: i8) -> Coordinate {
    Coordinate::new(x, y)
}

fn snake(id: u8, body: Vec<Coordinate>) -> SmallBattleSnake {
    let head = body[0];
    let length = body.len() as u16;
    SmallBattleSnake { id, health: 101, body, head, length, status: Status::Alive }
}

fn demo() -> SmallMove {
    let snakes = vec![
        snake(1, vec![c(0, 1), c(1, 1), c(2, 1), c(2, 0)]),
        snake(2, vec![c(1, 2), c(1, 3), c(2, 3), c(2, 4), c(3, 4), c(3, 5), c(4, 5), c(4, 6)]),
    ];
    SmallMove {
        turn: 43,
        board: SmallBoard { height: 11, width: 11, food: vec![c(0, 2), c(0, 2)], hazards: vec![], snakes: snakes.clone() },
        you: snakes[0].clone(),
    }
}

fn lone(w: i8, h: i8, body: Vec<Coordinate>) -> SmallMove {
    let you = snake(1, body);
    SmallMove {
        turn: 0,
        board: SmallBoard { height: h, width: w, food: vec![], hazards: vec![], snakes: vec![you.clone()] },
        you,
    }
}

#[test]
fn eval_is_reachable_food_plus_reachable_squares_minus_food_distance() {
    // 121 cells, 12 under bodies, all 109 others reachable; both food entries
    // at (0, 2) are reachable; the nearest food is 1 away.
    assert_eq!(eval(&demo(), Weights(1, 1, 1, 1)), 2 + 109 - 1);
    // The weights take no part in the value.
    assert_eq!(eval(&demo(), Weights(10, 5, 3, 2)), 110);
    assert_eq!(eval(&demo(), Weights(0, 0, 0, 0)), 110);
}

#[test]
fn eval_of_a_lone_snake_with_zero_weights_is_its_area() {
    let m = lone(3, 3, vec![c(0, 0)]);
    assert_eq!(eval(&m, Weights(0, 0, 0, 0)), 8);
}

#[test]
fn eval_when_biggest_targets_the_closest_rival() {
    let you = snake(1, vec![c(5, 5), c(5, 4)]);
    let far_short = snake(2, vec![c(0, 0), c(0, 1)]);
    let near = snake(3, vec![c(7, 5), c(8, 5)]);
    let mut m = SmallMove {
        turn: 0,
        board: SmallBoard { height: 11, width: 11, food: vec![], hazards: vec![], snakes: vec![you.clone(), far_short, near] },
        you,
    };
    m.you.length = 10;
    m.board.snakes[0].length = 10;
    m.board.snakes[2].length = 5;
    // The closest rival head is 2 away (the shortest is 10 away); 115 free cells.
    assert_eq!(eval(&m, Weights(0, 0, 1, 0)), 115 - 2);
}

#[test]
fn eval_without_food_has_no_target() {
    let mut m = demo();
    m.board.food = vec![];
    assert_eq!(eval(&m, Weights(0, 0, 5, 0)), 109);
}

#[test]
fn eval_counts_only_food_on_reachable_cells() {
    let mut m = demo();
    // Food under your own body: not reachable, but still the nearest target.
    m.board.food = vec![c(1, 1)];
    assert_eq!(eval(&m, Weights(1, 1, 1, 1)), 109 - 1);
}

#[test]
fn flood_fill_counts_the_cells_the_head_can_reach() {
    assert_eq!(flood_fill(&demo()), 109);
    // A wall at x = 1 cuts the head at (2, 1) off from column 0.
    let you = SmallBattleSnake::new(0, 100, &vec![c(2, 1)]);
    let wall = SmallBattleSnake::new(1, 100, &vec![c(1, 0), c(1, 1), c(1, 2)]);
    let b = SmallMove {
        turn: 0,
        board: SmallBoard { width: 3, height: 3, food: vec![], hazards: vec![], snakes: vec![you.clone(), wall] },
        you,
    };
    assert_eq!(flood_fill(&b), 2);
    // With no snake on the board the head's own cell counts.
    let mut open = lone(3, 12, vec![c(2, 10)]);
    open.board.snakes = vec![];
    assert_eq!(flood_fill(&open), 36);
    let mut one = lone(1, 1, vec![c(0, 0)]);
    assert_eq!(flood_fill(&one), 0);
    one.board.snakes = vec![];
    assert_eq!(flood_fill(&one), 1);
}

#[test]
fn eval_when_biggest_without_rivals_targets_the_origin() {
    // A lone snake at (2, 2) on a 3 by 3 board: 8 free cells, 4 away from (0, 0).
    let m = lone(3, 3, vec![c(2, 2)]);
    assert_eq!(eval(&m, Weights(0, 0, 0, 0)), 8 - 4);
}

#[test]
fn eval_ignores_turn_hazards_and_health() {
    let mut m = demo();
    m.turn = 7;
    m.board.hazards = vec![c(5, 5)];
    m.you.health = 3;
    m.board.snakes[0].health = 3;
    m.board.snakes[1].health = 90;
    assert_eq!(eval(&m, Weights(1, 2, 3, 4)), eval(&demo(), Weights(1, 2, 3, 4)));
}
