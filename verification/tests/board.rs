use inundiato::small::{SmallBattleSnake, SmallBoard, SmallMove, Status};
use inundiato::types::{Coordinate, Direction};

fn c(x: i8, y: i8) -> Coordinate {
    Coordinate::new(x, y)
}

fn snake(id: u8, body: Vec<Coordinate>) -> SmallBattleSnake {
    let head = body[0];
    let length = body.len() as u16;
    SmallBattleSnake { id, health: 101, body, head, length, status: Status::Alive }
}

/// The position of the program's demo: snake 1 in the corner, snake 2 winding up the board.
fn demo_board() -> SmallBoard {
    SmallBoard {
        height: 11,
        width: 11,
        food: vec![c(0, 2), c(0, 2)],
        hazards: vec![],
        snakes: vec![
            snake(1, vec![c(0, 1), c(1, 1), c(2, 1), c(2, 0)]),
            snake(2, vec![c(1, 2), c(1, 3), c(2, 3), c(2, 4), c(3, 4), c(3, 5), c(4, 5), c(4, 6)]),
        ],
    }
}

#[test]
fn get_moves_lists_legal_moves_in_order() {
    let board = demo_board();
    let you = board.snakes[0].clone();
    // Left is off the board, Right runs into the snake's own neck.
    assert_eq!(you.get_moves(&board), vec![(Direction::Up, 1), (Direction::Down, 1)]);
}

#[test]
fn get_moves_blocked_by_rival_body_but_not_its_tail() {
    let mut board = demo_board();
    board.snakes[1] = snake(2, vec![c(1, 2), c(0, 2), c(0, 3)]);
    let you = board.snakes[0].clone();
    // (0, 2) is the rival's neck: blocked. (0, 0) is free.
    assert_eq!(you.get_moves(&board), vec![(Direction::Down, 1)]);
    // A rival's tail does not block.
    board.snakes[1] = snake(2, vec![c(3, 3), c(3, 2), c(0, 2)]);
    assert_eq!(you.get_moves(&board), vec![(Direction::Up, 1), (Direction::Down, 1)]);
}

#[test]
fn get_moves_none_when_boxed_in() {
    let board = SmallBoard {
        height: 1,
        width: 2,
        food: vec![],
        hazards: vec![],
        snakes: vec![snake(3, vec![c(0, 0), c(1, 0), c(1, 0)])],
    };
    let you = board.snakes[0].clone();
    assert_eq!(you.get_moves(&board), vec![]);
}

#[test]
fn new_snake_takes_head_and_length_from_body() {
    let s = SmallBattleSnake::new(7, 90, &vec![c(4, 4), c(4, 5), c(4, 6)]);
    assert_eq!(s.id, 7);
    assert_eq!(s.health, 90);
    assert_eq!(s.head, c(4, 4));
    assert_eq!(s.length, 3);
    assert_eq!(s.body, vec![c(4, 4), c(4, 5), c(4, 6)]);
    assert_eq!(s.status, Status::Alive);
}

#[test]
fn make_move_moves_head_and_drops_tail() {
    let mut s = demo_board().snakes[0].clone();
    let tail = s.make_move(Direction::Up);
    assert_eq!(tail, c(2, 0));
    assert_eq!(s.head, c(0, 2));
    assert_eq!(s.body, vec![c(0, 2), c(0, 1), c(1, 1), c(2, 1)]);
    assert_eq!(s.health, 100);
    let tail = s.make_move(Direction::Right);
    assert_eq!(tail, c(2, 1));
    assert_eq!(s.head, c(1, 2));
    assert_eq!(s.health, 99);
}

#[test]
fn collision_with_checks_the_body_behind_the_head() {
    let board = demo_board();
    let mut a = board.snakes[0].clone();
    let b = board.snakes[1].clone();
    assert!(!a.collision_with(&b));
    a.head = c(1, 3);
    assert!(a.collision_with(&b));
    // The other snake's head does not count.
    a.head = c(1, 2);
    assert!(!a.collision_with(&b));
    // A snake can hit itself.
    let mut d = board.snakes[0].clone();
    d.head = c(2, 1);
    let e = d.clone();
    assert!(d.collision_with(&e));
}

#[test]
fn lost_head_to_head_needs_same_cell_and_shorter() {
    let board = demo_board();
    let mut a = board.snakes[0].clone();
    let b = board.snakes[1].clone();
    assert!(!a.lost_head_to_head(&b));
    a.head = b.head;
    assert!(a.lost_head_to_head(&b));
    assert!(!b.lost_head_to_head(&a));
    a.length = 8;
    assert!(!a.lost_head_to_head(&b));
}

#[test]
fn is_out_of_bounds_edges() {
    let mut s = demo_board().snakes[0].clone();
    s.head = c(0, 0);
    assert!(!s.is_out_of_bounds(11, 11));
    s.head = c(10, 10);
    assert!(!s.is_out_of_bounds(11, 11));
    s.head = c(11, 10);
    assert!(s.is_out_of_bounds(11, 11));
    s.head = c(10, 11);
    assert!(s.is_out_of_bounds(11, 11));
    s.head = c(-1, 5);
    assert!(s.is_out_of_bounds(11, 11));
    s.head = c(5, -1);
    assert!(s.is_out_of_bounds(11, 11));
}

#[test]
fn empty_positions() {
    let b = SmallBoard::new();
    assert_eq!(b.height, 0);
    assert_eq!(b.width, 0);
    assert!(b.food.is_empty() && b.hazards.is_empty() && b.snakes.is_empty());
    let m = SmallMove::new();
    assert_eq!(m.turn, 0);
    assert_eq!(m.board, SmallBoard::new());
    assert_eq!(m.you.id, 0);
    assert_eq!(m.you.health, 0);
    assert_eq!(m.you.body, vec![c(0, 0)]);
    assert_eq!(m.you.head, c(0, 0));
    assert_eq!(m.you.length, 1);
    assert_eq!(m.you.status, Status::Alive);
}
