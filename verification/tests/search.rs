use inundiato::small::{SmallBattleSnake, SmallBoard, SmallMove, Status};
use inundiato::types::Direction::{Down, Left, Right, Up};
use inundiato::types::{amnt_dead, deepen_step, get_best, is_playable, is_sane, is_searchable, iterative_deepen, Coordinate, Move, State, Weights};
use inundiato::engine::eval;
use tinyvec::ArrayVec;

fn c(x: i8, y: i8) -> Coordinate {
    Coordinate::new(x, y)
}

fn snake(id: u8, body: Vec<Coordinate>) -> SmallBattleSnake {
    let head = body[0];
    let length = body.len() as u16;
    SmallBattleSnake { id, health: 101, body, head, length, status: Status::Alive }
}

fn demo() -> SmallMove {
    let snakes = vec![
        snake(1, vec![c(0, 1), c(1, 1), c(2, 1), c(2, 0)]),
        snake(2, vec![c(1, 2), c(1, 3), c(2, 3), c(2, 4), c(3, 4), c(3, 5), c(4, 5), c(4, 6)]),
    ];
    SmallMove {
        turn: 43,
        board: SmallBoard { height: 11, width: 11, food: vec![c(0, 2), c(0, 2)], hazards: vec![], snakes: snakes.clone() },
        you: snakes[0].clone(),
    }
}

fn joint(ms: &[Move]) -> ArrayVec<[Move; 2]> {
    let mut v = ArrayVec::new();
    for m in ms {
        v.push(*m);
    }
    v
}

fn as_vecs(v: &ArrayVec<[ArrayVec<[Move; 2]>; 16]>) -> Vec<Vec<Move>> {
    v.iter().map(|j| j.iter().cloned().collect()).collect()
}

#[test]
fn state_new_is_fresh() {
    let s = State::new(demo(), Weights(1, 2, 3, 4));
    assert_eq!(s.state, demo());
    assert_eq!(s.weights, Weights(1, 2, 3, 4));
    assert_eq!(s.zobrist, 0);
    assert_eq!(s.tt_hits, (0, 0));
    assert_eq!(amnt_dead(&s), 0);
}

#[test]
fn running_into_own_neck_kills() {
    let mut s = State::new(demo(), Weights(1, 1, 1, 1));
    let before = s.make_move(&joint(&[(Right, 1)]));
    assert_eq!(before, demo());
    assert_eq!(s.state.you.status, Status::Dead);
    assert_eq!(s.state.you.head, c(1, 1));
    assert_eq!(s.state.board.snakes[0].status, Status::Dead);
    assert_eq!(s.state.board.snakes[1].status, Status::Alive);
    assert_eq!(amnt_dead(&s), 1);
}

#[test]
fn a_plain_turn_moves_both_snakes() {
    let mut s = State::new(demo(), Weights(1, 1, 1, 1));
    s.make_move(&joint(&[(Up, 1), (Right, 2)]));
    assert_eq!(s.state.board.snakes[0].head, c(0, 2));
    assert_eq!(s.state.board.snakes[0].health, 100);
    assert_eq!(s.state.board.snakes[1].head, c(2, 2));
    assert_eq!(s.state.board.snakes[1].body[7], c(4, 5));
    assert_eq!(s.state.you, s.state.board.snakes[0]);
    assert_eq!(amnt_dead(&s), 0);
}

#[test]
fn shorter_snake_loses_head_to_head() {
    let mut s = State::new(demo(), Weights(1, 1, 1, 1));
    // Both heads reach (0, 2); snake 1 is shorter.
    s.make_move(&joint(&[(Up, 1), (Left, 2)]));
    assert_eq!(s.state.board.snakes[0].status, Status::Dead);
    assert_eq!(s.state.board.snakes[1].status, Status::Alive);
}

#[test]
fn leaving_the_board_kills() {
    let mut s = State::new(demo(), Weights(1, 1, 1, 1));
    s.make_move(&joint(&[(Left, 1)]));
    assert_eq!(s.state.you.status, Status::Dead);
}

#[test]
fn unmake_restores_and_zobrist_round_trips() {
    let mut s = State::new(demo(), Weights(1, 1, 1, 1));
    let moves = joint(&[(Up, 1), (Right, 2)]);
    let delta = s.make_move(&moves);
    assert_ne!(s.zobrist, 0);
    s.unmake_move(&delta);
    assert_eq!(s.state, demo());
    s.update_zobrist(&moves);
    assert_eq!(s.zobrist, 0);
}

#[test]
fn joint_moves_answer_you_with_every_rival_move() {
    let s = State::new(demo(), Weights(1, 1, 1, 1));
    let js = s.get_moves((Up, 1));
    assert_eq!(as_vecs(&js), vec![vec![(Up, 1), (Left, 2)], vec![(Up, 1), (Right, 2)]]);
}

#[test]
fn ordered_moves_put_the_remembered_move_first() {
    let mut s = State::new(demo(), Weights(1, 1, 1, 1));
    let js = s.get_ordered_moves((Up, 1));
    assert_eq!(as_vecs(&js), vec![vec![(Up, 1), (Left, 2)], vec![(Up, 1), (Right, 2)]]);
    assert_eq!(s.tt_hits, (1, 0));
    s.move_table.set(0, joint(&[(Up, 1), (Right, 2)]), 1, 0);
    let js = s.get_ordered_moves((Up, 1));
    assert_eq!(as_vecs(&js), vec![vec![(Up, 1), (Right, 2)], vec![(Up, 1), (Left, 2)]]);
    assert_eq!(s.tt_hits, (2, 1));
}

#[test]
fn minimax_depth_one_is_the_static_eval() {
    let w = Weights(10, 5, 3, 2);
    let mut s = State::new(demo(), w);
    let e = eval(&demo(), w);
    let r = s.minimax(1, i32::MIN, i32::MAX, true, (Up, 40));
    assert_eq!(r, (e, e, i32::MAX, Up));
    assert_eq!(s.state, demo());
}

#[test]
fn minimax_dead_and_won_positions() {
    let mut dead = demo();
    dead.you.status = Status::Dead;
    let mut s = State::new(dead, Weights(1, 1, 1, 1));
    assert_eq!(s.minimax(3, -5, 5, true, (Up, 40)), (i32::MIN, -5, 5, Up));
    let mut won = demo();
    won.board.snakes[1].status = Status::Dead;
    let mut s = State::new(won, Weights(1, 1, 1, 1));
    assert_eq!(s.minimax(3, -5, 5, false, (Up, 1)), (i32::MAX, -5, 5, Up));
}

#[test]
fn minimax_depth_two_sees_the_rival_answers() {
    let w = Weights(1, 1, 1, 1);
    let mut s = State::new(demo(), w);
    let r = s.minimax(2, i32::MIN, i32::MAX, true, (Up, 40));
    // Going down keeps snake 1 alive against both answers; its value is the worse of the two.
    let mut worst = i32::MAX;
    for answer in [(Left, 2), (Right, 2)] {
        let mut t = State::new(demo(), w);
        t.make_move(&joint(&[(Down, 1), answer]));
        let v = if t.state.you.status == Status::Dead { i32::MIN } else { eval(&t.state, w) };
        worst = worst.min(v);
    }
    let mut best = i32::MIN;
    let mut best_dir = Up;
    for first in [(Up, 1), (Down, 1)] {
        let mut local = i32::MAX;
        for answer in [(Left, 2), (Right, 2)] {
            let mut t = State::new(demo(), w);
            t.make_move(&joint(&[first, answer]));
            let v = if t.state.you.status == Status::Dead {
                i32::MIN
            } else if t.state.board.snakes.iter().filter(|x| x.status == Status::Alive).count() == 1 {
                i32::MAX
            } else {
                eval(&t.state, w)
            };
            local = local.min(v);
        }
        if local > best {
            best = local;
            best_dir = first.0;
        }
    }
    assert_eq!(r.0, best);
    assert_eq!(r.3, best_dir);
    assert!(worst <= best);
    assert_eq!(s.state, demo());
    assert_eq!(s.zobrist, 0);
}

#[test]
fn get_best_with_one_or_no_legal_move() {
    let time = std::time::Instant::now();
    let mut one = demo();
    one.board.snakes[1] = snake(2, vec![c(0, 2), c(0, 3), c(0, 4), c(1, 4)]);
    one.board.snakes[1].head = c(0, 2);
    let s = State::new(one, Weights(1, 1, 1, 1));
    assert_eq!(get_best(s, &time), (Down, i32::MAX));
    let mut none = demo();
    none.board.snakes[1] = snake(2, vec![c(0, 2), c(0, 0), c(0, 4), c(1, 4)]);
    let s = State::new(none, Weights(1, 1, 1, 1));
    assert_eq!(get_best(s, &time), (Up, i32::MIN));
}

#[test]
fn iterative_deepen_returns_a_legal_direction() {
    let time = std::time::Instant::now();
    let mut s = State::new(demo(), Weights(1, 1, 1, 1));
    let (dir, _value) = iterative_deepen(&mut s, &time);
    assert!(dir == Up || dir == Down);
    assert_eq!(s.state, demo());
}

#[test]
fn is_playable_accepts_the_demo_and_refuses_broken_positions() {
    assert!(is_playable(&demo()));
    let mut no_width = demo();
    no_width.board.width = 0;
    assert!(!is_playable(&no_width));
    let mut starving = demo();
    starving.board.snakes[1].health = 0;
    assert!(!is_playable(&starving));
    let mut dead_starving = demo();
    dead_starving.board.snakes[1].health = 0;
    dead_starving.board.snakes[1].status = Status::Dead;
    assert!(is_playable(&dead_starving));
    let mut outside = demo();
    outside.board.snakes[0].head = c(-1, 1);
    assert!(!is_playable(&outside));
    let mut stub = demo();
    stub.board.snakes[0].body = vec![c(0, 1)];
    assert!(!is_playable(&stub));
}

#[test]
fn deepen_step_searches_only_in_time() {
    let w = Weights(1, 1, 1, 1);
    let mut s = State::new(demo(), w);
    assert_eq!(deepen_step(&mut s, 2, 250), None);
    assert_eq!(deepen_step(&mut s, 131, 0), None);
    let mut t = State::new(demo(), w);
    let r = t.minimax(2, i32::MIN, i32::MAX, true, (Up, 40));
    assert_eq!(deepen_step(&mut s, 2, 10), Some((r.3, r.0)));
    assert_eq!(s.state, demo());
}

#[test]
fn minimax_maximizing_is_up_when_every_move_loses() {
    // You are boxed in: no legal move, so the value stays i32::MIN and the direction is Up.
    let mut m = demo();
    m.board.snakes[1] = snake(2, vec![c(0, 2), c(0, 0), c(0, 4), c(1, 4)]);
    let mut s = State::new(m, Weights(1, 1, 1, 1));
    let r = s.minimax(2, i32::MIN, i32::MAX, true, (Up, 40));
    assert_eq!(r.0, i32::MIN);
    assert_eq!(r.3, Up);
}

#[test]
fn searchable_and_sane_checks() {
    assert!(is_searchable(&demo()));
    assert!(is_sane(&demo(), Weights(1, 1, 1, 1)));
    // Two snakes with the same id.
    let mut twins = demo();
    twins.board.snakes[1].id = 1;
    assert!(!is_searchable(&twins));
    // `you` differs from the board's snake with its id.
    let mut stale = demo();
    stale.you.health = 3;
    assert!(!is_searchable(&stale));
    // Two living rivals.
    let mut crowd = demo();
    crowd.board.snakes.push(snake(3, vec![c(8, 8), c(8, 9)]));
    assert!(!is_searchable(&crowd));
    // A board wider than 60 cells is searchable but not sane.
    let mut wide = demo();
    wide.board.width = 70;
    assert!(is_searchable(&wide));
    assert!(!is_sane(&wide, Weights(1, 1, 1, 1)));
    // Food far off the board.
    let mut far = demo();
    far.board.food = vec![c(80, 0)];
    assert!(!is_sane(&far, Weights(1, 1, 1, 1)));
}

#[test]
fn minimax_leaves_the_table_alone_at_terminal_and_leaf_nodes() {
    let mut dead = demo();
    dead.you.status = Status::Dead;
    let mut s = State::new(dead, Weights(1, 1, 1, 1));
    let before = s.move_table.clone();
    s.minimax(3, -5, 5, true, (Up, 40));
    assert!(s.move_table == before);
    assert_eq!(s.tt_hits, (0, 0));
    let mut s = State::new(demo(), Weights(1, 1, 1, 1));
    s.minimax(0, i32::MIN, i32::MAX, true, (Up, 40));
    assert!(s.move_table == before);
    assert_eq!(s.tt_hits, (0, 0));
}
