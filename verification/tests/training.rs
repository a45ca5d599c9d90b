use inundiato::train::{diagonal_cell, offset_weights, Game, Trainer, Variant};
use inundiato::types::{Coordinate, Weights};
use inundiato::small::Status;

#[test]
fn variant_elo_bookkeeping() {
    let mut v = Variant::new(Weights(1, 2, 3, 4));
    assert_eq!(v.elo, 0);
    v.reg_win();
    assert_eq!(v.elo, 5);
    v.reg_loss();
    v.reg_loss();
    assert_eq!(v.elo, -1);
    assert_eq!(v.genome, Weights(1, 2, 3, 4));
}

#[test]
fn randomize_stays_within_the_variance() {
    let w = Weights(100, 200, -300, 0);
    for _ in 0..200 {
        let r = w.randomize(10);
        assert!(90 <= r.0 && r.0 < 110);
        assert!(190 <= r.1 && r.1 < 210);
        assert!(-310 <= r.2 && r.2 < -290);
        assert!(-10 <= r.3 && r.3 < 10);
    }
    let r = w.randomize(1);
    assert!(r.0 == 99 || r.0 == 100);
    assert!(r.3 == -1 || r.3 == 0);
}

#[test]
fn create_children_makes_fresh_variants() {
    let parent = Variant { genome: Weights(50, 50, 50, 50), elo: 42 };
    let kids = parent.create_children(30, 10);
    assert_eq!(kids.len(), 30);
    for k in &kids {
        assert_eq!(k.elo, 0);
        assert!(40 <= k.genome.0 && k.genome.0 < 60);
    }
    assert_eq!(parent.create_children(0, 0), vec![]);
}

#[test]
fn tune_with_no_cycles_returns_the_input() {
    let mut t = Trainer { variants: vec![] };
    let v = Variant::new(Weights(5, 6, 7, 8));
    assert_eq!(t.tune(v, 0), v);
    assert!(t.variants.is_empty());
}

#[test]
fn gen_start_places_snakes_and_food() {
    let g = Game::gen_start(2);
    let m1 = g.for_id(1);
    assert_eq!(m1.board.width, 11);
    assert_eq!(m1.board.height, 11);
    assert_eq!(m1.turn, 0);
    assert_eq!(m1.board.snakes.len(), 2);
    assert_eq!(m1.board.food.len(), 3);
    assert_eq!(m1.board.food[2], Coordinate::new(5, 5));
    let starts = [(1, 1), (1, 5), (1, 9), (5, 1), (5, 9), (9, 1), (9, 5), (9, 9)];
    for (i, s) in m1.board.snakes.iter().enumerate() {
        assert_eq!(s.id as usize, i);
        assert_eq!(s.health, 100);
        assert_eq!(s.length, 3);
        assert_eq!(s.status, Status::Alive);
        assert_eq!(s.head, Coordinate::new(3, 3));
        assert_eq!(s.body.len(), 4);
        assert_eq!(s.body[0], Coordinate::new(3, 3));
        assert!(starts.contains(&(s.body[1].x, s.body[1].y)));
        assert_eq!(s.body[1], s.body[2]);
        assert_eq!(s.body[2], s.body[3]);
        let f = m1.board.food[i];
        assert!((f.x - 3).abs() == 1 && (f.y - 3).abs() == 1);
    }
    assert_ne!(m1.board.snakes[0].body[1], m1.board.snakes[1].body[1]);
    assert_eq!(m1.you, m1.board.snakes[1]);
    // There is no snake with id 2: the first snake is used.
    assert_eq!(g.for_id(2).you, m1.board.snakes[0]);
}

#[test]
fn matchups_pair_every_two_variants_once() {
    let t = Trainer { variants: vec![Variant::new(Weights(0, 0, 0, 0)); 4] };
    assert_eq!(t.get_matchups(), vec![(0, 1), (0, 2), (0, 3), (1, 2), (1, 3), (2, 3)]);
    let one = Trainer { variants: vec![Variant::new(Weights(0, 0, 0, 0))] };
    assert_eq!(one.get_matchups(), vec![]);
}

#[test]
fn record_outcome_scores_by_the_final_statuses() {
    let mut t = Trainer { variants: vec![Variant::new(Weights(0, 0, 0, 0)); 3] };
    t.record_outcome(0, 2, Status::Dead, Status::Dead);
    assert_eq!(t.variants.iter().map(|v| v.elo).collect::<Vec<_>>(), vec![-3, 0, -3]);
    t.record_outcome(0, 1, Status::Alive, Status::Dead);
    assert_eq!(t.variants.iter().map(|v| v.elo).collect::<Vec<_>>(), vec![2, -3, -3]);
    t.record_outcome(1, 2, Status::Dead, Status::Alive);
    assert_eq!(t.variants.iter().map(|v| v.elo).collect::<Vec<_>>(), vec![2, -6, 2]);
    // g1's snake alive counts as a win for g1 even when g2's is alive too.
    t.record_outcome(2, 0, Status::Alive, Status::Alive);
    assert_eq!(t.variants.iter().map(|v| v.elo).collect::<Vec<_>>(), vec![-1, -6, 7]);
}

#[test]
fn offset_weights_adds_each_offset() {
    assert_eq!(offset_weights(Weights(10, 20, 30, 40), -3, 0, 9, -10), Weights(7, 20, 39, 30));
}

#[test]
fn diagonal_cell_picks_the_indexed_diagonal() {
    let h = Coordinate::new(3, 3);
    assert_eq!(diagonal_cell(h, 0), Coordinate::new(2, 2));
    assert_eq!(diagonal_cell(h, 1), Coordinate::new(2, 4));
    assert_eq!(diagonal_cell(h, 2), Coordinate::new(4, 2));
    assert_eq!(diagonal_cell(h, 3), Coordinate::new(4, 4));
}
