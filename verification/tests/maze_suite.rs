use maze_search::coord::Coord;
use maze_search::maze::MazeState;
use maze_search::rng::Xorshift;
use maze_search::timer::TimeKeeper;

fn reward_grid() -> Vec<Vec<u64>> {
    vec![
        vec![0, 6, 0, 6],
        vec![0, 6, 0, 6],
        vec![0, 6, 0, 6],
    ]
}

#[test]
fn from_grid_accepts_a_valid_board() {
    let s = MazeState::fromGrid(reward_grid(), 0, 0, 4).expect("valid board");
    assert_eq!(s.turn, 0);
    assert_eq!(s.game_score, 0);
    assert_eq!(s.end_turn, 4);
    assert_eq!(s.character, Coord { x: 0, y: 0 });
    assert_eq!(s.points.len(), 3);
    assert_eq!(s.points[0].len(), 4);
}

#[test]
fn from_grid_zeroes_the_start_cell() {
    let s = MazeState::fromGrid(vec![vec![3, 1]], 0, 0, 2).expect("valid board");
    assert_eq!(s.points[0][0], 0);
    assert_eq!(s.points[0][1], 1);
}

#[test]
fn from_grid_rejects_ragged_rows() {
    let ragged = vec![vec![1, 2], vec![3]];
    assert!(MazeState::fromGrid(ragged, 0, 0, 2).is_none());
}

#[test]
fn from_grid_rejects_empty_boards() {
    assert!(MazeState::fromGrid(Vec::new(), 0, 0, 2).is_none());
    assert!(MazeState::fromGrid(vec![Vec::new()], 0, 0, 2).is_none());
}

#[test]
fn from_grid_rejects_out_of_bounds_start() {
    assert!(MazeState::fromGrid(vec![vec![1, 2]], 2, 0, 2).is_none());
    assert!(MazeState::fromGrid(vec![vec![1, 2]], 0, 1, 2).is_none());
}

#[test]
fn from_grid_rejects_overflowing_totals() {
    let huge = vec![vec![0, u64::MAX], vec![u64::MAX, 2]];
    assert!(MazeState::fromGrid(huge, 0, 0, 2).is_none());
}

#[test]
fn legal_actions_respect_the_borders() {
    let s = MazeState::fromGrid(reward_grid(), 0, 0, 4).expect("valid board");
    // top-left corner of a 3x4 board: only x+1 (0) and y+1 (2) stay inside
    assert_eq!(s.legalActions(), vec![0, 2]);

    let mid = MazeState::fromGrid(reward_grid(), 1, 1, 4).expect("valid board");
    assert_eq!(mid.legalActions(), vec![0, 1, 2, 3]);

    let corner = MazeState::fromGrid(reward_grid(), 3, 2, 4).expect("valid board");
    // bottom-right corner: only x-1 (1) and y-1 (3)
    assert_eq!(corner.legalActions(), vec![1, 3]);
}

#[test]
fn legal_actions_empty_only_on_one_by_one() {
    let tiny = MazeState::fromGrid(vec![vec![0]], 0, 0, 1).expect("valid board");
    assert!(tiny.legalActions().is_empty());
}

#[test]
fn advance_collects_each_cell_once() {
    // one row [0, 5]: right, left, right again — the 5 counts only once
    let mut s = MazeState::fromGrid(vec![vec![0, 5]], 0, 0, 3).expect("valid board");
    s.advance(0);
    assert_eq!(s.game_score, 5);
    assert_eq!(s.points[0][1], 0);
    s.advance(1);
    assert_eq!(s.game_score, 5);
    s.advance(0);
    assert_eq!(s.game_score, 5);
    assert_eq!(s.turn, 3);
    assert!(s.isDone());
}

#[test]
fn advance_moves_the_agent_and_counts_turns() {
    let mut s = MazeState::fromGrid(reward_grid(), 0, 0, 4).expect("valid board");
    s.advance(2);
    assert_eq!(s.character, Coord { x: 0, y: 1 });
    assert_eq!(s.turn, 1);
    assert!(!s.isDone());
}

#[test]
fn evaluate_score_caches_the_game_score() {
    let mut s = MazeState::fromGrid(vec![vec![0, 5]], 0, 0, 1).expect("valid board");
    s.advance(0);
    assert_eq!(s.evaluated_score, 0);
    s.evaluateScore();
    assert_eq!(s.evaluated_score, 5);
}

#[test]
fn new_builds_a_well_formed_random_board() {
    let mut rng: rand::rngs::StdRng = rand::SeedableRng::seed_from_u64(7);
    let s = MazeState::new(5, 6, 10, &mut rng);
    assert_eq!(s.points.len(), 5);
    assert!(s.points.iter().all(|row| row.len() == 6));
    assert!(s.points.iter().all(|row| row.iter().all(|&p| p <= 9)));
    assert!(s.character.x < 6 && s.character.y < 5);
    assert_eq!(s.points[s.character.y][s.character.x], 0);
    assert_eq!(s.turn, 0);
    assert_eq!(s.game_score, 0);
    assert_eq!(s.end_turn, 10);
}

#[test]
fn xorshift_is_deterministic() {
    let mut a = Xorshift::init(5);
    // 5 ^ (5 << 7) = 645, then 645 ^ (645 >> 9) = 644
    assert_eq!(a.gen(), 644);
    let mut b = Xorshift::init(5);
    assert_eq!(b.gen(), 644);
}

#[test]
fn xorshift_gen_range_stays_in_range() {
    let mut x = Xorshift::init(5);
    // 644 % (10 - 3) = 0, plus 3
    assert_eq!(x.gen_range(3, 10), 3);
    let mut y = Xorshift::init(12345);
    for _ in 0..100 {
        let v = y.gen_range(2, 9);
        assert!((2..9).contains(&v));
    }
}

#[test]
fn xorshift_gen_bool_follows_the_low_bit() {
    let mut x = Xorshift::init(5);
    // next state is 644, an even number
    assert!(!x.gen_bool());
    assert_eq!(x.s, 644);
}

#[test]
fn time_keeper_reports_an_instant_deadline_at_once() {
    let tk = TimeKeeper::new(0);
    assert!(tk.isTimeOver());
}

#[test]
fn time_keeper_with_a_huge_budget_is_not_over() {
    let tk = TimeKeeper::new(u64::MAX);
    assert!(!tk.isTimeOver());
    assert_eq!(tk.threshold_ms, u64::MAX);
}

#[test]
fn clones_are_independent() {
    let s = MazeState::fromGrid(reward_grid(), 0, 0, 4).expect("valid board");
    let mut c = s.clone();
    c.advance(0);
    assert_eq!(s.turn, 0);
    assert_eq!(s.game_score, 0);
    assert_eq!(c.turn, 1);
}
