use maze_search::maze::MazeState;
use maze_search::search::{
    beamSearchAction, beamSearchActionWithTimeThreshold, chokudaiSearchAction,
    chokudaiSearchActionWithTimeThreshold, greedyAction, playGame, randomAction, SearchError,
};

fn reward_grid() -> Vec<Vec<u64>> {
    vec![
        vec![0, 6, 0, 6],
        vec![0, 6, 0, 6],
        vec![0, 6, 0, 6],
    ]
}

fn scenario() -> MazeState {
    MazeState::fromGrid(reward_grid(), 0, 0, 4).expect("valid board")
}

#[test]
fn greedy_reaches_eighteen_on_the_reward_grid() {
    // 3x4 grid, rewards [[0,6,0,6],[0,6,0,6],[0,6,0,6]], agent at (0,0),
    // four turns: greedy play must collect exactly 18.
    let mut s = scenario();
    while !s.isDone() {
        let a = greedyAction(&s).expect("moves exist");
        s.advance(a);
    }
    assert_eq!(s.game_score, 18);
    assert_eq!(s.turn, 4);
}

#[test]
fn greedy_prefers_the_highest_gain() {
    let s = scenario();
    // from (0,0): action 0 collects 6, action 2 collects 0
    assert_eq!(greedyAction(&s), Ok(0));
}

#[test]
fn greedy_breaks_ties_by_the_first_action() {
    let grid = vec![vec![9, 5], vec![5, 9]];
    let s = MazeState::fromGrid(grid, 0, 0, 2).expect("valid board");
    // both moves gain 5: the first legal action (0) wins
    assert_eq!(greedyAction(&s), Ok(0));
}

#[test]
fn strategies_report_no_legal_moves_on_one_by_one() {
    let tiny = MazeState::fromGrid(vec![vec![0]], 0, 0, 1).expect("valid board");
    assert_eq!(greedyAction(&tiny), Err(SearchError::NoLegalMoves));
    assert_eq!(beamSearchAction(&tiny, 2, 3), Err(SearchError::NoLegalMoves));
    assert_eq!(chokudaiSearchAction(&tiny, 1, 3, 2), Err(SearchError::NoLegalMoves));
    assert_eq!(
        beamSearchActionWithTimeThreshold(&tiny, 2, 1),
        Err(SearchError::NoLegalMoves)
    );
    assert_eq!(
        chokudaiSearchActionWithTimeThreshold(&tiny, 1, 3, 1),
        Err(SearchError::NoLegalMoves)
    );
    let mut rng: rand::rngs::StdRng = rand::SeedableRng::seed_from_u64(0);
    assert_eq!(randomAction(&tiny, &mut rng), Err(SearchError::NoLegalMoves));
}

#[test]
fn strategies_reject_degenerate_widths_and_depths() {
    let s = scenario();
    assert_eq!(beamSearchAction(&s, 0, 3), Err(SearchError::NoLegalMoves));
    assert_eq!(beamSearchAction(&s, 2, 0), Err(SearchError::NoLegalMoves));
    assert_eq!(chokudaiSearchAction(&s, 0, 3, 1), Err(SearchError::NoLegalMoves));
    assert_eq!(chokudaiSearchAction(&s, 1, 0, 1), Err(SearchError::NoLegalMoves));
    assert_eq!(chokudaiSearchAction(&s, 1, 3, 0), Err(SearchError::NoLegalMoves));
}

#[test]
fn width_one_beam_search_equals_greedy_at_every_turn() {
    // with beam_width = 1 and beam_depth = END_TURN, beam search must give
    // exactly the action sequence of repeated greedy lookahead
    let mut s = scenario();
    let mut greedy_trace = Vec::new();
    let mut beam_trace = Vec::new();
    while !s.isDone() {
        let g = greedyAction(&s).expect("moves exist");
        let b = beamSearchAction(&s, 1, 4).expect("moves exist");
        greedy_trace.push(g);
        beam_trace.push(b);
        assert_eq!(g, b);
        s.advance(g);
    }
    assert_eq!(greedy_trace, beam_trace);
    assert_eq!(s.game_score, 18);
}

#[test]
fn width_one_timed_beam_search_equals_greedy() {
    let s = scenario();
    let g = greedyAction(&s).expect("moves exist");
    let b = beamSearchActionWithTimeThreshold(&s, 1, 5).expect("moves exist");
    assert_eq!(g, b);
}

#[test]
fn beam_search_returns_a_legal_action() {
    let s = scenario();
    let a = beamSearchAction(&s, 3, 4).expect("moves exist");
    assert!(s.legalActions().contains(&a));
}

#[test]
fn chokudai_matches_beam_search_scores_on_the_reward_grid() {
    // with enough sweeps and no time limit, chokudai search must not end a
    // game worse than beam search run with the same width and depth
    let mut beam_state = scenario();
    while !beam_state.isDone() {
        let a = beamSearchAction(&beam_state, 2, 4).expect("moves exist");
        beam_state.advance(a);
    }
    let mut chokudai_state = scenario();
    while !chokudai_state.isDone() {
        let a = chokudaiSearchAction(&chokudai_state, 2, 4, 8).expect("moves exist");
        chokudai_state.advance(a);
    }
    assert!(chokudai_state.game_score >= beam_state.game_score);
    assert_eq!(chokudai_state.game_score, 18);
}

#[test]
fn chokudai_returns_a_legal_action() {
    let s = scenario();
    let a = chokudaiSearchAction(&s, 1, 4, 2).expect("moves exist");
    assert!(s.legalActions().contains(&a));
    let timed = chokudaiSearchActionWithTimeThreshold(&s, 1, 4, 5).expect("moves exist");
    assert!(s.legalActions().contains(&timed));
}

#[test]
fn beam_search_looks_beyond_one_step() {
    // one row [9,1,0,2,0], agent in the middle: greedy takes the 2 on the
    // right, but a two-step lookahead finds 1 + 9 on the left
    let s = MazeState::fromGrid(vec![vec![9, 1, 0, 2, 0]], 2, 0, 2).expect("valid board");
    assert_eq!(greedyAction(&s), Ok(0));
    assert_eq!(beamSearchAction(&s, 2, 2), Ok(1));
}

#[test]
fn chokudai_looks_beyond_one_step() {
    let s = MazeState::fromGrid(vec![vec![9, 1, 0, 2, 0]], 2, 0, 2).expect("valid board");
    assert_eq!(chokudaiSearchAction(&s, 2, 2, 1), Ok(1));
}

#[test]
fn random_action_is_legal() {
    let mut rng: rand::rngs::StdRng = rand::SeedableRng::seed_from_u64(42);
    let s = scenario();
    for _ in 0..20 {
        let a = randomAction(&s, &mut rng).expect("moves exist");
        assert!(s.legalActions().contains(&a));
    }
}

#[test]
fn play_game_scores_within_the_board_total() {
    let s = scenario();
    let score = playGame(s, 1, 2);
    assert!(score <= 18);
    assert_eq!(score % 6, 0);
}
