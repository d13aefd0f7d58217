use maze_search::anneal::{
    annealPropose, annealResolve, annealResult, annealStart, hillClimb, hillClimbFrom,
    randomAction,
};
use maze_search::auto_maze::AutoMoveMazeState;
use maze_search::coord::Coord;
use maze_search::rng::Xorshift;

fn state_on(grid: Vec<Vec<u64>>, agents: Vec<(usize, usize)>, end_turn: usize)
    -> AutoMoveMazeState {
    AutoMoveMazeState {
        points: grid,
        turn: 0,
        characters: agents.into_iter().map(|(x, y)| Coord { x, y }).collect(),
        game_score: 0,
        evaluated_score: 0,
        end_turn,
    }
}

#[test]
fn new_fills_every_cell_with_small_rewards() {
    let mut rng = Xorshift::init(9);
    let s = AutoMoveMazeState::new(5, 5, 5, 3, &mut rng);
    assert_eq!(s.points.len(), 5);
    assert!(s.points.iter().all(|row| row.len() == 5));
    assert!(s.points.iter().all(|row| row.iter().all(|&p| (1..=9).contains(&p))));
    assert_eq!(s.characters.len(), 3);
    assert!(s.characters.iter().all(|c| c.x == 0 && c.y == 0));
    assert_eq!(s.turn, 0);
    assert_eq!(s.game_score, 0);
    assert_eq!(s.end_turn, 5);
}

#[test]
fn set_character_places_one_agent() {
    let mut rng = Xorshift::init(9);
    let mut s = AutoMoveMazeState::new(5, 5, 5, 3, &mut rng);
    s.setCharacter(1, 4, 2);
    assert_eq!(s.characters[1], Coord { x: 2, y: 4 });
    assert_eq!(s.characters[0], Coord { x: 0, y: 0 });
}

#[test]
fn move_player_picks_the_richest_neighbour() {
    // agent at (0,0): right cell holds 2, down cell holds 3
    let mut s = state_on(vec![vec![1, 2], vec![3, 4]], vec![(0, 0)], 2);
    s.movePlayer(0);
    assert_eq!(s.characters[0], Coord { x: 0, y: 1 });
}

#[test]
fn move_player_breaks_ties_by_the_lowest_action() {
    // right and down both hold 5: the lower action index (x+1) wins
    let mut s = state_on(vec![vec![0, 5], vec![5, 0]], vec![(0, 0)], 2);
    s.movePlayer(0);
    assert_eq!(s.characters[0], Coord { x: 1, y: 0 });
}

#[test]
fn move_player_on_one_by_one_stays_put() {
    let mut s = state_on(vec![vec![0]], vec![(0, 0)], 1);
    s.movePlayer(0);
    assert_eq!(s.characters[0], Coord { x: 0, y: 0 });
}

#[test]
fn advance_collects_a_shared_cell_only_once() {
    // both agents' best move is the 9 at (x=1, y=0); only the first in agent
    // order collects it — intentional favouring by index
    let mut s = state_on(vec![vec![0, 9], vec![0, 0]], vec![(0, 0), (1, 1)], 1);
    s.advance();
    assert_eq!(s.characters[0], Coord { x: 1, y: 0 });
    assert_eq!(s.characters[1], Coord { x: 1, y: 0 });
    assert_eq!(s.game_score, 9);
    assert_eq!(s.points[0][1], 0);
    assert_eq!(s.turn, 1);
    assert!(s.isDone());
}

#[test]
fn get_score_replays_the_auto_pilot() {
    // one row [4, 7]: the agent's own cell is zeroed first, then one turn
    // moves it onto the 7
    let s = state_on(vec![vec![4, 7]], vec![(0, 0)], 1);
    assert_eq!(s.getScore(), 7);
}

#[test]
fn get_score_does_not_reward_standing_still() {
    // a lone agent on a 1x1 board collects nothing
    let s = state_on(vec![vec![9]], vec![(0, 0)], 3);
    assert_eq!(s.getScore(), 0);
}

#[test]
fn get_score_leaves_the_state_untouched() {
    let s = state_on(vec![vec![4, 7]], vec![(0, 0)], 1);
    let _ = s.getScore();
    assert_eq!(s.turn, 0);
    assert_eq!(s.game_score, 0);
    assert_eq!(s.points, vec![vec![4, 7]]);
}

#[test]
fn init_places_all_agents_on_the_board() {
    let mut rng = Xorshift::init(33);
    let mut s = AutoMoveMazeState::new(4, 6, 5, 3, &mut rng);
    s.init(&mut rng);
    assert!(s.characters.iter().all(|c| c.x < 6 && c.y < 4));
    assert_eq!(s.turn, 0);
    assert_eq!(s.game_score, 0);
}

#[test]
fn init2_places_all_agents_on_the_board() {
    let mut rng = Xorshift::init(33);
    let mut s = AutoMoveMazeState::new(5, 5, 5, 3, &mut rng);
    let grid_before = s.points.clone();
    s.init2(&mut rng);
    assert!(s.characters.iter().all(|c| c.x < 5 && c.y < 5));
    assert_eq!(s.points, grid_before);
}

#[test]
fn transition_moves_at_most_one_agent() {
    let mut rng = Xorshift::init(77);
    let mut s = AutoMoveMazeState::new(5, 5, 5, 3, &mut rng);
    s.init(&mut rng);
    let before = s.characters.clone();
    s.transition(&mut rng);
    let moved = before
        .iter()
        .zip(s.characters.iter())
        .filter(|(a, b)| a != b)
        .count();
    assert!(moved <= 1);
    assert!(s.characters.iter().all(|c| c.x < 5 && c.y < 5));
}

#[test]
fn random_action_keeps_the_board_and_replaces_agents() {
    let mut rng = Xorshift::init(21);
    let s = AutoMoveMazeState::new(5, 5, 5, 3, &mut rng);
    let r = randomAction(&s, &mut rng);
    assert_eq!(r.points, s.points);
    assert_eq!(r.turn, s.turn);
    assert_eq!(r.game_score, s.game_score);
    assert_eq!(r.characters.len(), 3);
    assert!(r.characters.iter().all(|c| c.x < 5 && c.y < 5));
}

#[test]
fn hill_climbing_never_gets_worse_than_its_start() {
    let mut rng = Xorshift::init(4242);
    let mut s = AutoMoveMazeState::new(5, 5, 5, 3, &mut rng);
    s.init(&mut rng);
    let start_score = s.getScore();
    let climbed = hillClimbFrom(&s, &mut rng, 50);
    assert!(climbed.getScore() >= start_score);
    assert_eq!(climbed.points, s.points);
}

#[test]
fn hill_climbing_accepted_scores_are_non_decreasing() {
    // drive the acceptance rule by hand: replay hillClimbFrom's discipline
    // and check the held score never drops
    let mut rng = Xorshift::init(555);
    let mut s = AutoMoveMazeState::new(5, 5, 5, 3, &mut rng);
    s.init(&mut rng);
    let mut held = s.getScore();
    let mut accepted = vec![held];
    let mut now = s.clone();
    for _ in 0..30 {
        let mut cand = now.clone();
        cand.transition(&mut rng);
        let sc = cand.getScore();
        if sc > held {
            held = sc;
            now = cand;
            accepted.push(held);
        }
    }
    assert!(accepted.windows(2).all(|w| w[0] <= w[1]));
}

#[test]
fn hill_climb_runs_from_a_random_start() {
    let mut rng = Xorshift::init(99);
    let s = AutoMoveMazeState::new(5, 5, 5, 3, &mut rng);
    let r = hillClimb(&s, &mut rng, 25);
    assert_eq!(r.points, s.points);
    assert_eq!(r.characters.len(), 3);
}

#[test]
fn annealing_tracks_the_best_ever_candidate() {
    let mut rng = Xorshift::init(2024);
    let mut s = AutoMoveMazeState::new(5, 5, 5, 3, &mut rng);
    s.init(&mut rng);
    let mut run = annealStart(&s, &mut rng);
    let mut best_seen = run.best_score;
    for i in 0..40 {
        let (cand, sc) = annealPropose(&run, &mut rng);
        if sc > best_seen {
            best_seen = sc;
        }
        // alternate the worsening coin to let the current state wander
        annealResolve(&mut run, cand, sc, i % 2 == 0);
        assert!(run.best_score >= run.now_score);
    }
    let (_, final_best) = annealResult(run);
    assert_eq!(final_best, best_seen);
}

#[test]
fn annealing_is_never_worse_than_hill_climbing_on_the_same_candidates() {
    // feed the two acceptance disciplines one identical candidate stream
    let mut rng = Xorshift::init(31337);
    let mut s = AutoMoveMazeState::new(5, 5, 5, 3, &mut rng);
    s.init(&mut rng);
    let init_score = s.getScore();

    let mut cand_scores = Vec::new();
    let mut probe = s.clone();
    for _ in 0..25 {
        let mut cand = probe.clone();
        cand.transition(&mut rng);
        cand_scores.push(cand.getScore());
        probe = cand;
    }

    // hill-climb fold: accept only strict improvements
    let mut hc = init_score;
    for &sc in &cand_scores {
        if sc > hc {
            hc = sc;
        }
    }
    // annealing's best-ever fold, with an arbitrary coin pattern
    let mut sa_best = init_score;
    for (i, &sc) in cand_scores.iter().enumerate() {
        let _coin = i % 3 == 0;
        if sc > sa_best {
            sa_best = sc;
        }
    }
    assert!(sa_best >= hc);
    assert_eq!(sa_best, hc);
}

#[test]
fn anneal_resolve_follows_the_acceptance_rule() {
    let mut rng = Xorshift::init(808);
    let mut s = AutoMoveMazeState::new(5, 5, 5, 2, &mut rng);
    s.init(&mut rng);
    let mut run = annealStart(&s, &mut rng);
    let (cand, sc) = annealPropose(&run, &mut rng);
    let now_before = run.now_score;
    let best_before = run.best_score;
    annealResolve(&mut run, cand, sc, false);
    if sc >= now_before {
        assert_eq!(run.now_score, sc);
    } else {
        assert_eq!(run.now_score, now_before);
    }
    assert_eq!(run.best_score, best_before.max(sc));
}
