use wheel_solver::encode::{encode, Gesture};
use wheel_solver::game::{Action, GameState};
use wheel_solver::search::{select, solve, solve_board};
use wheel_solver::tile::{headroom_of, parse_board, Tile, THRESHOLD};
use wheel_solver::visited::Visited;

fn board(text: &str) -> Vec<Tile> {
    parse_board(&text.chars().collect())
}

fn actions(text: &str) -> Vec<Action> {
    text.chars()
        .map(|c| match c {
            'A' => Action::Advance,
            'N' => Action::CounterClockwise,
            'W' => Action::Clockwise,
            'C' => Action::Collect,
            _ => panic!("unknown action letter"),
        })
        .collect()
}

fn placed(tiles: Vec<Tile>, at: usize) -> GameState {
    let mut s = GameState::new(tiles);
    s.location = Some(at);
    s.start_location = Some(at);
    s
}

fn no_double_collect(acts: &[Action]) -> bool {
    acts.windows(2).all(|w| !(w[0] == Action::Collect && w[1] == Action::Collect))
}

/// Best reward over every action sequence, with no memo at all.
fn brute_force(state: &GameState) -> Option<usize> {
    if state.is_cleared() {
        return Some(state.reward);
    }
    let mut best: Option<usize> = None;
    for a in [Action::Advance, Action::CounterClockwise, Action::Clockwise, Action::Collect] {
        if a == Action::Collect && state.action_queue.last() == Some(&Action::Collect) {
            continue;
        }
        let mut next = state.duplicate();
        next.execute(a);
        if let Some(r) = brute_force(&next) {
            best = Some(best.map_or(r, |b| b.max(r)));
        }
    }
    best
}

fn brute_force_board(text: &str) -> usize {
    let tiles = board(text);
    let n = tiles.len();
    (0..n)
        .filter_map(|i| {
            let mut s = placed(tiles.clone(), i);
            s.step();
            brute_force(&s)
        })
        .max()
        .unwrap()
}

/// Cursor after replaying the actions one by one.
fn replay_cursor(acts: &[Action], start: usize, n: usize) -> usize {
    let mut cur = start;
    for a in acts {
        match a {
            Action::CounterClockwise => cur = (cur + n - 1) % n,
            Action::Clockwise => cur = (cur + 1) % n,
            _ => {}
        }
    }
    cur
}

/// Cursor after performing the gestures.
fn gesture_cursor(gs: &[Gesture], start: usize) -> usize {
    let mut cur = start;
    for g in gs {
        match g {
            Gesture::TapOn(p) | Gesture::SwipeOn(p) => cur = *p,
            _ => {}
        }
    }
    cur
}

/// Actions again from the gestures: a tap or swipe on a region is the shortest
/// run of one rotation that reaches it, at most three steps.
fn expand(gs: &[Gesture], start: usize, n: usize, clockwise_first: &[bool]) -> Vec<Action> {
    let mut out = Vec::new();
    let mut cur = start;
    let mut turns = clockwise_first.iter();
    for g in gs {
        match g {
            Gesture::TapActive(k) => out.extend(std::iter::repeat(Action::Advance).take(*k)),
            Gesture::SwipeActive => out.push(Action::Collect),
            Gesture::TapOn(p) | Gesture::SwipeOn(p) => {
                let cw = *turns.next().unwrap();
                let mut steps = 0;
                let mut c = cur;
                loop {
                    c = if cw { (c + 1) % n } else { (c + n - 1) % n };
                    steps += 1;
                    if c == *p || steps == 3 {
                        break;
                    }
                }
                for _ in 0..steps {
                    out.push(if cw { Action::Clockwise } else { Action::CounterClockwise });
                }
                cur = *p;
                if matches!(g, Gesture::SwipeOn(_)) {
                    out.push(Action::Collect);
                }
            }
        }
    }
    out
}

#[test]
fn tick_rules() {
    assert_eq!(Tile::Latent(0).tick(), Tile::Active(1));
    assert_eq!(Tile::Latent(3).tick(), Tile::Latent(2));
    assert_eq!(Tile::Active(2).tick(), Tile::Active(3));
    assert_eq!(Tile::Active(THRESHOLD - 1).tick(), Tile::Active(THRESHOLD));
    assert_eq!(Tile::Active(THRESHOLD).tick(), Tile::Dead);
    assert_eq!(Tile::Active(40).tick(), Tile::Dead);
    assert_eq!(Tile::Dead.tick(), Tile::Dead);
}

#[test]
fn parse_digits_and_dead() {
    assert_eq!(
        board("0a9-é"),
        vec![Tile::Latent(0), Tile::Dead, Tile::Latent(9), Tile::Dead, Tile::Dead]
    );
    assert_eq!(board(""), Vec::<Tile>::new());
}

#[test]
fn ticking_clears_within_bound() {
    let mut s = GameState::new(board("9-05"));
    let bound = 9 + THRESHOLD + 1;
    for _ in 0..bound - 1 {
        s.step();
    }
    assert!(!s.is_cleared());
    assert_eq!(s.tiles[0], Tile::Active(THRESHOLD));
    s.step();
    assert!(s.is_cleared());
}

#[test]
fn ticking_clears_active_and_latent_boards() {
    for text in ["", "-", "0", "000000", "012345", "999999", "7-3"] {
        let tiles = board(text);
        let max = tiles
            .iter()
            .map(|t| match t {
                Tile::Latent(n) => *n,
                _ => 0,
            })
            .max()
            .unwrap_or(0);
        let mut s = GameState::new(tiles);
        for _ in 0..max + THRESHOLD + 1 {
            s.step();
        }
        assert!(s.is_cleared(), "board {text:?}");
    }
}

#[test]
fn first_tick_of_zeros_activates_all() {
    let mut s = GameState::new(board("000"));
    s.step();
    assert_eq!(s.tiles, vec![Tile::Active(1); 3]);
}

#[test]
fn collect_scores_square_and_kills() {
    let mut s = placed(vec![Tile::Latent(1), Tile::Active(3), Tile::Dead], 1);
    s.execute(Action::Collect);
    assert_eq!(s.reward, 9);
    assert_eq!(s.tiles, vec![Tile::Latent(1), Tile::Dead, Tile::Dead]);
    assert_eq!(s.location, Some(1));
    let mut s = placed(vec![Tile::Latent(1), Tile::Active(3)], 0);
    s.execute(Action::Collect);
    assert_eq!(s.reward, 0);
    assert_eq!(s.tiles, vec![Tile::Dead, Tile::Active(3)]);
}

#[test]
fn rotations_wrap_and_tick() {
    let mut s = placed(board("000"), 0);
    s.execute(Action::CounterClockwise);
    assert_eq!(s.location, Some(2));
    assert_eq!(s.tiles, vec![Tile::Active(1); 3]);
    s.execute(Action::Clockwise);
    assert_eq!(s.location, Some(0));
    s.execute(Action::Clockwise);
    assert_eq!(s.location, Some(1));
    s.execute(Action::Advance);
    assert_eq!(s.location, Some(1));
    assert_eq!(s.tiles, vec![Tile::Active(4); 3]);
    assert_eq!(s.action_queue, actions("NWWA"));
    assert_eq!(s.location_queue, vec![Some(2), Some(0), Some(1), Some(1)]);
    assert_eq!(s.start_location, Some(0));
}

#[test]
fn reward_never_drops_along_actions() {
    let mut s = placed(board("0123"), 2);
    s.step();
    let mut last = s.reward;
    for a in actions("ACWCACNNCWWAACAAAACAC") {
        s.execute(a);
        assert!(s.reward >= last);
        last = s.reward;
    }
    assert!(last > 0);
}

#[test]
fn selector_prefers_reward_then_fewer_actions() {
    let mut short = placed(vec![Tile::Dead], 0);
    short.reward = 10;
    short.action_queue = actions("AC");
    short.location_queue = vec![Some(0); 2];
    let mut long = placed(vec![Tile::Dead], 0);
    long.reward = 10;
    long.action_queue = actions("AAC");
    long.location_queue = vec![Some(0); 3];
    let kept = select(Some(long.duplicate()), Some(short.duplicate())).unwrap();
    assert_eq!(kept.action_queue.len(), 2);
    let kept = select(Some(short.duplicate()), Some(long.duplicate())).unwrap();
    assert_eq!(kept.action_queue.len(), 2);
    let mut rich = long.duplicate();
    rich.reward = 11;
    let kept = select(Some(short.duplicate()), Some(rich)).unwrap();
    assert_eq!(kept.reward, 11);
    let kept = select(None, Some(long.duplicate())).unwrap();
    assert_eq!(kept.action_queue.len(), 3);
    assert!(select(None, None).is_none());
    let kept = select(Some(short), None).unwrap();
    assert_eq!(kept.action_queue.len(), 2);
}

#[test]
fn memo_keeps_best_reward_on_small_boards() {
    for text in ["00", "01", "10", "11", "2", "1-", "000", "0-0", "010"] {
        let (best, _) = solve_board(board(text));
        assert_eq!(best.unwrap().reward, brute_force_board(text), "board {text:?}");
    }
}

#[test]
fn returned_histories_never_collect_twice() {
    for text in ["000", "6-", "012345", "0-0", "33", "000000"] {
        let (best, _) = solve_board(board(text));
        let best = best.unwrap();
        assert!(no_double_collect(&best.action_queue), "board {text:?}");
        assert!(best.is_cleared());
        assert_eq!(best.action_queue.len(), best.location_queue.len());
    }
}

#[test]
fn golden_three_zeros() {
    let (best, count) = solve_board(board("000"));
    let best = best.unwrap();
    assert_eq!(best.reward, 77);
    assert_eq!(best.action_queue, actions("AAACNCNC"));
    assert_eq!(best.start_location, Some(0));
    assert_eq!(best.location, Some(1));
    assert_eq!(count, 442);
}

#[test]
fn golden_six_and_dead() {
    let (best, count) = solve_board(board("6-"));
    let best = best.unwrap();
    assert_eq!(best.reward, 36);
    assert_eq!(best.action_queue, actions("AAAAAAAAAAAC"));
    assert_eq!(best.start_location, Some(0));
    assert_eq!(count, 25);
}

#[test]
fn golden_rising_countdowns() {
    let (best, count) = solve_board(board("012345"));
    let best = best.unwrap();
    assert_eq!(best.reward, 216);
    assert_eq!(best.action_queue, actions("AAAAACWCWCWCWCWC"));
    assert_eq!(best.start_location, Some(0));
    assert_eq!(best.location, Some(5));
    assert_eq!(count, 17656);
}

#[test]
fn golden_two_of_three() {
    let (best, _) = solve_board(board("010"));
    assert_eq!(best.unwrap().reward, 97);
    let (best, _) = solve_board(board("20"));
    let best = best.unwrap();
    assert_eq!(best.reward, 72);
    assert_eq!(best.action_queue, actions("AAAANCANC"));
}

#[test]
fn cleared_board_is_its_own_result() {
    let (best, count) = solve_board(board("--"));
    let best = best.unwrap();
    assert_eq!(best.reward, 0);
    assert!(best.action_queue.is_empty());
    assert_eq!(best.start_location, None);
    assert_eq!(count, 0);
    let (best, count) = solve_board(Vec::new());
    assert!(best.unwrap().action_queue.is_empty());
    assert_eq!(count, 0);
}

#[test]
fn seen_state_is_pruned() {
    let mut seen = Visited::new();
    let first = solve(GameState::new(board("0")), &mut seen);
    assert_eq!(first.unwrap().reward, 36);
    let visited = seen.len();
    assert_eq!(visited, 7);
    let again = solve(GameState::new(board("0")), &mut seen);
    assert!(again.is_none());
    assert_eq!(seen.len(), visited);
}

#[test]
fn encode_runs_and_swipes() {
    let acts = actions("AAWWWWCNAC");
    assert_eq!(
        encode(&acts, 0, 6),
        vec![
            Gesture::TapActive(2),
            Gesture::TapOn(3),
            Gesture::SwipeOn(4),
            Gesture::TapOn(3),
            Gesture::TapActive(1),
            Gesture::SwipeActive,
        ]
    );
    assert_eq!(encode(&actions("NNC"), 0, 6), vec![Gesture::SwipeOn(4)]);
    assert_eq!(encode(&actions("C"), 2, 3), vec![Gesture::SwipeActive]);
    assert_eq!(encode(&Vec::new(), 1, 3), Vec::<Gesture>::new());
    assert_eq!(
        encode(&actions("NNNNNC"), 1, 3),
        vec![Gesture::TapOn(1), Gesture::SwipeOn(2)]
    );
}

#[test]
fn encode_of_golden_plan() {
    let (best, _) = solve_board(board("000"));
    let best = best.unwrap();
    let gs = encode(&best.action_queue, best.start_location.unwrap(), 3);
    assert_eq!(
        gs,
        vec![Gesture::TapActive(3), Gesture::SwipeActive, Gesture::SwipeOn(2), Gesture::SwipeOn(1)]
    );
}

#[test]
fn gestures_reach_the_same_cursor() {
    let cases = [
        ("AAWWWWCNAC", 0, 6),
        ("WWWWWWWC", 2, 6),
        ("NNNNNNNNCACWC", 1, 3),
        ("CAWNWNCC", 0, 2),
        ("AAAACWCWCWCWCWC", 0, 6),
        ("NWNWNWWWWWNNNNC", 4, 5),
    ];
    for (text, start, n) in cases {
        let acts = actions(text);
        let gs = encode(&acts, start, n);
        assert_eq!(gesture_cursor(&gs, start), replay_cursor(&acts, start, n), "{text}");
    }
}

#[test]
fn gestures_expand_back_on_large_wheel() {
    let acts = actions("AAWWWWWCANNCWA");
    let gs = encode(&acts, 0, 12);
    let dirs = [true, true, false, true];
    assert_eq!(expand(&gs, 0, 12, &dirs), acts);
}

#[test]
fn headroom_fits_or_not() {
    assert_eq!(headroom_of(&board("0-9")), Some(72));
    assert_eq!(headroom_of(&vec![Tile::Active(10)]), Some(100));
    assert_eq!(headroom_of(&Vec::new()), Some(0));
    assert_eq!(headroom_of(&vec![Tile::Active(usize::MAX)]), None);
}

#[test]
fn execute_with_cursor_but_no_start() {
    let mut s = GameState::new(vec![Tile::Active(3), Tile::Latent(0)]);
    s.location = Some(0);
    s.execute(Action::Collect);
    assert_eq!(s.reward, 9);
    assert_eq!(s.tiles, vec![Tile::Dead, Tile::Latent(0)]);
    assert_eq!(s.location, Some(0));
    assert_eq!(s.action_queue, vec![Action::Collect]);
    assert_eq!(s.location_queue, vec![Some(0)]);

    let mut s = GameState::new(vec![Tile::Latent(0), Tile::Active(2), Tile::Dead]);
    s.location = Some(0);
    s.execute(Action::CounterClockwise);
    assert_eq!(s.location, Some(2));
    assert_eq!(s.tiles, vec![Tile::Active(1), Tile::Active(3), Tile::Dead]);
    assert_eq!(s.reward, 0);
    assert_eq!(s.action_queue, vec![Action::CounterClockwise]);
    assert_eq!(s.location_queue, vec![Some(2)]);
}

#[test]
fn plan_cursor_history_matches_replay() {
    for text in ["000", "012345", "20"] {
        let (best, _) = solve_board(board(text));
        let best = best.unwrap();
        let n = text.chars().count();
        let start = best.start_location.unwrap();
        for (j, loc) in best.location_queue.iter().enumerate() {
            assert_eq!(*loc, Some(replay_cursor(&best.action_queue[..=j], start, n)));
        }
    }
}
