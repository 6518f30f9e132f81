use vstd::prelude::*;
use crate::tile::{Tile, all_dead, board_headroom, lemma_sum_update, lemma_tick_measures, lifetime, potential, tick_board};
use crate::game::{Action, GameState, acted, copy_vec, gain, moved, no_double_collect, replay};
use crate::encode::{cursor_after, gesture_cursor, gestures, lemma_gestures_cursor, lemma_replay_cursor};
use crate::optimal::{
    lemma_opt_bounded, lemma_replay_within_opt, all_expanded, covered, effective, expanded, expanded_at, expanded_but, lemma_covered_mono,
    lemma_expanded_but_child, lemma_expanded_but_finish, lemma_expanded_but_start,
};
use crate::visited::{KeyModel, SeenState, Visited, lemma_count_empty};

verus! {

/// The canonical key of a state: its board, cursor and reward.
pub open spec fn key_of(s: GameState) -> KeyModel {
    (s.tiles@, s.location, s.reward)
}

/// The last recorded action is a collect.
pub open spec fn ends_with_collect(acts: Seq<Action>) -> bool {
    acts.len() > 0 && acts.last() == Action::Collect
}

/// `t` continues `s`: its history extends that of `s`, and replaying the added
/// actions from `s` (placing the cursor first, if `s` has none) gives the
/// board, cursor and reward of `t`.
#[verifier::opaque]
pub open spec fn reached(s: GameState, t: GameState) -> bool {
    let k = s.action_queue@.len();
    let extra = t.action_queue@.subrange(k as int, t.action_queue@.len() as int);
    &&& k <= t.action_queue@.len()
    &&& t.action_queue@.subrange(0, k as int) == s.action_queue@
    &&& match s.location {
        Some(l) => t.start_location == s.start_location && replay(s.tiles@, l as int, s.reward as int, extra)
            == (t.tiles@, t.cursor(), t.reward as int),
        None => (extra.len() == 0 && t.tiles@ == s.tiles@ && t.reward == s.reward) || (
        t.start_location matches Some(i) && i < s.tiles@.len() && replay(
            tick_board(s.tiles@),
            i as int,
            s.reward as int,
            extra,
        ) == (t.tiles@, t.cursor(), t.reward as int)),
    }
}

/// The cursor where the actions that `t` adds to `s` start: that of `s`, or
/// the region on which `t` started when `s` had none.
pub open spec fn first_cursor(s: GameState, t: GameState) -> int {
    match s.location {
        Some(l) => l as int,
        None => t.start_location->Some_0 as int,
    }
}

/// Each cursor that `t` records beyond those of `s` is the cursor after the
/// actions added up to and including its own.
#[verifier::opaque]
pub open spec fn cursor_history(s: GameState, t: GameState) -> bool {
    let k = s.action_queue@.len() as int;
    forall|j: int|
        k <= j < t.location_queue@.len() ==> #[trigger] t.location_queue@[j] == Some(
            cursor_after(first_cursor(s, t), s.tiles@.len() as int, t.action_queue@.subrange(k, j + 1))
                as usize,
        )
}

/// The selection order: more reward, or the same reward in fewer actions.
pub open spec fn prefers(candidate: GameState, incumbent: GameState) -> bool {
    candidate.reward > incumbent.reward || (candidate.reward == incumbent.reward
        && candidate.action_queue@.len() < incumbent.action_queue@.len())
}

/// Keeps the better of the best so far and a new result.
pub fn select(best: Option<GameState>, result: Option<GameState>) -> (r: Option<GameState>)
    ensures
        r == match (best, result) {
            (None, res) => res,
            (Some(b), None) => Some(b),
            (Some(b), Some(c)) => if prefers(c, b) {
                Some(c)
            } else {
                Some(b)
            },
        },
{
    match (best, result) {
        (None, res) => res,
        (Some(b), None) => Some(b),
        (Some(b), Some(c)) => {
            if c.reward > b.reward || (c.reward == b.reward && c.action_queue.len()
                < b.action_queue.len()) {
                Some(c)
            } else {
                Some(b)
            }
        },
    }
}

/// Of two results with the same reward, the selector keeps the one with fewer
/// actions, whichever of the two it met first.
pub proof fn lemma_tie_break(a: GameState, b: GameState)
    requires
        a.reward == b.reward,
        a.action_queue@.len() < b.action_queue@.len(),
    ensures
        prefers(a, b),
        !prefers(b, a),
{
}

/// What a result of the search owes: a cleared board, reached from `s`, with
/// no less reward, a cursor, a cursor history that extends that of `s`, and
/// no two collects in a row unless `s` already had them.
#[verifier::opaque]
pub open spec fn good_result(s: GameState, t: GameState) -> bool {
    &&& t.wf()
    &&& all_dead(t.tiles@)
    &&& reached(s, t)
    &&& t.reward >= s.reward
    &&& ((s.location is Some || !all_dead(s.tiles@)) ==> t.location is Some)
    &&& s.location_queue@.len() <= t.location_queue@.len()
    &&& t.location_queue@.subrange(0, s.location_queue@.len() as int) == s.location_queue@
    &&& cursor_history(s, t)
    &&& (no_double_collect(s.action_queue@) ==> no_double_collect(t.action_queue@))
}

/// The reward of a result, or -1 when there is none.
pub open spec fn reward_bound(r: Option<GameState>) -> int {
    match r {
        Some(t) => t.reward as int,
        None => -1,
    }
}

/// After a collect the tile under the cursor is dead.
pub open spec fn collect_settled(s: GameState) -> bool {
    ends_with_collect(s.action_queue@) ==> (s.location matches Some(l) && s.tiles@[l as int] is Dead)
}

/// Depth-first search from `state` for the cleared board with the highest
/// reward, the fewest actions among equals, pruning every state whose key is
/// already in `seen` and adding the key of every state it expands.
pub fn solve(state: GameState, seen: &mut Visited) -> (r: Option<GameState>)
    requires
        state.wf(),
        collect_settled(state),
        old(seen).wf(),
    ensures
        all_expanded(final(seen)@, old(seen)@, reward_bound(r)),
        final(seen).wf(),
        old(seen)@.subset_of(final(seen)@),
        all_dead(state.tiles@) ==> r == Some(state) && final(seen)@ == old(seen)@,
        !all_dead(state.tiles@) ==> final(seen)@.contains(key_of(state)),
        !all_dead(state.tiles@) && old(seen)@.contains(key_of(state)) ==> r is None && final(seen)@
            == old(seen)@,
        r matches Some(t) ==> good_result(state, t),
        (forall|k: KeyModel| #[trigger] old(seen)@.contains(k) ==> potential(k.0) > potential(state.tiles@))
            ==> r is Some,
    decreases potential(state.tiles@), if ends_with_collect(state.action_queue@) {
        0nat
    } else {
        1nat
    },
{
    if state.is_cleared() {
        proof {
            lemma_cleared_result(state);
        }
        return Some(state);
    }
    let key = SeenState { tiles: copy_vec(&state.tiles), location: state.location, reward: state.reward };
    if seen.contains(&key) {
        return None;
    }
    seen.insert(key);
    proof {
        lemma_expanded_but_start(old(seen)@, key_of(state), -1);
    }
    let ghost fresh = forall|k: KeyModel| #[trigger] old(seen)@.contains(k) ==> potential(k.0) > potential(state.tiles@);
    proof {
        lemma_tick_measures(state.tiles@);
    }
    let mut best: Option<GameState> = None;
    let n = state.tiles.len();
    if state.location.is_none() {
        let mut i: usize = 0;
        while i < n
            invariant
                state.wf(),
                state.location is None,
                !all_dead(state.tiles@),
                n == state.tiles@.len(),
                potential(tick_board(state.tiles@)) < potential(state.tiles@),
                i <= n,
                seen.wf(),
                old(seen)@.subset_of(seen@),
                seen@.contains(key_of(state)),
                best matches Some(t) ==> good_result(state, t),
                i == 0 ==> seen@ == old(seen)@.insert(key_of(state)),
                fresh == forall|k: KeyModel| #[trigger] old(seen)@.contains(k) ==> potential(k.0) > potential(state.tiles@),
                fresh && i > 0 ==> best is Some,
                collect_settled(state),
                expanded_but(seen@, old(seen)@, key_of(state), reward_bound(best)),
                forall|i2: int|
                    0 <= i2 < i ==> #[trigger] covered(
                        seen@,
                        tick_board(state.tiles@),
                        i2,
                        state.reward as int,
                        reward_bound(best),
                    ),
            decreases n - i,
        {
            let mut next = state.duplicate();
            next.location = Some(i);
            next.start_location = Some(i);
            next.step();
            proof {
                lemma_tick_measures(state.tiles@);
            }
            let ghost g = next;
            let ghost s1 = seen@;
            let ghost b1 = reward_bound(best);
            let result = solve(next, seen);
            proof {
                if result is Some {
                    lemma_place(state, g, result->Some_0);
                }
            }
            best = select(best, result);
            proof {
                let b2 = reward_bound(best);
                lemma_expanded_but_child(old(seen)@, key_of(state), s1, seen@, b1, reward_bound(result), b2);
                assert forall|i2: int| 0 <= i2 < i + 1 implies #[trigger] covered(
                    seen@,
                    tick_board(state.tiles@),
                    i2,
                    state.reward as int,
                    b2,
                ) by {
                    if i2 < i {
                        lemma_covered_mono(s1, seen@, tick_board(state.tiles@), i2, state.reward as int, b1, b2);
                    } else {
                        assert(key_of(g) == (tick_board(state.tiles@), Some(i2 as usize), state.reward));
                    }
                }
            }
            i += 1;
        }
    } else {
        let actions: [Action; 4] = [
            Action::Advance,
            Action::CounterClockwise,
            Action::Clockwise,
            Action::Collect,
        ];
        let last_collect = state.action_queue.len() > 0
            && state.action_queue[state.action_queue.len() - 1] == Action::Collect;
        let mut j: usize = 0;
        while j < 4
            invariant
                state.wf(),
                state.location is Some,
                !all_dead(state.tiles@),
                n == state.tiles@.len(),
                potential(tick_board(state.tiles@)) < potential(state.tiles@),
                last_collect == ends_with_collect(state.action_queue@),
                actions@ == seq![
                    Action::Advance,
                    Action::CounterClockwise,
                    Action::Clockwise,
                    Action::Collect,
                ],
                j <= 4,
                seen.wf(),
                old(seen)@.subset_of(seen@),
                seen@.contains(key_of(state)),
                best matches Some(t) ==> good_result(state, t),
                j == 0 ==> seen@ == old(seen)@.insert(key_of(state)),
                fresh == forall|k: KeyModel| #[trigger] old(seen)@.contains(k) ==> potential(k.0) > potential(state.tiles@),
                fresh && j > 0 ==> best is Some,
                collect_settled(state),
                expanded_but(seen@, old(seen)@, key_of(state), reward_bound(best)),
                forall|j2: int|
                    0 <= j2 < j && effective(state.tiles@, state.cursor(), #[trigger] actions@[j2]) ==> covered(
                        seen@,
                        acted(state.tiles@, state.cursor(), actions@[j2]),
                        moved(state.cursor(), n as int, actions@[j2]),
                        state.reward + gain(state.tiles@, state.cursor(), actions@[j2]),
                        reward_bound(best),
                    ),
            decreases 4 - j,
        {
            let action = actions[j];
            let ghost s0 = seen@;
            let ghost b0 = reward_bound(best);
            if !(last_collect && action == Action::Collect) {
                let mut next = state.duplicate();
                next.execute(action);
                proof {
                    let l = state.cursor();
                    if action == Action::Collect {
                        lemma_sum_update(state.tiles@, |t: Tile| lifetime(t), l, Tile::Dead);
                    }
                }
                let ghost g = next;
                let result = solve(next, seen);
                proof {
                    if result is Some {
                        lemma_extend(state, g, result->Some_0, action);
                    }
                }
                best = select(best, result);
                proof {
                    lemma_expanded_but_child(old(seen)@, key_of(state), s0, seen@, b0, reward_bound(result), reward_bound(best));
                    assert(key_of(g) == (
                        acted(state.tiles@, state.cursor(), action),
                        Some(moved(state.cursor(), n as int, action) as usize),
                        (state.reward + gain(state.tiles@, state.cursor(), action)) as usize,
                    ));
                }
            }
            proof {
                let b2 = reward_bound(best);
                assert forall|j2: int|
                    0 <= j2 < j + 1 && effective(state.tiles@, state.cursor(), #[trigger] actions@[j2]) implies covered(
                        seen@,
                        acted(state.tiles@, state.cursor(), actions@[j2]),
                        moved(state.cursor(), n as int, actions@[j2]),
                        state.reward + gain(state.tiles@, state.cursor(), actions@[j2]),
                        b2,
                    ) by {
                    if j2 < j {
                        lemma_covered_mono(
                            s0,
                            seen@,
                            acted(state.tiles@, state.cursor(), actions@[j2]),
                            moved(state.cursor(), n as int, actions@[j2]),
                            state.reward + gain(state.tiles@, state.cursor(), actions@[j2]),
                            b0,
                            b2,
                        );
                    }
                }
            }
            j += 1;
        }
        proof {
            let b = state.tiles@;
            let l = state.cursor();
            let w = state.reward as int;
            let bnd = reward_bound(best);
            assert forall|a: Action| effective(b, l, a) implies #[trigger] covered(
                seen@,
                acted(b, l, a),
                moved(l, b.len() as int, a),
                w + gain(b, l, a),
                bnd,
            ) by {
                let j2: int = match a {
                    Action::Advance => 0,
                    Action::CounterClockwise => 1,
                    Action::Clockwise => 2,
                    Action::Collect => 3,
                };
                assert(actions@[j2] == a);
            }
            assert(expanded_at(seen@, b, l, w, bnd));
        }
    }
    proof {
        assert(expanded(seen@, key_of(state), reward_bound(best)));
        lemma_expanded_but_finish(seen@, old(seen)@, key_of(state), reward_bound(best));
    }
    best
}

/// `t` clears board `b` from a fresh start: every tile of `t` is dead, no two
/// collects follow each other, and, unless `b` was already clear, the cursor
/// was placed on some region with a first tick and replaying the history from
/// there gives the board, cursor and reward of `t`.
pub open spec fn clears(b: Seq<Tile>, t: GameState) -> bool {
    &&& t.wf()
    &&& all_dead(t.tiles@)
    &&& no_double_collect(t.action_queue@)
    &&& if all_dead(b) {
        t.tiles@ == b && t.action_queue@.len() == 0 && t.reward == 0
    } else {
        t.start_location matches Some(i) && i < b.len() && replay(tick_board(b), i as int, 0, t.action_queue@)
            == (t.tiles@, t.cursor(), t.reward as int)
    }
}

/// Searches a fresh run on the board. Returns the best cleared state found and
/// the number of distinct keys visited.
pub fn solve_board(tiles: Vec<Tile>) -> (r: (Option<GameState>, usize))
    requires
        board_headroom(tiles@) <= usize::MAX,
    ensures
        r.0 matches Some(t) && clears(tiles@, t),
        forall|t2: GameState| #[trigger] clears(tiles@, t2) ==> t2.reward <= r.0->Some_0.reward,
        all_dead(tiles@) ==> r.1 == 0,
        !all_dead(tiles@) ==> r.1 >= 1,
{
    let ghost b = tiles@;
    let state = GameState::new(tiles);
    let ghost s0 = state;
    let mut seen = Visited::new();
    let best = solve(state, &mut seen);
    proof {
        if best is Some {
            lemma_fresh_result(s0, best->Some_0);
        }
        lemma_count_empty(&seen);
        lemma_fresh_best(b, s0, seen@, reward_bound(best));
    }
    let count = seen.len();
    (best, count)
}

/// Performing the gestures of a plan that clears a board, from the region it
/// starts on, leaves the cursor where the plan itself leaves it.
pub proof fn lemma_plan_gestures_cursor(b: Seq<Tile>, t: GameState)
    requires
        b.len() <= usize::MAX,
        clears(b, t),
        !all_dead(b),
    ensures
        gesture_cursor(
            gestures(t.action_queue@, t.start_location->Some_0 as int, b.len() as int),
            t.start_location->Some_0 as int,
        ) == t.cursor(),
{
    let i = t.start_location->Some_0 as int;
    assert(tick_board(b).len() == b.len());
    lemma_replay_cursor(tick_board(b), i, 0, t.action_queue@);
    lemma_gestures_cursor(t.action_queue@, i, b.len() as int);
}

/// Once a search from a fresh run has expanded every key it added, no plan that
/// clears the board ends with more than the bound it was expanded against.
proof fn lemma_fresh_best(b: Seq<Tile>, s0: GameState, seen: Set<KeyModel>, bound: int)
    requires
        s0.tiles@ == b,
        s0.location is None,
        s0.reward == 0,
        all_expanded(seen, Set::empty(), bound),
        !all_dead(b) ==> seen.contains(key_of(s0)),
        all_dead(b) ==> bound == 0,
    ensures
        forall|t2: GameState| #[trigger] clears(b, t2) ==> t2.reward <= bound,
{
    assert forall|t2: GameState| #[trigger] clears(b, t2) implies t2.reward <= bound by {
        if !all_dead(b) {
            assert(expanded(seen, key_of(s0), bound));
            assert(key_of(s0).1 is None);
            assert(key_of(s0).0 == b);
            assert(key_of(s0).2 as int == 0);
            let i = t2.start_location->Some_0 as int;
            assert(0 <= i < b.len());
            assert(covered(seen, tick_board(b), i, 0, bound));
            lemma_replay_within_opt(tick_board(b), i, 0, t2.action_queue@);
            lemma_opt_bounded(seen, bound, tick_board(b), i, 0);
        }
    }
}

/// A search from a state with its cursor placed, on a memo that started
/// empty, has a result whose reward no cleared state reached from that state
/// beats. Its `ensures` supply the first three requirements.
pub proof fn lemma_solve_best(state: GameState, seen: Set<KeyModel>, r: GameState, t2: GameState)
    requires
        state.location is Some,
        state.wf(),
        all_expanded(seen, Set::empty(), r.reward as int),
        !all_dead(state.tiles@) ==> seen.contains(key_of(state)),
        all_dead(state.tiles@) ==> r == state,
        good_result(state, t2),
    ensures
        t2.reward <= r.reward,
{
    reveal(good_result);
    reveal(reached);
    let l = state.cursor();
    let k = state.action_queue@.len() as int;
    let extra = t2.action_queue@.subrange(k, t2.action_queue@.len() as int);
    lemma_replay_within_opt(state.tiles@, l, state.reward as int, extra);
    lemma_opt_bounded(seen, r.reward as int, state.tiles@, l, state.reward as int);
}

/// A result of the search from a fresh run clears its board.
proof fn lemma_fresh_result(s: GameState, t: GameState)
    requires
        s.location is None,
        s.reward == 0,
        s.action_queue@.len() == 0,
        all_dead(s.tiles@) ==> t == s,
        good_result(s, t),
    ensures
        clears(s.tiles@, t),
{
    reveal(good_result);
    reveal(reached);
    assert(t.action_queue@.subrange(0, t.action_queue@.len() as int) =~= t.action_queue@);
}

/// A cleared state is a result of itself.
proof fn lemma_cleared_result(s: GameState)
    requires
        s.wf(),
        all_dead(s.tiles@),
    ensures
        good_result(s, s),
{
    reveal(good_result);
    reveal(reached);
    reveal(cursor_history);
    let k = s.action_queue@.len() as int;
    assert(s.action_queue@.subrange(0, k) =~= s.action_queue@);
    assert(s.action_queue@.subrange(k, k) =~= Seq::<Action>::empty());
    assert(s.location_queue@.subrange(0, s.location_queue@.len() as int) =~= s.location_queue@);
}

/// A result reached from the state with its cursor placed at `i` is reached
/// from the state before the cursor was placed.
proof fn lemma_place(s: GameState, c: GameState, t: GameState)
    requires
        s.location is None,
        c.location matches Some(i) && i < s.tiles@.len() && c.start_location == Some(i),
        c.tiles@ == tick_board(s.tiles@),
        c.reward == s.reward,
        c.action_queue@ == s.action_queue@,
        c.location_queue@ == s.location_queue@,
        good_result(c, t),
    ensures
        good_result(s, t),
{
    reveal(good_result);
    reveal(reached);
    reveal(cursor_history);
}

/// A result reached from the state after one action is reached from the state
/// before it.
#[verifier::rlimit(40)]
proof fn lemma_extend(s: GameState, c: GameState, t: GameState, a: Action)
    requires
        s.location is Some,
        c.tiles@ == acted(s.tiles@, s.cursor(), a),
        c.cursor() == moved(s.cursor(), s.tiles@.len() as int, a),
        c.location is Some,
        c.reward == s.reward + gain(s.tiles@, s.cursor(), a),
        c.start_location == s.start_location,
        c.action_queue@ == s.action_queue@.push(a),
        c.location_queue@ == s.location_queue@.push(c.location),
        s.wf(),
        !(ends_with_collect(s.action_queue@) && a == Action::Collect),
        good_result(c, t),
    ensures
        good_result(s, t),
{
    reveal(good_result);
    let k = s.location_queue@.len() as int;
    assert(t.location_queue@.subrange(0, k) =~= t.location_queue@.subrange(0, k + 1).subrange(0, k));
    assert(c.location_queue@.subrange(0, k) =~= s.location_queue@);
    lemma_extend_reached(s, c, t, a);
    if no_double_collect(s.action_queue@) {
        lemma_extend_collects(s, c, a);
    }
    lemma_reached_prefix(c, t);
    lemma_extend_history(s, c, t, a);
}

proof fn lemma_extend_reached(s: GameState, c: GameState, t: GameState, a: Action)
    requires
        s.location is Some,
        c.tiles@ == acted(s.tiles@, s.cursor(), a),
        c.cursor() == moved(s.cursor(), s.tiles@.len() as int, a),
        c.location is Some,
        c.reward == s.reward + gain(s.tiles@, s.cursor(), a),
        c.start_location == s.start_location,
        c.action_queue@ == s.action_queue@.push(a),
        reached(c, t),
    ensures
        reached(s, t),
{
    reveal(reached);
    let k: int = s.action_queue@.len() as int;
    let ta = t.action_queue@;
    let extra = ta.subrange(k, ta.len() as int);
    let extra_c = ta.subrange(k + 1, ta.len() as int);
    assert(ta.subrange(0, k + 1) == c.action_queue@);
    assert(ta[k] == ta.subrange(0, k + 1)[k]);
    assert(extra[0] == a);
    assert(extra.drop_first() =~= extra_c);
    assert(ta.subrange(0, k) =~= c.action_queue@.subrange(0, k));
    assert(c.action_queue@.subrange(0, k) =~= s.action_queue@);
}

proof fn lemma_reached_prefix(s: GameState, t: GameState)
    requires
        reached(s, t),
    ensures
        s.action_queue@.len() <= t.action_queue@.len(),
        t.action_queue@.subrange(0, s.action_queue@.len() as int) == s.action_queue@,
{
    reveal(reached);
}

proof fn lemma_extend_history(s: GameState, c: GameState, t: GameState, a: Action)
    requires
        s.location is Some,
        s.wf(),
        c.tiles@.len() == s.tiles@.len(),
        c.location matches Some(x) && x as int == moved(s.cursor(), s.tiles@.len() as int, a),
        c.action_queue@ == s.action_queue@.push(a),
        c.location_queue@ == s.location_queue@.push(c.location),
        t.location_queue@.len() == t.action_queue@.len(),
        c.action_queue@.len() <= t.action_queue@.len(),
        t.action_queue@.subrange(0, c.action_queue@.len() as int) == c.action_queue@,
        c.location_queue@.len() <= t.location_queue@.len(),
        t.location_queue@.subrange(0, c.location_queue@.len() as int) == c.location_queue@,
        cursor_history(c, t),
    ensures
        cursor_history(s, t),
{
    reveal(cursor_history);
    let k = s.action_queue@.len() as int;
    let n = s.tiles@.len() as int;
    let ta = t.action_queue@;
    let l = s.cursor();
    assert forall|j: int| k <= j < t.location_queue@.len() implies #[trigger] t.location_queue@[j] == Some(
        cursor_after(first_cursor(s, t), n, ta.subrange(k, j + 1)) as usize,
    ) by {
        let seg = ta.subrange(k, j + 1);
        assert(ta[k] == ta.subrange(0, k + 1)[k]);
        assert(seg[0] == a);
        assert(seg.drop_first() =~= ta.subrange(k + 1, j + 1));
        assert(first_cursor(s, t) == l);
        assert(cursor_after(l, n, seg) == cursor_after(moved(l, n, a), n, seg.drop_first()));
        if j == k {
            assert(t.location_queue@[k] == t.location_queue@.subrange(0, k + 1)[k]);
            assert(ta.subrange(k + 1, k + 1) =~= Seq::<Action>::empty());
            assert(c.location_queue@[k] == c.location);
        } else {
            assert(first_cursor(c, t) == moved(l, n, a));
            assert(t.location_queue@[j] == Some(
                cursor_after(first_cursor(c, t), n, ta.subrange(k + 1, j + 1)) as usize,
            ));
        }
    }
}

proof fn lemma_extend_collects(s: GameState, c: GameState, a: Action)
    requires
        c.action_queue@ == s.action_queue@.push(a),
        !(ends_with_collect(s.action_queue@) && a == Action::Collect),
        no_double_collect(s.action_queue@),
    ensures
        no_double_collect(c.action_queue@),
{
    let k: int = s.action_queue@.len() as int;
    assert forall|i: int|
        0 < i < c.action_queue@.len() && #[trigger] c.action_queue@[i] == Action::Collect implies c.action_queue@[i - 1]
        != Action::Collect by {
        if i < k {
            assert(c.action_queue@[i] == s.action_queue@[i]);
        }
    }
}

} // verus!
