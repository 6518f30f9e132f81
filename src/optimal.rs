use vstd::prelude::*;
use crate::tile::{Tile, all_dead, lemma_sum_update, lemma_tick_measures, lifetime, potential, tick_board};
use crate::game::{Action, acted, gain, moved, replay};
use crate::visited::KeyModel;
use vstd::arithmetic::div_mod::lemma_mod_bound;
use vstd::math::max;

verus! {

/// Best reward that any sequence of actions can end with, from board `b`,
/// cursor `l` and reward `w`, once every tile is dead. Collecting a dead tile
/// changes nothing and is left out.
pub open spec fn opt(b: Seq<Tile>, l: int, w: int) -> int
    decreases potential(b)
    via opt_decreases
{
    if all_dead(b) || !(0 <= l < b.len()) {
        w
    } else {
        let n = b.len() as int;
        let ticked = max(
            opt(acted(b, l, Action::Advance), moved(l, n, Action::Advance), w),
            max(
                opt(acted(b, l, Action::CounterClockwise), moved(l, n, Action::CounterClockwise), w),
                opt(acted(b, l, Action::Clockwise), moved(l, n, Action::Clockwise), w),
            ),
        );
        if b[l] is Dead {
            ticked
        } else {
            max(ticked, opt(acted(b, l, Action::Collect), l, w + gain(b, l, Action::Collect)))
        }
    }
}

#[via_fn]
proof fn opt_decreases(b: Seq<Tile>, l: int, w: int) {
    if !all_dead(b) {
        lemma_tick_measures(b);
        if 0 <= l < b.len() && !(b[l] is Dead) {
            lemma_sum_update(b, |t: Tile| lifetime(t), l, Tile::Dead);
        }
    }
}

/// Whether an action from board `b` with the cursor at `l` changes anything:
/// all but a collect on a dead tile do.
pub open spec fn effective(b: Seq<Tile>, l: int, a: Action) -> bool {
    !(a == Action::Collect && b[l] is Dead)
}

/// The state (`b`, `l`, `w`) is accounted for by a search whose memo is
/// `seen` and whose best reward is `bound`: if cleared, its reward is at most
/// `bound`; if not, its key is in `seen`.
pub open spec fn covered(seen: Set<KeyModel>, b: Seq<Tile>, l: int, w: int, bound: int) -> bool {
    if all_dead(b) {
        w <= bound
    } else {
        0 <= l <= usize::MAX && 0 <= w <= usize::MAX && seen.contains((b, Some(l as usize), w as usize))
    }
}

/// Every successor of the key is accounted for: the placements of the cursor
/// when it has none, else every effective action.
pub open spec fn expanded(seen: Set<KeyModel>, k: KeyModel, bound: int) -> bool {
    let b = k.0;
    let w = k.2 as int;
    &&& !all_dead(b)
    &&& match k.1 {
        None => forall|i: int|
            0 <= i < b.len() ==> #[trigger] covered(seen, tick_board(b), i, w, bound),
        Some(l) => l < b.len() && expanded_at(seen, b, l as int, w, bound),
    }
}

/// Every effective action from board `b` with the cursor at `l` and reward `w`
/// leads to a state that is accounted for.
pub open spec fn expanded_at(seen: Set<KeyModel>, b: Seq<Tile>, l: int, w: int, bound: int) -> bool {
    forall|a: Action|
        effective(b, l, a) ==> #[trigger] covered(
            seen,
            acted(b, l, a),
            moved(l, b.len() as int, a),
            w + gain(b, l, a),
            bound,
        )
}

/// Every key of `seen` that is not in `before` is expanded.
pub open spec fn all_expanded(seen: Set<KeyModel>, before: Set<KeyModel>, bound: int) -> bool {
    forall|k: KeyModel| #[trigger] seen.contains(k) && !before.contains(k) ==> expanded(seen, k, bound)
}

/// Every key of `seen` that is neither in `before` nor `key` is expanded.
#[verifier::opaque]
pub open spec fn expanded_but(seen: Set<KeyModel>, before: Set<KeyModel>, key: KeyModel, bound: int) -> bool {
    forall|k: KeyModel|
        #[trigger] seen.contains(k) && !before.contains(k) && k != key ==> expanded(seen, k, bound)
}

/// Right after `key` joins `before`, nothing else is left to expand.
pub proof fn lemma_expanded_but_start(before: Set<KeyModel>, key: KeyModel, bound: int)
    ensures
        expanded_but(before.insert(key), before, key, bound),
{
    reveal(expanded_but);
}

/// A child search that expanded all it added keeps the other keys expanded.
pub proof fn lemma_expanded_but_child(
    before: Set<KeyModel>,
    key: KeyModel,
    s1: Set<KeyModel>,
    s2: Set<KeyModel>,
    b1: int,
    bres: int,
    b2: int,
)
    requires
        expanded_but(s1, before, key, b1),
        s1.contains(key),
        s1.subset_of(s2),
        all_expanded(s2, s1, bres),
        b1 <= b2,
        bres <= b2,
    ensures
        expanded_but(s2, before, key, b2),
{
    reveal(expanded_but);
    assert forall|k: KeyModel|
        #[trigger] s2.contains(k) && !before.contains(k) && k != key implies expanded(s2, k, b2) by {
        if s1.contains(k) {
            lemma_expanded_mono(s1, s2, k, b1, b2);
        } else {
            lemma_expanded_mono(s2, s2, k, bres, b2);
        }
    }
}

/// Once `key` itself is expanded, every key added since `before` is.
pub proof fn lemma_expanded_but_finish(seen: Set<KeyModel>, before: Set<KeyModel>, key: KeyModel, bound: int)
    requires
        expanded_but(seen, before, key, bound),
        expanded(seen, key, bound),
    ensures
        all_expanded(seen, before, bound),
{
    reveal(expanded_but);
}

/// Being accounted for survives a larger memo and a larger bound.
pub proof fn lemma_covered_mono(
    s1: Set<KeyModel>,
    s2: Set<KeyModel>,
    b: Seq<Tile>,
    l: int,
    w: int,
    b1: int,
    b2: int,
)
    requires
        s1.subset_of(s2),
        b1 <= b2,
        covered(s1, b, l, w, b1),
    ensures
        covered(s2, b, l, w, b2),
{
}

/// Being expanded survives a larger memo and a larger bound.
pub proof fn lemma_expanded_mono(s1: Set<KeyModel>, s2: Set<KeyModel>, k: KeyModel, b1: int, b2: int)
    requires
        s1.subset_of(s2),
        b1 <= b2,
        expanded(s1, k, b1),
    ensures
        expanded(s2, k, b2),
{
    let b = k.0;
    let w = k.2 as int;
    match k.1 {
        None => {
            assert forall|i: int| 0 <= i < b.len() implies #[trigger] covered(s2, tick_board(b), i, w, b2) by {
                lemma_covered_mono(s1, s2, tick_board(b), i, w, b1, b2);
            }
        },
        Some(l) => {
            let n = b.len() as int;
            assert forall|a: Action| effective(b, l as int, a) implies #[trigger] covered(
                s2,
                acted(b, l as int, a),
                moved(l as int, n, a),
                w + gain(b, l as int, a),
                b2,
            ) by {
                lemma_covered_mono(
                    s1,
                    s2,
                    acted(b, l as int, a),
                    moved(l as int, n, a),
                    w + gain(b, l as int, a),
                    b1,
                    b2,
                );
            }
        },
    }
}

/// When every key of a memo that started empty is expanded, no state that the
/// memo accounts for can lead to more than `bound`.
pub proof fn lemma_opt_bounded(seen: Set<KeyModel>, bound: int, b: Seq<Tile>, l: int, w: int)
    requires
        all_expanded(seen, Set::empty(), bound),
        covered(seen, b, l, w, bound),
        0 <= l < b.len(),
    ensures
        opt(b, l, w) <= bound,
    decreases potential(b),
{
    if !all_dead(b) {
        let k: KeyModel = (b, Some(l as usize), w as usize);
        assert(seen.contains(k));
        assert(expanded(seen, k, bound));
        assert((l as usize) as int == l);
        assert((w as usize) as int == w);
        assert(expanded_at(seen, b, l, w, bound));
        let n = b.len() as int;
        lemma_tick_measures(b);
        lemma_mod_bound(l + 1, n);
        lemma_mod_bound(l - 1, n);
        assert(effective(b, l, Action::Advance));
        assert(covered(seen, acted(b, l, Action::Advance), moved(l, n, Action::Advance), w + gain(b, l, Action::Advance), bound));
        assert(effective(b, l, Action::CounterClockwise));
        assert(covered(seen, acted(b, l, Action::CounterClockwise), moved(l, n, Action::CounterClockwise), w + gain(b, l, Action::CounterClockwise), bound));
        assert(effective(b, l, Action::Clockwise));
        assert(covered(seen, acted(b, l, Action::Clockwise), moved(l, n, Action::Clockwise), w + gain(b, l, Action::Clockwise), bound));
        lemma_opt_bounded(seen, bound, acted(b, l, Action::Advance), moved(l, n, Action::Advance), w);
        lemma_opt_bounded(
            seen,
            bound,
            acted(b, l, Action::CounterClockwise),
            moved(l, n, Action::CounterClockwise),
            w,
        );
        lemma_opt_bounded(seen, bound, acted(b, l, Action::Clockwise), moved(l, n, Action::Clockwise), w);
        if !(b[l] is Dead) {
            assert(effective(b, l, Action::Collect));
            assert(covered(seen, acted(b, l, Action::Collect), moved(l, n, Action::Collect), w + gain(b, l, Action::Collect), bound));
            lemma_sum_update(b, |t: Tile| lifetime(t), l, Tile::Dead);
            lemma_opt_bounded(seen, bound, acted(b, l, Action::Collect), l, w + gain(b, l, Action::Collect));
        }
    }
}

/// Actions on a cleared board change neither board nor reward.
pub proof fn lemma_dead_replay(b: Seq<Tile>, l: int, w: int, acts: Seq<Action>)
    requires
        all_dead(b),
        0 <= l < b.len(),
    ensures
        replay(b, l, w, acts).2 == w,
    decreases acts.len(),
{
    if acts.len() > 0 {
        let a = acts[0];
        let n = b.len() as int;
        lemma_mod_bound(l + 1, n);
        lemma_mod_bound(l - 1, n);
        let nb = acted(b, l, a);
        assert(all_dead(nb)) by {
            if a == Action::Collect {
                assert forall|i: int| 0 <= i < nb.len() implies (#[trigger] nb[i]) is Dead by {
                    if i != l {
                        assert(nb[i] == b[i]);
                    }
                }
            } else {
                assert forall|i: int| 0 <= i < nb.len() implies (#[trigger] nb[i]) is Dead by {
                    assert(b[i] is Dead);
                }
            }
        }
        assert(gain(b, l, a) == 0);
        lemma_dead_replay(nb, moved(l, n, a), w, acts.drop_first());
    }
}

/// A sequence of actions that clears the board ends with at most `opt`.
pub proof fn lemma_replay_within_opt(b: Seq<Tile>, l: int, w: int, acts: Seq<Action>)
    requires
        0 <= l < b.len(),
        all_dead(replay(b, l, w, acts).0),
    ensures
        replay(b, l, w, acts).2 <= opt(b, l, w),
    decreases acts.len(),
{
    if all_dead(b) {
        lemma_dead_replay(b, l, w, acts);
    } else if acts.len() > 0 {
        let a = acts[0];
        let n = b.len() as int;
        lemma_mod_bound(l + 1, n);
        lemma_mod_bound(l - 1, n);
        if a == Action::Collect && b[l] is Dead {
            assert(acted(b, l, a) =~= b);
            lemma_replay_within_opt(b, l, w, acts.drop_first());
        } else {
            lemma_replay_within_opt(acted(b, l, a), moved(l, n, a), w + gain(b, l, a), acts.drop_first());
        }
    }
}

} // verus!
