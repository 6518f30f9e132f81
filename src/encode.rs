use vstd::prelude::*;
use crate::game::{Action, acted, gain, lemma_wrap, moved, replay};
use crate::tile::Tile;
use vstd::arithmetic::div_mod::{lemma_fundamental_div_mod, lemma_fundamental_div_mod_converse};

verus! {

/// Most rotation steps one gesture can carry.
pub const RUN_CAP: usize = 3;

/// A physical input gesture.
#[derive(Clone, Copy, Debug, PartialEq, Eq, Structural)]
pub enum Gesture {
    /// Tap the active region this many times.
    TapActive(usize),
    /// Tap on a region, turning the cursor to it.
    TapOn(usize),
    /// Swipe on a region: turn the cursor to it and collect there.
    SwipeOn(usize),
    /// Swipe on the active region: collect under the cursor.
    SwipeActive,
}

/// Length of the run of `a` that starts the sequence.
pub open spec fn run_len(s: Seq<Action>, a: Action) -> nat
    decreases s.len(),
{
    if s.len() == 0 || s[0] != a {
        0
    } else {
        1 + run_len(s.drop_first(), a)
    }
}

/// The cursor after a sequence of actions on a wheel of `n` regions.
pub open spec fn cursor_after(loc: int, n: int, acts: Seq<Action>) -> int
    decreases acts.len(),
{
    if acts.len() == 0 {
        loc
    } else {
        cursor_after(moved(loc, n, acts[0]), n, acts.drop_first())
    }
}

/// The gestures for a sequence of actions, from cursor `cur` on a wheel of `n`
/// regions: a run of advances is one multiple tap; a run of one rotation, at
/// most three steps long, is a tap on the region it reaches, or a swipe there
/// when a collect follows; a collect on its own is a swipe on the active
/// region.
pub open spec fn gestures(acts: Seq<Action>, cur: int, n: int) -> Seq<Gesture>
    decreases acts.len()
    via gestures_decreases
{
    if acts.len() == 0 {
        Seq::empty()
    } else {
        match acts[0] {
            Action::Advance => {
                let k = run_len(acts, Action::Advance);
                seq![Gesture::TapActive(k as usize)] + gestures(acts.subrange(k as int, acts.len() as int), cur, n)
            },
            Action::Collect => seq![Gesture::SwipeActive] + gestures(acts.drop_first(), cur, n),
            _ => {
                let k = vstd::math::min(run_len(acts, acts[0]) as int, RUN_CAP as int);
                let c = if acts[0] == Action::Clockwise {
                    (cur + k) % n
                } else {
                    (cur - k) % n
                };
                if k < acts.len() && acts[k] == Action::Collect {
                    seq![Gesture::SwipeOn(c as usize)] + gestures(acts.subrange(k + 1, acts.len() as int), c, n)
                } else {
                    seq![Gesture::TapOn(c as usize)] + gestures(acts.subrange(k, acts.len() as int), c, n)
                }
            },
        }
    }
}

#[via_fn]
proof fn gestures_decreases(acts: Seq<Action>, cur: int, n: int) {
    if acts.len() > 0 {
        lemma_run_len(acts, acts[0], 1);
    }
}

/// The cursor after performing gestures from cursor `cur`.
pub open spec fn gesture_cursor(gs: Seq<Gesture>, cur: int) -> int
    decreases gs.len(),
{
    if gs.len() == 0 {
        cur
    } else {
        let next = match gs[0] {
            Gesture::TapOn(p) => p as int,
            Gesture::SwipeOn(p) => p as int,
            _ => cur,
        };
        gesture_cursor(gs.drop_first(), next)
    }
}

/// A run of `a` of length at least `k` when the first `k` are `a`, and of
/// length exactly `k` when the next one is not.
pub proof fn lemma_run_len(s: Seq<Action>, a: Action, k: int)
    requires
        0 <= k <= s.len(),
        forall|j: int| 0 <= j < k ==> s[j] == a,
    ensures
        run_len(s, a) >= k,
        run_len(s, a) <= s.len(),
        (k == s.len() || s[k] != a) ==> run_len(s, a) == k,
    decreases k,
{
    lemma_run_len_bound(s, a);
    if k > 0 {
        lemma_run_len(s.drop_first(), a, k - 1);
    }
}

proof fn lemma_run_len_bound(s: Seq<Action>, a: Action)
    ensures
        run_len(s, a) <= s.len(),
    decreases s.len(),
{
    if s.len() > 0 {
        lemma_run_len_bound(s.drop_first(), a);
    }
}

/// Every action of the leading run is `a`.
pub proof fn lemma_run_elems(s: Seq<Action>, a: Action, j: int)
    requires
        0 <= j < run_len(s, a),
    ensures
        s[j] == a,
    decreases j,
{
    lemma_run_len_bound(s, a);
    if j > 0 {
        lemma_run_elems(s.drop_first(), a, j - 1);
        assert(s.drop_first()[j - 1] == s[j]);
    }
}

/// The cursor after a sequence is that after its first `k` actions followed by
/// the rest.
pub proof fn lemma_cursor_split(loc: int, n: int, acts: Seq<Action>, k: int)
    requires
        0 <= k <= acts.len(),
    ensures
        cursor_after(loc, n, acts) == cursor_after(
            cursor_after(loc, n, acts.subrange(0, k)),
            n,
            acts.subrange(k, acts.len() as int),
        ),
    decreases k,
{
    if k > 0 {
        assert(acts.subrange(0, k).drop_first() =~= acts.drop_first().subrange(0, k - 1));
        assert(acts.subrange(k, acts.len() as int) =~= acts.drop_first().subrange(k - 1, acts.drop_first().len() as int));
        lemma_cursor_split(moved(loc, n, acts[0]), n, acts.drop_first(), k - 1);
    } else {
        assert(acts.subrange(0, 0) =~= Seq::<Action>::empty());
        assert(acts.subrange(0, acts.len() as int) =~= acts);
    }
}

/// Taking one more wrapped step is wrapping one step further.
pub proof fn lemma_wrap_step(x: int, n: int, d: int)
    requires
        0 < n,
        d == 1 || d == -1,
    ensures
        (x % n + d) % n == (x + d) % n,
{
    lemma_fundamental_div_mod(x, n);
    let q = x / n;
    let r = x % n;
    let y = r + d;
    if 0 <= y < n {
        lemma_fundamental_div_mod_converse(y, n, 0, y);
        assert(x + d == q * n + y) by (nonlinear_arith)
            requires
                x == n * q + r,
                y == r + d,
        ;
        lemma_fundamental_div_mod_converse(x + d, n, q, y);
    } else if y == n {
        lemma_fundamental_div_mod_converse(y, n, 1, 0);
        assert(x + d == (q + 1) * n + 0) by (nonlinear_arith)
            requires
                x == n * q + r,
                y == r + d,
                y == n,
        ;
        lemma_fundamental_div_mod_converse(x + d, n, q + 1, 0);
    } else {
        lemma_fundamental_div_mod_converse(y, n, -1, n - 1);
        assert(x + d == (q - 1) * n + (n - 1)) by (nonlinear_arith)
            requires
                x == n * q + r,
                y == r + d,
                y == -1,
        ;
        lemma_fundamental_div_mod_converse(x + d, n, q - 1, n - 1);
    }
}

/// A run of `k` steps of one rotation moves the cursor by `k`, wrapped.
pub proof fn lemma_cursor_run(loc: int, n: int, acts: Seq<Action>, a: Action, k: int)
    requires
        0 < n,
        0 <= loc < n,
        0 <= k <= acts.len(),
        a == Action::Clockwise || a == Action::CounterClockwise,
        forall|j: int| 0 <= j < k ==> acts[j] == a,
    ensures
        cursor_after(loc, n, acts.subrange(0, k)) == if a == Action::Clockwise {
            (loc + k) % n
        } else {
            (loc - k) % n
        },
    decreases k,
{
    if k == 0 {
        lemma_fundamental_div_mod_converse(loc, n, 0, loc);
    } else {
        lemma_cursor_run(loc, n, acts, a, k - 1);
        lemma_cursor_split(loc, n, acts.subrange(0, k), k - 1);
        assert(acts.subrange(0, k).subrange(0, k - 1) =~= acts.subrange(0, k - 1));
        let last = acts.subrange(0, k).subrange(k - 1, k);
        assert(last =~= seq![a]);
        assert(last.drop_first() =~= Seq::<Action>::empty());
        let c = cursor_after(loc, n, acts.subrange(0, k - 1));
        assert(cursor_after(moved(c, n, a), n, last.drop_first()) == moved(c, n, a));
        if a == Action::Clockwise {
            lemma_wrap_step(loc + k - 1, n, 1);
        } else {
            lemma_wrap_step(loc - (k - 1), n, -1);
        }
    }
}

/// Performing the gestures leaves the cursor where performing the actions
/// one by one leaves it.
pub proof fn lemma_gestures_cursor(acts: Seq<Action>, cur: int, n: int)
    requires
        0 < n <= usize::MAX,
        0 <= cur < n,
    ensures
        gesture_cursor(gestures(acts, cur, n), cur) == cursor_after(cur, n, acts),
    decreases acts.len(),
{
    if acts.len() > 0 {
        let gs = gestures(acts, cur, n);
        let a = acts[0];
        match a {
            Action::Advance => {
                let k = run_len(acts, Action::Advance) as int;
                lemma_run_len_bound(acts, a);
                let rest = acts.subrange(k, acts.len() as int);
                assert(gs.drop_first() =~= gestures(rest, cur, n));
                lemma_gestures_cursor(rest, cur, n);
                lemma_cursor_split(cur, n, acts, k);
                assert forall|j: int| 0 <= j < k implies acts[j] == a by {
                    lemma_run_elems(acts, a, j);
                }
                lemma_advances_stay(cur, n, acts.subrange(0, k));
                assert(gs[0] == Gesture::TapActive(k as usize));
                assert(gesture_cursor(gs, cur) == gesture_cursor(gs.drop_first(), cur));
                assert(cursor_after(cur, n, acts) == cursor_after(cur, n, rest));
            },
            Action::Collect => {
                assert(gs.drop_first() =~= gestures(acts.drop_first(), cur, n));
                assert(gs[0] == Gesture::SwipeActive);
                assert(gesture_cursor(gs, cur) == gesture_cursor(gs.drop_first(), cur));
                lemma_gestures_cursor(acts.drop_first(), cur, n);
            },
            _ => {
                let k = vstd::math::min(run_len(acts, a) as int, RUN_CAP as int);
                lemma_run_len_bound(acts, a);
                assert forall|j: int| 0 <= j < k implies acts[j] == a by {
                    lemma_run_elems(acts, a, j);
                }
                lemma_cursor_run(cur, n, acts, a, k);
                lemma_cursor_split(cur, n, acts, k);
                let c = if a == Action::Clockwise {
                    (cur + k) % n
                } else {
                    (cur - k) % n
                };
                let rest = acts.subrange(k, acts.len() as int);
                vstd::arithmetic::div_mod::lemma_mod_bound(cur + k, n);
                vstd::arithmetic::div_mod::lemma_mod_bound(cur - k, n);
                assert(0 <= c < n);
                assert(cursor_after(cur, n, acts) == cursor_after(c, n, rest));
                if k < acts.len() && acts[k] == Action::Collect {
                    let rest2 = acts.subrange(k + 1, acts.len() as int);
                    assert(gs.drop_first() =~= gestures(rest2, c, n));
                    lemma_gestures_cursor(rest2, c, n);
                    assert(rest.drop_first() =~= rest2);
                    assert(rest[0] == Action::Collect);
                    assert(gs[0] == Gesture::SwipeOn(c as usize));
                    assert(gesture_cursor(gs, cur) == gesture_cursor(gs.drop_first(), c));
                } else {
                    assert(gs.drop_first() =~= gestures(rest, c, n));
                    lemma_gestures_cursor(rest, c, n);
                    assert(gs[0] == Gesture::TapOn(c as usize));
                    assert(gesture_cursor(gs, cur) == gesture_cursor(gs.drop_first(), c));
                }
            },
        }
    }
}

/// The cursor that a replay of actions reaches depends on the number of regions
/// alone.
pub proof fn lemma_replay_cursor(b: Seq<Tile>, loc: int, reward: int, acts: Seq<Action>)
    requires
        0 <= loc < b.len(),
    ensures
        replay(b, loc, reward, acts).1 == cursor_after(loc, b.len() as int, acts),
    decreases acts.len(),
{
    if acts.len() > 0 {
        let a = acts[0];
        assert(acted(b, loc, a).len() == b.len());
        vstd::arithmetic::div_mod::lemma_mod_bound(loc + 1, b.len() as int);
        vstd::arithmetic::div_mod::lemma_mod_bound(loc - 1, b.len() as int);
        lemma_replay_cursor(acted(b, loc, a), moved(loc, b.len() as int, a), reward + gain(b, loc, a), acts.drop_first());
    }
}

/// Advances leave the cursor where it is.
pub proof fn lemma_advances_stay(loc: int, n: int, acts: Seq<Action>)
    requires
        forall|j: int| 0 <= j < acts.len() ==> acts[j] == Action::Advance,
    ensures
        cursor_after(loc, n, acts) == loc,
    decreases acts.len(),
{
    if acts.len() > 0 {
        lemma_advances_stay(loc, n, acts.drop_first());
    }
}

/// The cursor after `k` steps of one rotation, wrapped onto `n` regions.
fn turn(cur: usize, k: usize, n: usize, clockwise: bool) -> (r: usize)
    requires
        cur < n,
    ensures
        r as int == if clockwise {
            (cur + k) % (n as int)
        } else {
            (cur - k) % (n as int)
        },
{
    let mut c = cur;
    let mut j: usize = 0;
    proof {
        lemma_wrap(cur as int, n as int, cur as int);
    }
    while j < k
        invariant
            c < n,
            j <= k,
            c as int == if clockwise {
                (cur + j) % (n as int)
            } else {
                (cur - j) % (n as int)
            },
        decreases k - j,
    {
        if clockwise {
            let next = if c + 1 == n {
                0
            } else {
                c + 1
            };
            proof {
                lemma_wrap(c + 1, n as int, next as int);
                lemma_wrap_step(cur + j, n as int, 1);
            }
            c = next;
        } else {
            let next = if c == 0 {
                n - 1
            } else {
                c - 1
            };
            proof {
                lemma_wrap(c - 1, n as int, next as int);
                lemma_wrap_step(cur - j, n as int, -1);
            }
            c = next;
        }
        j += 1;
    }
    c
}

/// Compresses a history of actions, started with the cursor on `start` of a
/// wheel of `n` regions, into gestures.
pub fn encode(actions: &Vec<Action>, start: usize, n: usize) -> (r: Vec<Gesture>)
    requires
        start < n,
    ensures
        r@ == gestures(actions@, start as int, n as int),
{
    let len = actions.len();
    let mut out: Vec<Gesture> = Vec::new();
    let mut cur = start;
    let mut i: usize = 0;
    proof {
        assert(actions@.subrange(0, len as int) =~= actions@);
        assert(out@ + gestures(actions@, start as int, n as int) =~= gestures(actions@, start as int, n as int));
    }
    while i < len
        invariant
            len == actions@.len(),
            i <= len,
            cur < n,
            out@ + gestures(actions@.subrange(i as int, len as int), cur as int, n as int) == gestures(
                actions@,
                start as int,
                n as int,
            ),
        decreases len - i,
    {
        let ghost rest = actions@.subrange(i as int, len as int);
        let ghost before = out@;
        let a = actions[i];
        let mut k: usize = 1;
        match a {
            Action::Advance => {
                while i + k < len && actions[i + k] == Action::Advance
                    invariant
                        len == actions@.len(),
                        i < len,
                        1 <= k <= len - i,
                        rest == actions@.subrange(i as int, len as int),
                        forall|j: int| 0 <= j < k ==> rest[j] == Action::Advance,
                    decreases len - i - k,
                {
                    k += 1;
                }
                proof {
                    lemma_run_len(rest, Action::Advance, k as int);
                    assert(rest.subrange(k as int, rest.len() as int) =~= actions@.subrange(i + k, len as int));
                }
                out.push(Gesture::TapActive(k));
                i += k;
            },
            Action::Collect => {
                proof {
                    assert(rest.drop_first() =~= actions@.subrange(i + 1, len as int));
                }
                out.push(Gesture::SwipeActive);
                i += 1;
            },
            _ => {
                while k < RUN_CAP && i + k < len && actions[i + k] == a
                    invariant
                        len == actions@.len(),
                        i < len,
                        1 <= k <= len - i,
                        k <= RUN_CAP,
                        rest == actions@.subrange(i as int, len as int),
                        forall|j: int| 0 <= j < k ==> rest[j] == a,
                    decreases len - i - k,
                {
                    k += 1;
                }
                proof {
                    lemma_run_len(rest, a, k as int);
                }
                let clockwise = a == Action::Clockwise;
                let c = turn(cur, k, n, clockwise);
                if i + k < len && actions[i + k] == Action::Collect {
                    proof {
                        assert(rest.subrange(k + 1, rest.len() as int) =~= actions@.subrange(i + k + 1, len as int));
                    }
                    out.push(Gesture::SwipeOn(c));
                    i += k + 1;
                } else {
                    proof {
                        assert(rest.subrange(k as int, rest.len() as int) =~= actions@.subrange(i + k, len as int));
                    }
                    out.push(Gesture::TapOn(c));
                    i += k;
                }
                cur = c;
            },
        }
        proof {
            let tail = gestures(actions@.subrange(i as int, len as int), cur as int, n as int);
            assert(out@ + tail =~= before + (seq![out@.last()] + tail));
        }
    }
    proof {
        assert(actions@.subrange(len as int, len as int) =~= Seq::<Action>::empty());
        assert(out@ + Seq::<Gesture>::empty() =~= out@);
    }
    out
}

} // verus!
