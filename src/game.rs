use vstd::prelude::*;
use crate::tile::{
    Tile, THRESHOLD, all_dead, board_headroom, headroom, lemma_sum_update, lemma_tick_measures,
    tick_board, tick_tile, yield_of,
};
use vstd::arithmetic::div_mod::lemma_fundamental_div_mod_converse;

verus! {

/// A move of the player.
#[derive(Clone, Copy, Debug, PartialEq, Eq, Structural, Hash)]
pub enum Action {
    /// Let one tick pass.
    Advance,
    /// Turn the cursor one region counterclockwise, then tick.
    CounterClockwise,
    /// Turn the cursor one region clockwise, then tick.
    Clockwise,
    /// Score the tile under the cursor and kill it; no tick.
    Collect,
}

/// The cursor after an action on a wheel of `n` regions.
pub open spec fn moved(loc: int, n: int, a: Action) -> int {
    match a {
        Action::CounterClockwise => (loc - 1) % n,
        Action::Clockwise => (loc + 1) % n,
        _ => loc,
    }
}

/// The board after an action with the cursor at `loc`.
pub open spec fn acted(b: Seq<Tile>, loc: int, a: Action) -> Seq<Tile> {
    match a {
        Action::Collect => b.update(loc, Tile::Dead),
        _ => tick_board(b),
    }
}

/// The score an action with the cursor at `loc` earns.
pub open spec fn gain(b: Seq<Tile>, loc: int, a: Action) -> nat {
    match a {
        Action::Collect => yield_of(b[loc]),
        _ => 0,
    }
}

/// Board, cursor and reward after a sequence of actions.
pub open spec fn replay(b: Seq<Tile>, loc: int, reward: int, acts: Seq<Action>) -> (Seq<Tile>, int, int)
    decreases acts.len(),
{
    if acts.len() == 0 {
        (b, loc, reward)
    } else {
        replay(
            acted(b, loc, acts[0]),
            moved(loc, b.len() as int, acts[0]),
            reward + gain(b, loc, acts[0]),
            acts.drop_first(),
        )
    }
}

/// No action of the sequence is a collect right after a collect.
pub open spec fn no_double_collect(acts: Seq<Action>) -> bool {
    forall|i: int|
        0 < i < acts.len() && #[trigger] acts[i] == Action::Collect ==> acts[i - 1] != Action::Collect
}

/// One run of the puzzle: the board, the cursor and what was done so far.
#[derive(Debug)]
pub struct GameState {
    pub tiles: Vec<Tile>,
    pub location: Option<usize>,
    pub start_location: Option<usize>,
    pub threshold: usize,
    pub reward: usize,
    pub location_queue: Vec<Option<usize>>,
    pub action_queue: Vec<Action>,
}

impl GameState {
    /// The cursor is on the board, the threshold is fixed, the two histories
    /// have one entry per action, and the reward cannot overflow whatever is
    /// collected from here on.
    pub open spec fn wf(&self) -> bool {
        &&& self.threshold == THRESHOLD
        &&& (self.location matches Some(l) ==> l < self.tiles@.len())
        &&& self.location_queue@.len() == self.action_queue@.len()
        &&& self.reward + board_headroom(self.tiles@) <= usize::MAX
    }

    /// The cursor as an integer, once it is placed.
    pub open spec fn cursor(&self) -> int {
        self.location->Some_0 as int
    }

    /// A fresh run on the given board: no cursor, no reward, no history.
    pub fn new(tiles: Vec<Tile>) -> (r: Self)
        ensures
            r.tiles@ == tiles@,
            r.location is None,
            r.start_location is None,
            r.threshold == THRESHOLD,
            r.reward == 0,
            r.location_queue@.len() == 0,
            r.action_queue@.len() == 0,
    {
        GameState {
            tiles,
            location: None,
            start_location: None,
            action_queue: Vec::new(),
            location_queue: Vec::new(),
            threshold: THRESHOLD,
            reward: 0,
        }
    }

    /// A copy of the run, sharing nothing with it.
    pub fn duplicate(&self) -> (r: Self)
        ensures
            r.tiles@ == self.tiles@,
            r.location == self.location,
            r.start_location == self.start_location,
            r.threshold == self.threshold,
            r.reward == self.reward,
            r.location_queue@ == self.location_queue@,
            r.action_queue@ == self.action_queue@,
    {
        GameState {
            tiles: copy_vec(&self.tiles),
            location: self.location,
            start_location: self.start_location,
            action_queue: copy_vec(&self.action_queue),
            location_queue: copy_vec(&self.location_queue),
            threshold: self.threshold,
            reward: self.reward,
        }
    }

    /// Every tile of the board is dead.
    pub fn is_cleared(&self) -> (r: bool)
        ensures
            r == all_dead(self.tiles@),
    {
        let mut i: usize = 0;
        while i < self.tiles.len()
            invariant
                i <= self.tiles@.len(),
                forall|j: int| 0 <= j < i ==> (#[trigger] self.tiles@[j]) is Dead,
            decreases self.tiles@.len() - i,
        {
            if !matches!(self.tiles[i], Tile::Dead) {
                return false;
            }
            i += 1;
        }
        true
    }

    /// Lets one tick pass over the whole board.
    pub fn step(&mut self)
        ensures
            final(self).tiles@ == tick_board(old(self).tiles@),
            final(self).location == old(self).location,
            final(self).start_location == old(self).start_location,
            final(self).threshold == old(self).threshold,
            final(self).reward == old(self).reward,
            final(self).location_queue@ == old(self).location_queue@,
            final(self).action_queue@ == old(self).action_queue@,
    {
        let n = self.tiles.len();
        let mut i: usize = 0;
        while i < n
            invariant
                n == old(self).tiles@.len(),
                self.tiles@.len() == n,
                i <= n,
                forall|j: int| 0 <= j < i ==> self.tiles@[j] == tick_tile(old(self).tiles@[j]),
                forall|j: int| i <= j < n ==> self.tiles@[j] == old(self).tiles@[j],
                self.location == old(self).location,
                self.start_location == old(self).start_location,
                self.threshold == old(self).threshold,
                self.reward == old(self).reward,
                self.location_queue@ == old(self).location_queue@,
                self.action_queue@ == old(self).action_queue@,
            decreases n - i,
        {
            let t = self.tiles[i].tick();
            self.tiles.set(i, t);
            i += 1;
        }
        assert(self.tiles@ =~= tick_board(old(self).tiles@));
    }

    /// Performs one action and records it, with the cursor it leaves, in the
    /// histories.
    pub fn execute(&mut self, action: Action)
        requires
            old(self).wf(),
            old(self).location is Some,
        ensures
            final(self).wf(),
            final(self).tiles@ == acted(old(self).tiles@, old(self).cursor(), action),
            final(self).location == Some(
                moved(old(self).cursor(), old(self).tiles@.len() as int, action) as usize,
            ),
            final(self).cursor() == moved(old(self).cursor(), old(self).tiles@.len() as int, action),
            final(self).reward == old(self).reward + gain(old(self).tiles@, old(self).cursor(), action),
            final(self).start_location == old(self).start_location,
            final(self).action_queue@ == old(self).action_queue@.push(action),
            final(self).location_queue@ == old(self).location_queue@.push(final(self).location),
    {
        let loc = match self.location {
            Some(l) => l,
            None => 0,
        };
        let n = self.tiles.len();
        proof {
            lemma_tick_measures(self.tiles@);
        }
        match action {
            Action::Collect => {
                proof {
                    lemma_sum_update(self.tiles@, |t: Tile| headroom(t), loc as int, Tile::Dead);
                    lemma_yield_within_headroom(self.tiles@[loc as int]);
                }
                if let Tile::Active(v) = self.tiles[loc] {
                    self.reward = self.reward + v * v;
                }
                self.tiles.set(loc, Tile::Dead);
            },
            Action::Advance => {
                self.step();
            },
            Action::CounterClockwise => {
                let next = if loc == 0 {
                    n - 1
                } else {
                    loc - 1
                };
                proof {
                    lemma_wrap(loc as int - 1, n as int, next as int);
                }
                self.location = Some(next);
                self.step();
            },
            Action::Clockwise => {
                let next = if loc + 1 == n {
                    0
                } else {
                    loc + 1
                };
                proof {
                    lemma_wrap(loc as int + 1, n as int, next as int);
                }
                self.location = Some(next);
                self.step();
            },
        }
        self.action_queue.push(action);
        self.location_queue.push(self.location);
    }
}

/// What collecting a tile brings is within what it can still bring.
pub proof fn lemma_yield_within_headroom(t: Tile)
    ensures
        yield_of(t) <= headroom(t),
{
    if let Tile::Active(v) = t {
        if v <= THRESHOLD {
            assert(v * v <= THRESHOLD * THRESHOLD) by (nonlinear_arith)
                requires
                    v <= THRESHOLD,
            ;
        }
    }
}

/// A value within one turn of the wheel wraps to `r`.
pub proof fn lemma_wrap(x: int, n: int, r: int)
    requires
        0 < n,
        -n <= x < 2 * n,
        0 <= r < n,
        r == x || r == x + n || r == x - n,
    ensures
        x % n == r,
{
    if r == x {
        lemma_fundamental_div_mod_converse(x, n, 0, r);
    } else if r == x + n {
        lemma_fundamental_div_mod_converse(x, n, -1, r);
    } else {
        lemma_fundamental_div_mod_converse(x, n, 1, r);
    }
}

/// An element-wise copy of a vector of plain values.
pub fn copy_vec<T: Copy>(v: &Vec<T>) -> (r: Vec<T>)
    ensures
        r@ == v@,
{
    let mut r: Vec<T> = Vec::new();
    let mut i: usize = 0;
    while i < v.len()
        invariant
            i <= v@.len(),
            r@ == v@.subrange(0, i as int),
        decreases v@.len() - i,
    {
        r.push(v[i]);
        i += 1;
        assert(r@ =~= v@.subrange(0, i as int));
    }
    assert(r@ =~= v@);
    r
}

/// Along any sequence of actions the reward never drops.
pub proof fn lemma_reward_monotone(b: Seq<Tile>, loc: int, reward: int, acts: Seq<Action>)
    ensures
        replay(b, loc, reward, acts).2 >= reward,
    decreases acts.len(),
{
    if acts.len() > 0 {
        lemma_reward_monotone(
            acted(b, loc, acts[0]),
            moved(loc, b.len() as int, acts[0]),
            reward + gain(b, loc, acts[0]),
            acts.drop_first(),
        );
    }
}

} // verus!
