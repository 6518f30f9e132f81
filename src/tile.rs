use vstd::prelude::*;

verus! {

/// Strength at which an active tile dies on the next tick.
pub const THRESHOLD: usize = 6;

/// One region of the wheel.
#[derive(Clone, Copy, Debug, PartialEq, Eq, Structural, Hash)]
pub enum Tile {
    /// Dormant: this many ticks remain before it becomes active.
    Latent(usize),
    /// Scorable: collecting it earns the square of its strength.
    Active(usize),
    /// Cleared.
    Dead,
}

/// The tile after one tick.
pub open spec fn tick_tile(t: Tile) -> Tile {
    match t {
        Tile::Latent(n) => if n == 0 {
            Tile::Active(1)
        } else {
            Tile::Latent((n - 1) as usize)
        },
        Tile::Active(v) => if v < THRESHOLD {
            Tile::Active((v + 1) as usize)
        } else {
            Tile::Dead
        },
        Tile::Dead => Tile::Dead,
    }
}

/// Number of ticks after which the tile is dead for good.
pub open spec fn lifetime(t: Tile) -> nat {
    match t {
        Tile::Latent(n) => (n + THRESHOLD + 1) as nat,
        Tile::Active(v) => if v < THRESHOLD {
            (THRESHOLD - v + 1) as nat
        } else {
            1
        },
        Tile::Dead => 0,
    }
}

/// Largest score that collecting the tile can still bring.
pub open spec fn headroom(t: Tile) -> nat {
    match t {
        Tile::Latent(_) => (THRESHOLD * THRESHOLD) as nat,
        Tile::Active(v) => if v <= THRESHOLD {
            (THRESHOLD * THRESHOLD) as nat
        } else {
            (v * v) as nat
        },
        Tile::Dead => 0,
    }
}

/// Score earned by collecting the tile.
pub open spec fn yield_of(t: Tile) -> nat {
    match t {
        Tile::Active(v) => (v * v) as nat,
        _ => 0,
    }
}

/// Sum of `f` over the tiles of a board.
pub open spec fn board_sum(b: Seq<Tile>, f: spec_fn(Tile) -> nat) -> nat
    decreases b.len(),
{
    if b.len() == 0 {
        0
    } else {
        board_sum(b.drop_last(), f) + f(b.last())
    }
}

/// Ticks left before every tile of the board is dead.
pub open spec fn potential(b: Seq<Tile>) -> nat {
    board_sum(b, |t: Tile| lifetime(t))
}

/// Largest score still to be had from the board.
pub open spec fn board_headroom(b: Seq<Tile>) -> nat {
    board_sum(b, |t: Tile| headroom(t))
}

/// Every tile of the board is dead.
pub open spec fn all_dead(b: Seq<Tile>) -> bool {
    forall|i: int| 0 <= i < b.len() ==> (#[trigger] b[i]) is Dead
}

/// The board after one tick: every tile advances on its own.
pub open spec fn tick_board(b: Seq<Tile>) -> Seq<Tile> {
    Seq::new(b.len(), |i: int| tick_tile(b[i]))
}

/// The board after `k` ticks.
pub open spec fn ticks(b: Seq<Tile>, k: nat) -> Seq<Tile>
    decreases k,
{
    if k == 0 {
        b
    } else {
        ticks(tick_board(b), (k - 1) as nat)
    }
}

/// The tile after `k` ticks.
pub open spec fn tile_ticks(t: Tile, k: nat) -> Tile
    decreases k,
{
    if k == 0 {
        t
    } else {
        tile_ticks(tick_tile(t), (k - 1) as nat)
    }
}

/// Largest countdown among the latent tiles of the board, zero if none.
pub open spec fn max_countdown(b: Seq<Tile>) -> nat
    decreases b.len(),
{
    if b.len() == 0 {
        0
    } else {
        let rest = max_countdown(b.drop_last());
        match b.last() {
            Tile::Latent(n) => if n > rest {
                n as nat
            } else {
                rest
            },
            _ => rest,
        }
    }
}

/// Replacing one tile changes a board sum by the difference of the two terms.
pub proof fn lemma_sum_update(b: Seq<Tile>, f: spec_fn(Tile) -> nat, i: int, t: Tile)
    requires
        0 <= i < b.len(),
    ensures
        board_sum(b.update(i, t), f) + f(b[i]) == board_sum(b, f) + f(t),
    decreases b.len(),
{
    let u = b.update(i, t);
    if i == b.len() - 1 {
        assert(u.drop_last() =~= b.drop_last());
    } else {
        assert(u.drop_last() =~= b.drop_last().update(i, t));
        lemma_sum_update(b.drop_last(), f, i, t);
    }
}

/// A tick never raises a board sum whose term a tick never raises, and lowers
/// it when some tile is not dead and the term drops on such a tile.
pub proof fn lemma_sum_tick(b: Seq<Tile>, f: spec_fn(Tile) -> nat)
    requires
        forall|t: Tile| #[trigger] f(tick_tile(t)) <= f(t),
    ensures
        board_sum(tick_board(b), f) <= board_sum(b, f),
        (forall|t: Tile| !(t is Dead) ==> #[trigger] f(tick_tile(t)) < f(t)) && !all_dead(b)
            ==> board_sum(tick_board(b), f) < board_sum(b, f),
    decreases b.len(),
{
    if b.len() > 0 {
        assert(tick_board(b).drop_last() =~= tick_board(b.drop_last()));
        lemma_sum_tick(b.drop_last(), f);
        if (forall|t: Tile| !(t is Dead) ==> #[trigger] f(tick_tile(t)) < f(t)) && !all_dead(b) {
            if all_dead(b.drop_last()) {
                let j = choose|j: int| 0 <= j < b.len() && !(b[j] is Dead);
                if j < b.len() - 1 {
                    assert(b.drop_last()[j] is Dead);
                }
                assert(f(tick_tile(b.last())) < f(b.last()));
            } else {
                let j = choose|j: int| 0 <= j < b.len() - 1 && !(b.drop_last()[j] is Dead);
                assert(!(b.drop_last()[j] is Dead));
            }
        }
    }
}

/// One tick lowers the potential of a board that is not all dead, and never
/// raises what is left to score.
pub proof fn lemma_tick_measures(b: Seq<Tile>)
    ensures
        board_headroom(tick_board(b)) <= board_headroom(b),
        !all_dead(b) ==> potential(tick_board(b)) < potential(b),
{
    let h = |t: Tile| headroom(t);
    let l = |t: Tile| lifetime(t);
    assert forall|t: Tile| #[trigger] h(tick_tile(t)) <= h(t) by {
        if let Tile::Active(v) = t {
            if v < THRESHOLD {
            } else if v > THRESHOLD {
                assert(v * v >= 0) by (nonlinear_arith);
            }
        }
    }
    assert forall|t: Tile| #[trigger] l(tick_tile(t)) <= l(t) by {}
    assert forall|t: Tile| !(t is Dead) implies #[trigger] l(tick_tile(t)) < l(t) by {}
    lemma_sum_tick(b, h);
    lemma_sum_tick(b, l);
}

/// A tile is dead once its lifetime has passed.
pub proof fn lemma_tile_dies(t: Tile, k: nat)
    requires
        k >= lifetime(t),
    ensures
        tile_ticks(t, k) is Dead,
    decreases k,
{
    if k > 0 {
        lemma_tile_dies(tick_tile(t), (k - 1) as nat);
    }
}

/// Ticking keeps the length of the board.
pub proof fn lemma_ticks_len(b: Seq<Tile>, k: nat)
    ensures
        ticks(b, k).len() == b.len(),
    decreases k,
{
    if k > 0 {
        lemma_ticks_len(tick_board(b), (k - 1) as nat);
    }
}

/// Ticking a board ticks each of its tiles.
pub proof fn lemma_ticks_tile(b: Seq<Tile>, k: nat, i: int)
    requires
        0 <= i < b.len(),
    ensures
        ticks(b, k).len() == b.len(),
        ticks(b, k)[i] == tile_ticks(b[i], k),
    decreases k,
{
    if k > 0 {
        lemma_ticks_tile(tick_board(b), (k - 1) as nat, i);
    }
}

/// Every latent countdown on the board is at most its largest countdown.
pub proof fn lemma_max_countdown(b: Seq<Tile>, i: int)
    requires
        0 <= i < b.len(),
    ensures
        lifetime(b[i]) <= max_countdown(b) + THRESHOLD + 1,
    decreases b.len(),
{
    if i < b.len() - 1 {
        lemma_max_countdown(b.drop_last(), i);
        assert(b.drop_last()[i] == b[i]);
    }
}

/// Ticking alone clears any board within its largest countdown plus the
/// threshold plus one ticks.
pub proof fn lemma_ticks_clear(b: Seq<Tile>, k: nat)
    requires
        k >= max_countdown(b) + THRESHOLD + 1,
    ensures
        all_dead(ticks(b, k)),
{
    lemma_ticks_len(b, k);
    assert forall|i: int| 0 <= i < ticks(b, k).len() implies (#[trigger] ticks(b, k)[i]) is Dead by {
        lemma_ticks_tile(b, k, i);
        lemma_max_countdown(b, i);
        lemma_tile_dies(b[i], k);
    }
}

impl Tile {
    /// Whether the tile is cleared.
    pub open spec fn is_dead(self) -> bool {
        self is Dead
    }

    /// Advances this tile by one tick.
    pub fn tick(self) -> (r: Tile)
        ensures
            r == tick_tile(self),
    {
        match self {
            Tile::Latent(n) => if n == 0 {
                Tile::Active(1)
            } else {
                Tile::Latent(n - 1)
            },
            Tile::Active(v) => if v < THRESHOLD {
                Tile::Active(v + 1)
            } else {
                Tile::Dead
            },
            Tile::Dead => Tile::Dead,
        }
    }
}

/// The tile a character of the input stands for: a decimal digit is a latent
/// tile with that countdown, anything else a dead tile.
pub open spec fn tile_of_char(c: char) -> Tile {
    if '0' <= c && c <= '9' {
        Tile::Latent((c as u32 - '0' as u32) as usize)
    } else {
        Tile::Dead
    }
}

/// The board that a line of input describes, one region per character.
pub fn parse_board(text: &Vec<char>) -> (r: Vec<Tile>)
    ensures
        r@ == text@.map_values(|c: char| tile_of_char(c)),
{
    let mut r: Vec<Tile> = Vec::new();
    let mut i: usize = 0;
    while i < text.len()
        invariant
            i <= text@.len(),
            r@ == text@.subrange(0, i as int).map_values(|c: char| tile_of_char(c)),
        decreases text@.len() - i,
    {
        let c = text[i];
        let t = if '0' <= c && c <= '9' {
            Tile::Latent((c as u32 - '0' as u32) as usize)
        } else {
            Tile::Dead
        };
        r.push(t);
        i += 1;
        assert(r@ =~= text@.subrange(0, i as int).map_values(|c: char| tile_of_char(c)));
    }
    assert(text@.subrange(0, i as int) =~= text@);
    r
}

/// The largest score still to be had from the board, if it fits in a `usize`.
pub fn headroom_of(tiles: &Vec<Tile>) -> (r: Option<usize>)
    ensures
        r matches Some(h) ==> h == board_headroom(tiles@),
        r is None ==> board_headroom(tiles@) > usize::MAX,
{
    let mut total: usize = 0;
    let mut i: usize = 0;
    while i < tiles.len()
        invariant
            i <= tiles@.len(),
            total == board_headroom(tiles@.subrange(0, i as int)),
        decreases tiles@.len() - i,
    {
        let h: u128 = match tiles[i] {
            Tile::Latent(_) => (THRESHOLD * THRESHOLD) as u128,
            Tile::Active(v) => if v <= THRESHOLD {
                (THRESHOLD * THRESHOLD) as u128
            } else {
                proof {
                    let w = v as int;
                    assert(w * w <= 0xFFFF_FFFF_FFFF_FFFE_0000_0000_0000_0001) by (nonlinear_arith)
                        requires
                            0 <= w <= 0xFFFF_FFFF_FFFF_FFFF,
                    ;
                }
                (v as u128) * (v as u128)
            },
            Tile::Dead => 0,
        };
        assert(h <= 0xFFFF_FFFF_FFFF_FFFE_0000_0000_0000_0001);
        proof {
            let s = tiles@.subrange(0, i as int + 1);
            assert(s.drop_last() =~= tiles@.subrange(0, i as int));
            assert(h == headroom(tiles@[i as int]));
        }
        if (total as u128) + h > usize::MAX as u128 {
            proof {
                lemma_headroom_prefix(tiles@, i as int + 1);
            }
            return None;
        }
        total = ((total as u128) + h) as usize;
        i += 1;
    }
    assert(tiles@.subrange(0, i as int) =~= tiles@);
    Some(total)
}

/// What is left to score on a prefix of the board is at most that on the board.
pub proof fn lemma_headroom_prefix(b: Seq<Tile>, k: int)
    requires
        0 <= k <= b.len(),
    ensures
        board_headroom(b.subrange(0, k)) <= board_headroom(b),
    decreases b.len(),
{
    if k < b.len() {
        assert(b.drop_last().subrange(0, k) =~= b.subrange(0, k));
        lemma_headroom_prefix(b.drop_last(), k);
    } else {
        assert(b.subrange(0, k) =~= b);
    }
}

} // verus!
