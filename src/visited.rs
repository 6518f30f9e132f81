use vstd::prelude::*;
use std::collections::HashMap;
use crate::tile::Tile;

verus! {

broadcast use vstd::std_specs::hash::group_hash_axioms;

/// Board, cursor and reward: two states with the same key have the same future.
#[derive(Debug)]
pub struct SeenState {
    pub tiles: Vec<Tile>,
    pub location: Option<usize>,
    pub reward: usize,
}

/// What identifies a canonical key.
pub type KeyModel = (Seq<Tile>, Option<usize>, usize);

impl SeenState {
    /// The key as plain values.
    pub open spec fn model(&self) -> KeyModel {
        (self.tiles@, self.location, self.reward)
    }
}

/// Prime that fingerprints are reduced by.
pub const MODULUS: u64 = 1_000_000_007;

/// Fingerprint of a board; equal boards share it.
pub open spec fn tiles_fingerprint(b: Seq<Tile>) -> int
    decreases b.len(),
{
    if b.len() == 0 {
        0
    } else {
        (tiles_fingerprint(b.drop_last()) * 31 + tile_code(b.last())) % (MODULUS as int)
    }
}

/// A small number standing for a tile in its fingerprint.
pub open spec fn tile_code(t: Tile) -> int {
    match t {
        Tile::Latent(n) => 3 * (n % 1_000_000) + 1,
        Tile::Active(v) => 3 * (v % 1_000_000) + 2,
        Tile::Dead => 3,
    }
}

/// The bucket a key belongs to.
pub open spec fn fingerprint(k: KeyModel) -> u64 {
    let loc: int = match k.1 {
        Some(l) => (l % 1_000_000) as int + 1,
        None => 0,
    };
    ((tiles_fingerprint(k.0) * 1_000_003 + loc * 1009 + (k.2 % 1_000_000) as int) % (MODULUS as int)) as u64
}

/// A set of canonical keys, in the order they were added.
pub struct Visited {
    keys: Vec<SeenState>,
    buckets: HashMap<u64, Vec<usize>>,
}

impl Visited {
    /// The keys held.
    pub closed spec fn view(&self) -> Set<KeyModel> {
        Set::new(|k: KeyModel| exists|i: int| 0 <= i < self.keys@.len() && #[trigger] self.keys@[i].model() == k)
    }

    /// Number of keys added.
    pub closed spec fn count(&self) -> nat {
        self.keys@.len()
    }

    /// Each key is listed in the bucket of its fingerprint, and no key is held twice.
    pub closed spec fn wf(&self) -> bool {
        &&& forall|i: int| 0 <= i < self.keys@.len() ==> {
            let f = fingerprint(#[trigger] self.keys@[i].model());
            self.buckets@.contains_key(f) && self.buckets@[f]@.contains(i as usize)
        }
        &&& forall|i: int, j: int|
            0 <= i < j < self.keys@.len() ==> #[trigger] self.keys@[i].model() != #[trigger] self.keys@[j].model()
    }

    /// An empty set.
    pub fn new() -> (r: Self)
        ensures
            r.wf(),
            r@ == Set::<KeyModel>::empty(),
            r.count() == 0,
    {
        let r = Visited { keys: Vec::new(), buckets: HashMap::new() };
        assert(r@ =~= Set::<KeyModel>::empty());
        r
    }

    /// Number of distinct keys held.
    pub fn len(&self) -> (r: usize)
        ensures
            r == self.count(),
    {
        self.keys.len()
    }

    /// Whether the key is held.
    pub fn contains(&self, key: &SeenState) -> (r: bool)
        requires
            self.wf(),
        ensures
            r == self@.contains(key.model()),
    {
        let f = key_fingerprint(key);
        let n = self.keys.len();
        match self.buckets.get(&f) {
            None => {
                assert(!self@.contains(key.model()));
                false
            },
            Some(bucket) => {
                let mut j: usize = 0;
                while j < bucket.len()
                    invariant
                        self.buckets@.contains_key(f),
                        bucket@ == self.buckets@[f]@,
                        f == fingerprint(key.model()),
                        n == self.keys@.len(),
                        j <= bucket@.len(),
                        forall|k: int|
                            0 <= k < j ==> (bucket@[k] < self.keys@.len() ==> self.keys@[bucket@[k] as int].model() != key.model()),
                    decreases bucket@.len() - j,
                {
                    let idx = bucket[j];
                    if idx < self.keys.len() && same_key(&self.keys[idx], key) {
                        return true;
                    }
                    j += 1;
                }
                proof {
                    if self@.contains(key.model()) {
                        let i = choose|i: int| 0 <= i < self.keys@.len() && #[trigger] self.keys@[i].model() == key.model();
                        assert(self.keys@[i].model() == key.model());
                        assert(self.buckets@[f]@.contains(i as usize));
                        let k = choose|k: int| 0 <= k < bucket@.len() && bucket@[k] == i as usize;
                        assert(bucket@[k] as int == i);
                        assert(self.keys@[bucket@[k] as int].model() == key.model());
                    }
                }
                false
            },
        }
    }

    /// Adds a key that is not held yet.
    pub fn insert(&mut self, key: SeenState)
        requires
            old(self).wf(),
            !old(self)@.contains(key.model()),
        ensures
            final(self).wf(),
            final(self)@ == old(self)@.insert(key.model()),
            final(self).count() == old(self).count() + 1,
    {
        let f = key_fingerprint(&key);
        let idx = self.keys.len();
        let ghost km = key.model();
        let mut bucket = match self.buckets.remove(&f) {
            Some(b) => b,
            None => Vec::new(),
        };
        let ghost oldb = bucket@;
        bucket.push(idx);
        self.buckets.insert(f, bucket);
        self.keys.push(key);
        proof {
            assert forall|i: int| 0 <= i < self.keys@.len() implies {
                let g = fingerprint(#[trigger] self.keys@[i].model());
                self.buckets@.contains_key(g) && self.buckets@[g]@.contains(i as usize)
            } by {
                let g = fingerprint(self.keys@[i].model());
                if i < idx {
                    assert(self.keys@[i] == old(self).keys@[i]);
                    if g == f {
                        let k = choose|k: int| 0 <= k < old(self).buckets@[g]@.len() && old(self).buckets@[g]@[k] == i as usize;
                        assert(self.buckets@[g]@[k] == i as usize);
                    }
                } else {
                    assert(self.buckets@[f]@[oldb.len() as int] == idx);
                }
            }
            assert forall|i: int, j: int|
                0 <= i < j < self.keys@.len() implies #[trigger] self.keys@[i].model() != #[trigger] self.keys@[j].model() by {
                assert(self.keys@[i] == old(self).keys@[i]);
                if j < idx {
                    assert(self.keys@[j] == old(self).keys@[j]);
                } else {
                    assert(old(self)@.contains(self.keys@[i].model()));
                }
            }
            assert forall|k: KeyModel| #[trigger] self@.contains(k) == old(self)@.insert(km).contains(k) by {
                if self@.contains(k) {
                    let i = choose|i: int| 0 <= i < self.keys@.len() && #[trigger] self.keys@[i].model() == k;
                    if i < idx {
                        assert(self.keys@[i] == old(self).keys@[i]);
                    }
                }
                if old(self)@.contains(k) {
                    let i = choose|i: int| 0 <= i < old(self).keys@.len() && #[trigger] old(self).keys@[i].model() == k;
                    assert(self.keys@[i] == old(self).keys@[i]);
                }
                if k == km {
                    assert(self.keys@[idx as int].model() == k);
                }
            }
            assert(self@ =~= old(self)@.insert(km));
        }
    }
}

/// A set holds some key exactly when it has added one.
pub proof fn lemma_count_empty(v: &Visited)
    ensures
        (v.count() == 0) == (v@ == Set::<KeyModel>::empty()),
{
    if v.count() == 0 {
        assert(v@ =~= Set::<KeyModel>::empty());
    } else {
        assert(v@.contains(v.keys@[0].model()));
    }
}

/// The fingerprint of a key.
fn key_fingerprint(key: &SeenState) -> (r: u64)
    ensures
        r == fingerprint(key.model()),
{
    let mut h: u64 = 0;
    let mut i: usize = 0;
    while i < key.tiles.len()
        invariant
            i <= key.tiles@.len(),
            h as int == tiles_fingerprint(key.tiles@.subrange(0, i as int)),
            h < MODULUS,
        decreases key.tiles@.len() - i,
    {
        let code: u64 = match key.tiles[i] {
            Tile::Latent(n) => 3 * ((n % 1_000_000) as u64) + 1,
            Tile::Active(v) => 3 * ((v % 1_000_000) as u64) + 2,
            Tile::Dead => 3,
        };
        proof {
            let s = key.tiles@.subrange(0, i as int + 1);
            assert(s.drop_last() =~= key.tiles@.subrange(0, i as int));
        }
        h = (h * 31 + code) % MODULUS;
        i += 1;
    }
    assert(key.tiles@.subrange(0, key.tiles@.len() as int) =~= key.tiles@);
    let loc: u64 = match key.location {
        Some(l) => (l % 1_000_000) as u64 + 1,
        None => 0,
    };
    (h * 1_000_003 + loc * 1009 + (key.reward % 1_000_000) as u64) % MODULUS
}

/// Whether two keys are equal.
fn same_key(a: &SeenState, b: &SeenState) -> (r: bool)
    ensures
        r == (a.model() == b.model()),
{
    if a.location != b.location || a.reward != b.reward || a.tiles.len() != b.tiles.len() {
        return false;
    }
    let mut i: usize = 0;
    while i < a.tiles.len()
        invariant
            i <= a.tiles@.len(),
            a.tiles@.len() == b.tiles@.len(),
            forall|j: int| 0 <= j < i ==> a.tiles@[j] == b.tiles@[j],
        decreases a.tiles@.len() - i,
    {
        if a.tiles[i] != b.tiles[i] {
            return false;
        }
        i += 1;
    }
    assert(a.tiles@ =~= b.tiles@);
    true
}

} // verus!
