//! The closed set of the search: for each tile sequence that was
//! expanded, the cost at which it was expanded last.

use vstd::prelude::*;
use std::collections::HashMap;
use crate::board::{fingerprint_of, Board, Tile};

verus! {

broadcast use vstd::std_specs::hash::group_hash_axioms;

/// Whether the entry at `j` is the first of `bucket` that holds `tiles`.
pub open spec fn first_at(bucket: Seq<(Box<[Tile]>, usize)>, tiles: Seq<Tile>, j: int) -> bool {
    &&& 0 <= j < bucket.len()
    &&& bucket[j].0@ == tiles
    &&& forall|k: int| 0 <= k < j ==> (#[trigger] bucket[k]).0@ != tiles
}

/// The cost that `bucket` records for `tiles`: that of the first entry
/// that holds them.
pub open spec fn held(bucket: Seq<(Box<[Tile]>, usize)>, tiles: Seq<Tile>) -> Option<usize> {
    if exists|j: int| first_at(bucket, tiles, j) {
        Some(bucket[choose|j: int| first_at(bucket, tiles, j)].1)
    } else {
        None
    }
}

/// The first entry for a tile sequence is at one place only.
proof fn lemma_first_at(bucket: Seq<(Box<[Tile]>, usize)>, tiles: Seq<Tile>, j: int)
    requires
        first_at(bucket, tiles, j),
    ensures
        held(bucket, tiles) == Some(bucket[j].1),
{
}

/// A map from tile sequences to costs.
pub struct Closed {
    buckets: HashMap<u64, Vec<(Box<[Tile]>, usize)>>,
}

impl View for Closed {
    type V = Map<Seq<Tile>, usize>;

    closed spec fn view(&self) -> Map<Seq<Tile>, usize> {
        Map::new(|tiles: Seq<Tile>| self.finds(tiles) is Some, |tiles: Seq<Tile>| self.finds(tiles).unwrap())
    }
}

impl Closed {
    /// The cost recorded for `tiles`, looked for in the bucket of their
    /// fingerprint.
    closed spec fn finds(&self, tiles: Seq<Tile>) -> Option<usize> {
        let key = fingerprint_of(tiles);
        if self.buckets@.contains_key(key) {
            held(self.buckets@[key]@, tiles)
        } else {
            None
        }
    }

    /// An empty map.
    pub fn new() -> (r: Closed)
        ensures
            r@ == Map::<Seq<Tile>, usize>::empty(),
    {
        let r = Closed { buckets: HashMap::new() };
        r
    }

    /// The cost recorded for the board's tiles, if there is one.
    pub fn get(&self, board: &Board) -> (r: Option<usize>)
        ensures
            r == (if self@.contains_key(board.data@) {
                Some(self@[board.data@])
            } else {
                None
            }),
    {
        let key = board.fingerprint();
        match self.buckets.get(&key) {
            None => None,
            Some(bucket) => {
                let ghost tiles = board.data@;
                let mut j: usize = 0;
                while j < bucket.len()
                    invariant
                        j <= bucket@.len(),
                        tiles == board.data@,
                        self.finds(tiles) == held(bucket@, tiles),
                        forall|k: int| 0 <= k < j ==> (#[trigger] bucket@[k]).0@ != tiles,
                    decreases bucket@.len() - j,
                {
                    if same(&bucket[j].0, &board.data) {
                        proof {
                            lemma_first_at(bucket@, tiles, j as int);
                        }
                        return Some(bucket[j].1);
                    }
                    j += 1;
                }
                None
            },
        }
    }

    /// Records `cost` for the board's tiles, in place of what was recorded
    /// for them before.
    pub fn insert(&mut self, board: &Board, cost: usize)
        ensures
            final(self)@ == old(self)@.insert(board.data@, cost),
    {
        let key = board.fingerprint();
        let ghost tiles = board.data@;
        let copy = board.clone();
        let entry = (copy.data, cost);
        let mut bucket = match self.buckets.remove(&key) {
            Some(bucket) => bucket,
            None => Vec::new(),
        };
        let ghost was = bucket@;
        let mut j: usize = 0;
        let mut found = false;
        while j < bucket.len()
            invariant_except_break
                !found,
            invariant
                j <= bucket@.len(),
                bucket@ == was,
                tiles == board.data@,
                forall|k: int| 0 <= k < j ==> (#[trigger] bucket@[k]).0@ != tiles,
            ensures
                found ==> first_at(was, tiles, j as int),
                !found ==> forall|k: int| 0 <= k < was.len() ==> (#[trigger] was[k]).0@ != tiles,
            decreases bucket@.len() - j,
        {
            if same(&bucket[j].0, &board.data) {
                found = true;
                break;
            }
            j += 1;
        }
        if found {
            bucket.set(j, entry);
        } else {
            bucket.push(entry);
        }
        let ghost now = bucket@;
        proof {
            let at = if found {
                j as int
            } else {
                was.len() as int
            };
            lemma_first_at(now, tiles, at);
            assert forall|other: Seq<Tile>| other != tiles implies held(now, other) == held(
                was,
                other,
            ) by {
                if exists|k: int| first_at(was, other, k) {
                    let k = choose|k: int| first_at(was, other, k);
                    lemma_first_at(now, other, k);
                } else {
                    if exists|k: int| first_at(now, other, k) {
                        let k = choose|k: int| first_at(now, other, k);
                        assert forall|i: int| 0 <= i < k implies (#[trigger] was[i]).0@ != other by {
                            if i != at {
                                assert(now[i] == was[i]);
                            }
                        }
                        assert(first_at(was, other, k));
                    }
                }
            }
        }
        self.buckets.insert(key, bucket);
    }
}

/// Whether the two slices hold the same tiles.
fn same(a: &Box<[Tile]>, b: &Box<[Tile]>) -> (r: bool)
    ensures
        r == (a@ == b@),
{
    if a.len() != b.len() {
        return false;
    }
    let mut i: usize = 0;
    while i < a.len()
        invariant
            i <= a@.len(),
            a@.len() == b@.len(),
            forall|k: int| 0 <= k < i ==> a@[k] == b@[k],
        decreases a@.len() - i,
    {
        if a[i] != b[i] {
            return false;
        }
        i += 1;
    }
    assert(a@ =~= b@);
    true
}

} // verus!
