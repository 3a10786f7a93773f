//! A set of tiles, by their coordinates.

use std::collections::HashSet;
use vstd::prelude::*;
use vstd::relations::injective_on;
use vstd::set_lib::{
    lemma_len_subset, lemma_map_size, lemma_map_size_bound, lemma_set_subset_finite, FiniteFull,
    FiniteRange,
};

verus! {

broadcast use vstd::std_specs::hash::group_hash_axioms;

/// A set of tile coordinates `(x, y)`.
#[derive(Debug, PartialEq, Eq)]
pub struct TileSet {
    keys: HashSet<u16>,
}

/// The number under which a tile is stored.
spec fn tile_key(tile: (u8, u8)) -> u16 {
    (tile.0 * 256 + tile.1) as u16
}

/// The tile stored under a number.
spec fn key_tile(key: u16) -> (u8, u8) {
    ((key / 256) as u8, (key % 256) as u8)
}

impl View for TileSet {
    type V = Set<(u8, u8)>;

    closed spec fn view(&self) -> Set<(u8, u8)> {
        Set::new(|tile: (u8, u8)| self.keys@.contains(tile_key(tile)))
    }
}

impl Default for TileSet {
    fn default() -> (tiles: TileSet)
        ensures
            tiles@ == Set::<(u8, u8)>::empty(),
    {
        TileSet::new()
    }
}

impl Clone for TileSet {
    fn clone(&self) -> (tiles: TileSet)
        ensures
            tiles@ == self@,
    {
        let mut keys: HashSet<u16> = HashSet::new();
        for key in it: self.keys.iter()
            invariant
                it.seq().unref().to_set() == self.keys@,
                forall|k: u16|
                    keys@.contains(k) <==> exists|j: int|
                        0 <= j < it.index() && #[trigger] it.seq().unref()[j] == k,
        {
            assert(it.seq().unref()[it.index()] == *key);
            keys.insert(*key);
        }
        let tiles = TileSet { keys };
        proof {
            assert(keys@ =~= self.keys@);
            assert(tiles@ =~= self@);
        }
        tiles
    }
}

impl TileSet {
    /// The empty set.
    pub fn new() -> (tiles: TileSet)
        ensures
            tiles@ == Set::<(u8, u8)>::empty(),
    {
        let tiles = TileSet { keys: HashSet::new() };
        assert(tiles@ =~= Set::<(u8, u8)>::empty());
        tiles
    }

    fn key(tile: (u8, u8)) -> (key: u16)
        ensures
            key == tile_key(tile),
    {
        tile.0 as u16 * 256 + tile.1 as u16
    }

    /// Adds a tile; true if it was not there yet.
    pub fn insert(&mut self, tile: (u8, u8)) -> (added: bool)
        ensures
            final(self)@ == old(self)@.insert(tile),
            added == !old(self)@.contains(tile),
    {
        let added: bool = self.keys.insert(TileSet::key(tile));
        assert(self@ =~= old(self)@.insert(tile));
        added
    }

    /// Takes a tile out; true if it was there.
    pub fn remove(&mut self, tile: &(u8, u8)) -> (removed: bool)
        ensures
            final(self)@ == old(self)@.remove(*tile),
            removed == old(self)@.contains(*tile),
    {
        let key: u16 = TileSet::key(*tile);
        let removed: bool = self.keys.remove(&key);
        assert(self@ =~= old(self)@.remove(*tile));
        removed
    }

    /// Whether the tile is in the set.
    pub fn contains(&self, tile: &(u8, u8)) -> (found: bool)
        ensures
            found == self@.contains(*tile),
    {
        let key: u16 = TileSet::key(*tile);
        self.keys.contains(&key)
    }

    /// The tiles, each once, in no particular order.
    pub fn to_vec(&self) -> (tiles: Vec<(u8, u8)>)
        ensures
            forall|tile: (u8, u8)| #[trigger] tiles@.contains(tile) <==> self@.contains(tile),
            tiles@.no_duplicates(),
    {
        let mut tiles: Vec<(u8, u8)> = Vec::new();
        let ghost mut listed: Seq<u16> = Seq::empty();
        for key in it: self.keys.iter()
            invariant
                it.seq().unref().to_set() == self.keys@,
                it.seq().no_duplicates(),
                listed.len() == it.index(),
                forall|j: int|
                    0 <= j < it.index() ==> #[trigger] listed[j] == it.seq().unref()[j],
                forall|k: u16|
                    listed.contains(k) <==> exists|j: int|
                        0 <= j < it.index() && #[trigger] it.seq().unref()[j] == k,
                listed.no_duplicates(),
                tiles.len() == listed.len(),
                forall|j: int| 0 <= j < tiles.len() ==> #[trigger] tiles[j] == key_tile(listed[j]),
        {
            assert(it.seq().unref()[it.index()] == *key);
            tiles.push(((*key / 256) as u8, (*key % 256) as u8));
            proof {
                let before = listed;
                listed = listed.push(*key);
                assert(listed.last() == *key);
                assert forall|k: u16| listed.contains(k) <==> before.contains(k) || k == *key by {
                    if before.contains(k) {
                        let j = choose|j: int| 0 <= j < before.len() && before[j] == k;
                        assert(listed[j] == k);
                    }
                }
                assert forall|j: int| 0 <= j < before.len() implies before[j] != *key by {
                    assert(before[j] == it.seq().unref()[j]);
                    assert(*it.seq()[j] != *it.seq()[it.index()]);
                }
            }
        }
        proof {
            assert(listed.to_set() =~= self.keys@);
            assert forall|tile: (u8, u8)| self@.contains(tile) implies #[trigger] tiles@.contains(
                tile,
            ) by {
                assert(listed.to_set().contains(tile_key(tile)));
                let j = choose|j: int| 0 <= j < listed.len() && listed[j] == tile_key(tile);
                assert(tiles@[j] == tile);
            }
            assert forall|tile: (u8, u8)| #[trigger] tiles@.contains(tile) implies self@.contains(
                tile,
            ) by {
                let j = choose|j: int| 0 <= j < tiles.len() && tiles@[j] == tile;
                assert(listed.to_set().contains(listed[j]));
                assert(tile_key(tile) == listed[j]);
            }
            assert forall|i: int, j: int| 0 <= i < j < tiles.len() implies tiles@[i]
                != tiles@[j] by {
                assert(tile_key(tiles@[i]) == listed[i] && tile_key(tiles@[j]) == listed[j]);
            }
        }
        tiles
    }

    /// Number of tiles.
    pub fn len(&self) -> (n: usize)
        ensures
            self@.finite(),
            n == self@.len(),
    {
        proof {
            <u16 as FiniteFull>::full_properties();
            lemma_set_subset_finite(Set::<u16>::full(), self.keys@);
            let f = |key: u16| key_tile(key);
            assert forall|a: u16, b: u16|
                self.keys@.contains(a) && self.keys@.contains(b) && f(a) == f(b) implies a == b by {
                assert(a == tile_key(f(a)));
                assert(b == tile_key(f(b)));
            }
            assert forall|tile: (u8, u8)| self@.contains(tile) implies self.keys@.map(
                f,
            ).contains(tile) by {
                assert(f(tile_key(tile)) == tile);
            }
            assert forall|tile: (u8, u8)| self.keys@.map(f).contains(tile) implies self@.contains(
                tile,
            ) by {
                let key = choose|key: u16| self.keys@.contains(key) && f(key) == tile;
                assert(tile_key(tile) == key);
            }
            assert(self.keys@.map(f) =~= self@);
            assert(injective_on(f, self.keys@));
            lemma_map_size(self.keys@, self@, f);
        }
        self.keys.len()
    }
}

/// Every set of tile coordinates is finite.
pub proof fn lemma_tiles_finite(tiles: Set<(u8, u8)>)
    ensures
        tiles.finite(),
        tiles.len() <= 65536,
{
    let all = Set::<u16>::range_inclusive(0, u16::MAX);
    <u16 as FiniteRange>::range_properties(0, u16::MAX);
    let f = |key: u16| key_tile(key);
    let every = all.map(f);
    lemma_map_size_bound(all, every, f);
    assert(tiles.subset_of(every)) by {
        assert forall|tile: (u8, u8)| tiles.contains(tile) implies every.contains(tile) by {
            assert(all.contains(tile_key(tile)));
            assert(f(tile_key(tile)) == tile);
        }
    }
    lemma_set_subset_finite(every, tiles);
    lemma_len_subset(tiles, every);
}

} // verus!
