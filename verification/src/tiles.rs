//! Tile coordinates, and numbers for tiles and sets of tiles.

use std::collections::{HashMap, HashSet};
use vstd::prelude::*;

verus! {

broadcast use vstd::std_specs::hash::group_hash_axioms;

/// A tile of the quadtree: its level, and its column and row on that level.
pub type TileCoord = (u8, u32, u32);

/// The tile that a tile is a quarter of.
pub open spec fn parent_tile(t: TileCoord) -> TileCoord {
    ((t.0 - 1) as u8, t.1 / 2, t.2 / 2)
}

/// The tile on `level` that a tile is part of.
pub open spec fn ancestor(t: TileCoord, level: nat) -> TileCoord
    decreases t.0,
{
    if t.0 <= level {
        t
    } else {
        ancestor(parent_tile(t), level)
    }
}

/// The tile that a tile is a quarter of.
pub fn parent(tile: TileCoord) -> (res: TileCoord)
    requires
        tile.0 > 0,
    ensures
        res == parent_tile(tile),
{
    (tile.0 - 1, tile.1 / 2, tile.2 / 2)
}

/// The column or row of the cell that lies `raw` cells behind the first one,
/// kept inside the grid of `2^depth` cells, as far as 32 bits hold it.
pub open spec fn cell_index(raw: int, side: int) -> int {
    (if raw < 0 {
        0
    } else if raw >= side {
        side - 1
    } else {
        raw
    }) % 0x1_0000_0000
}

/// The column or row of the cell at `raw`.
fn clamp_cell(raw: i64, side: u64) -> (res: u32)
    requires
        0 < side <= 0x4000_0000_0000_0000,
    ensures
        res == cell_index(raw as int, side as int),
{
    let inside: u64 = if raw < 0 {
        0
    } else if raw as u64 >= side {
        side - 1
    } else {
        raw as u64
    };
    (inside % 0x1_0000_0000) as u32
}

/// The tile on level `depth` of the cell that lies so many cells behind the
/// first column and row.
pub open spec fn cell_tile(depth: u8, raw_x: int, raw_y: int) -> TileCoord {
    let side = vstd::arithmetic::power2::pow2(depth as nat) as int;
    (depth, cell_index(raw_x, side) as u32, cell_index(raw_y, side) as u32)
}

/// The tile on level `depth` that a place falls into, given how many cells of
/// that level it lies behind the first column and row.
pub fn tile_at(depth: u8, raw_x: i64, raw_y: i64) -> (res: TileCoord)
    requires
        depth <= 62,
    ensures
        res == cell_tile(depth, raw_x as int, raw_y as int),
        ancestor(res, 0) == (0u8, 0u32, 0u32),
{
    let side: u64 = 1u64 << (depth as u64);
    proof {
        vstd::arithmetic::power2::lemma2_to64_rest();
        vstd::arithmetic::power2::lemma_pow2_pos(depth as nat);
        if depth < 62 {
            vstd::arithmetic::power2::lemma_pow2_strictly_increases(depth as nat, 62);
        }
        vstd::bits::lemma_u64_shl_is_mul(1, depth as u64);
    }
    let tile: TileCoord = (depth, clamp_cell(raw_x, side), clamp_cell(raw_y, side));
    proof {
        lemma_in_root(tile);
    }
    tile
}

/// A tile whose column and row are among the first `2^level` lies in the root.
pub proof fn lemma_in_root(t: TileCoord)
    requires
        t.1 < vstd::arithmetic::power2::pow2(t.0 as nat),
        t.2 < vstd::arithmetic::power2::pow2(t.0 as nat),
    ensures
        ancestor(t, 0) == (0u8, 0u32, 0u32),
    decreases t.0,
{
    if t.0 == 0 {
        vstd::arithmetic::power2::lemma2_to64();
    } else {
        vstd::arithmetic::power2::lemma_pow2_unfold(t.0 as nat);
        lemma_in_root(parent_tile(t));
    }
}

/// A cell of a level whose columns and rows 32 bits can count lies among its
/// first `2^depth` columns and rows. One that would lie outside is the one at
/// the edge.
pub proof fn lemma_cell_in_grid(depth: u8, raw_x: int, raw_y: int)
    requires
        depth <= 32,
    ensures
        ({
            let side = vstd::arithmetic::power2::pow2(depth as nat);
            let t = cell_tile(depth, raw_x, raw_y);
            &&& t.1 < side && t.2 < side
            &&& t.1 == if raw_x < 0 {
                0
            } else if raw_x >= side {
                side - 1
            } else {
                raw_x
            }
            &&& t.2 == if raw_y < 0 {
                0
            } else if raw_y >= side {
                side - 1
            } else {
                raw_y
            }
        }),
{
    vstd::arithmetic::power2::lemma2_to64();
    vstd::arithmetic::power2::lemma_pow2_pos(depth as nat);
    if depth < 32 {
        vstd::arithmetic::power2::lemma_pow2_strictly_increases(depth as nat, 32);
    }
}

/// The levels nest: the tile around that of a cell is that of the cell twice as
/// large, whether the cell lies in the grid or not.
pub proof fn lemma_levels_nest(depth: u8, raw_x: int, raw_y: int)
    requires
        depth < 32,
    ensures
        parent_tile(cell_tile((depth + 1) as u8, raw_x, raw_y)) == cell_tile(
            depth,
            raw_x / 2,
            raw_y / 2,
        ),
{
    lemma_cell_in_grid(depth, raw_x / 2, raw_y / 2);
    lemma_cell_in_grid((depth + 1) as u8, raw_x, raw_y);
    vstd::arithmetic::power2::lemma_pow2_unfold((depth + 1) as nat);
}

/// A tile as one number.
pub open spec fn packed(t: TileCoord) -> u128 {
    (t.0 * 0x1_0000_0000_0000_0000 + t.1 * 0x1_0000_0000 + t.2) as u128
}

/// The tile of a number.
pub open spec fn unpacked(k: u128) -> TileCoord {
    (
        (k / 0x1_0000_0000_0000_0000) as u8,
        ((k / 0x1_0000_0000) % 0x1_0000_0000) as u32,
        (k % 0x1_0000_0000) as u32,
    )
}

/// Whether a number stands for a tile.
pub open spec fn is_packed(k: u128) -> bool {
    k < 0x100_0000_0000_0000_0000
}

proof fn lemma_packed(t: TileCoord)
    ensures
        is_packed(packed(t)),
        unpacked(packed(t)) == t,
{
}

proof fn lemma_unpacked(k: u128)
    requires
        is_packed(k),
    ensures
        packed(unpacked(k)) == k,
{
}

proof fn lemma_packed_distinct()
    ensures
        forall|t: TileCoord, u: TileCoord| #[trigger] packed(t) == #[trigger] packed(u) ==> t == u,
{
    assert forall|t: TileCoord, u: TileCoord| #[trigger] packed(t) == #[trigger] packed(u) implies t
        == u by {
        lemma_packed(t);
        lemma_packed(u);
    }
}

fn pack(t: TileCoord) -> (res: u128)
    ensures
        res == packed(t),
{
    t.0 as u128 * 0x1_0000_0000_0000_0000 + t.1 as u128 * 0x1_0000_0000 + t.2 as u128
}

fn unpack(k: u128) -> (res: TileCoord)
    requires
        is_packed(k),
    ensures
        res == unpacked(k),
        packed(res) == k,
{
    proof {
        lemma_unpacked(k);
    }
    (
        (k / 0x1_0000_0000_0000_0000) as u8,
        ((k / 0x1_0000_0000) % 0x1_0000_0000) as u32,
        (k % 0x1_0000_0000) as u32,
    )
}

/// The number of points counted in a tile.
pub open spec fn count_in(counts: Map<TileCoord, u64>, t: TileCoord) -> nat {
    if counts.contains_key(t) {
        counts[t] as nat
    } else {
        0
    }
}

/// Whether no tile holds more than `limit` points.
pub open spec fn none_above(counts: Map<TileCoord, u64>, limit: u64) -> bool {
    forall|t: TileCoord| #[trigger] count_in(counts, t) <= limit
}

/// A number for each of some tiles, such as the number of points in it.
pub struct TileMap {
    map: HashMap<u128, u64>,
}

impl View for TileMap {
    type V = Map<TileCoord, u64>;

    closed spec fn view(&self) -> Map<TileCoord, u64> {
        Map::new(|t: TileCoord| self.map@.contains_key(packed(t)), |t: TileCoord| self.map@[packed(t)])
    }
}

impl TileMap {
    /// Every key stands for a tile.
    pub closed spec fn wf(&self) -> bool {
        forall|k: u128| #[trigger] self.map@.contains_key(k) ==> is_packed(k)
    }

    /// A number for no tile.
    pub fn new() -> (res: TileMap)
        ensures
            res.wf(),
            res@ == Map::<TileCoord, u64>::empty(),
    {
        let res = TileMap { map: HashMap::new() };
        assert(res@ =~= Map::<TileCoord, u64>::empty());
        res
    }

    /// The number of points counted in a tile.
    pub fn get(&self, tile: TileCoord) -> (res: u64)
        ensures
            res == count_in(self@, tile),
    {
        let key: u128 = pack(tile);
        match self.map.get(&key) {
            Some(n) => *n,
            None => 0,
        }
    }

    /// The number of a tile, if it has one.
    pub fn find(&self, tile: TileCoord) -> (res: Option<u64>)
        ensures
            res == if self@.contains_key(tile) {
                Some(self@[tile])
            } else {
                None::<u64>
            },
    {
        let key: u128 = pack(tile);
        match self.map.get(&key) {
            Some(n) => Some(*n),
            None => None,
        }
    }

    /// Gives a tile a number.
    pub fn put(&mut self, tile: TileCoord, n: u64)
        requires
            old(self).wf(),
        ensures
            final(self).wf(),
            final(self)@ == old(self)@.insert(tile, n),
    {
        let key: u128 = pack(tile);
        proof {
            lemma_packed(tile);
            lemma_packed_distinct();
        }
        self.map.insert(key, n);
        assert(self@ =~= old(self)@.insert(tile, n));
    }

    /// Counts `n` more points in a tile.
    pub fn count(&mut self, tile: TileCoord, n: u64)
        requires
            old(self).wf(),
            count_in(old(self)@, tile) + n <= u64::MAX,
        ensures
            final(self).wf(),
            final(self)@ == old(self)@.insert(tile, (count_in(old(self)@, tile) + n) as u64),
    {
        let before: u64 = self.get(tile);
        self.put(tile, before + n);
    }

    /// The tiles that have a number, in no particular order.
    pub fn tiles(&self) -> (res: Vec<TileCoord>)
        requires
            self.wf(),
        ensures
            res@.no_duplicates(),
            forall|t: TileCoord| #[trigger] res@.contains(t) <==> self@.contains_key(t),
    {
        let mut out: Vec<TileCoord> = Vec::new();
        let keys = self.map.keys();
        let ghost all = vstd::std_specs::iter::IteratorSpec::remaining(&keys).unref();
        for k in it: keys
            invariant
                self.wf(),
                all == it.seq().unref(),
                all.to_set() == self.map@.dom(),
                all.no_duplicates(),
                out@.len() == it.index(),
                forall|i: int| 0 <= i < out@.len() ==> packed(#[trigger] out@[i]) == all[i],
        {
            proof {
                assert(all[it.index()] == *k);
                assert(all.to_set().contains(*k));
                assert(self.map@.contains_key(*k));
            }
            out.push(unpack(*k));
        }
        proof {
            lemma_packed_distinct();
            assert forall|t: TileCoord| self@.contains_key(t) implies #[trigger] out@.contains(t) by {
                assert(all.to_set().contains(packed(t)));
                let i = choose|i: int| 0 <= i < all.len() && all[i] == packed(t);
                assert(out@[i] == t);
            }
            assert forall|t: TileCoord| #[trigger] out@.contains(t) implies self@.contains_key(t) by {
                let i = choose|i: int| 0 <= i < out@.len() && out@[i] == t;
                assert(all.to_set().contains(all[i]));
            }
        }
        out
    }
}

impl TileMap {
    /// The same numbers once more.
    pub fn duplicate(&self) -> (res: TileMap)
        requires
            self.wf(),
        ensures
            res.wf(),
            res@ == self@,
    {
        let res = TileMap { map: self.map.clone() };
        assert(res@ =~= self@);
        res
    }

    /// The tiles of one level that have a number, in no particular order.
    pub fn tiles_on(&self, level: u8) -> (res: Vec<TileCoord>)
        requires
            self.wf(),
        ensures
            res@.no_duplicates(),
            forall|t: TileCoord| #[trigger]
                res@.contains(t) <==> self@.contains_key(t) && t.0 == level,
    {
        let tiles = self.tiles();
        let mut out: Vec<TileCoord> = Vec::new();
        let mut i: usize = 0;
        while i < tiles.len()
            invariant
                i <= tiles@.len(),
                tiles@.no_duplicates(),
                out@.no_duplicates(),
                forall|t: TileCoord| #[trigger]
                    out@.contains(t) <==> tiles@.take(i as int).contains(t) && t.0 == level,
            decreases tiles.len() - i,
        {
            let tile: TileCoord = tiles[i];
            let ghost before = out@;
            if tile.0 == level {
                proof {
                    if before.contains(tile) {
                        let j = choose|j: int| 0 <= j < i && tiles@.take(i as int)[j] == tile;
                        assert(tiles@[j] == tiles@[i as int]);
                    }
                }
                out.push(tile);
            }
            proof {
                let seen = tiles@.take(i as int);
                assert(tiles@.take(i + 1) =~= seen.push(tile));
                assert(tiles@.take(i + 1)[i as int] == tile);
                assert forall|t: TileCoord| #[trigger]
                    out@.contains(t) <==> tiles@.take(i + 1).contains(t) && t.0 == level by {
                    vstd::seq_lib::lemma_seq_contains_after_push(seen, tile, t);
                    vstd::seq_lib::lemma_seq_contains_after_push(before, tile, t);
                }
            }
            i += 1;
        }
        assert(tiles@.take(tiles@.len() as int) =~= tiles@);
        out
    }

    /// Whether no tile holds more than `limit` points.
    pub fn all_at_most(&self, limit: u64) -> (res: bool)
        requires
            self.wf(),
        ensures
            res == none_above(self@, limit),
    {
        let tiles = self.tiles();
        let mut i: usize = 0;
        while i < tiles.len()
            invariant
                i <= tiles@.len(),
                forall|j: int| 0 <= j < i ==> count_in(self@, #[trigger] tiles@[j]) <= limit,
            decreases tiles.len() - i,
        {
            if self.get(tiles[i]) > limit {
                assert(count_in(self@, tiles@[i as int]) > limit);
                return false;
            }
            i += 1;
        }
        assert forall|t: TileCoord| #[trigger] count_in(self@, t) <= limit by {
            if self@.contains_key(t) {
                assert(tiles@.contains(t));
            }
        }
        true
    }
}

/// A set of tiles.
pub struct TileSet {
    set: HashSet<u128>,
}

impl View for TileSet {
    type V = Set<TileCoord>;

    closed spec fn view(&self) -> Set<TileCoord> {
        Set::new(|t: TileCoord| self.set@.contains(packed(t)))
    }
}

impl TileSet {
    /// Every member stands for a tile.
    pub closed spec fn wf(&self) -> bool {
        forall|k: u128| #[trigger] self.set@.contains(k) ==> is_packed(k)
    }

    /// The set without a tile.
    pub fn new() -> (res: TileSet)
        ensures
            res.wf(),
            res@ == Set::<TileCoord>::empty(),
    {
        let res = TileSet { set: HashSet::new() };
        assert(res@ =~= Set::<TileCoord>::empty());
        res
    }

    /// Whether a tile is in the set.
    pub fn contains(&self, tile: TileCoord) -> (res: bool)
        ensures
            res == self@.contains(tile),
    {
        let key: u128 = pack(tile);
        self.set.contains(&key)
    }

    /// Puts a tile into the set.
    pub fn insert(&mut self, tile: TileCoord)
        requires
            old(self).wf(),
        ensures
            final(self).wf(),
            final(self)@ == old(self)@.insert(tile),
    {
        let key: u128 = pack(tile);
        proof {
            lemma_packed(tile);
            lemma_packed_distinct();
        }
        self.set.insert(key);
        assert(self@ =~= old(self)@.insert(tile));
    }

    /// The tiles of the set, each once, in no particular order.
    pub fn tiles(&self) -> (res: Vec<TileCoord>)
        requires
            self.wf(),
        ensures
            res@.no_duplicates(),
            forall|t: TileCoord| #[trigger] res@.contains(t) <==> self@.contains(t),
    {
        let mut out: Vec<TileCoord> = Vec::new();
        let members = self.set.iter();
        let ghost all = vstd::std_specs::iter::IteratorSpec::remaining(&members).unref();
        for k in it: members
            invariant
                self.wf(),
                all == it.seq().unref(),
                all.to_set() == self.set@,
                all.no_duplicates(),
                out@.len() == it.index(),
                forall|i: int| 0 <= i < out@.len() ==> packed(#[trigger] out@[i]) == all[i],
        {
            proof {
                assert(all[it.index()] == *k);
                assert(all.to_set().contains(*k));
            }
            out.push(unpack(*k));
        }
        proof {
            lemma_packed_distinct();
            assert forall|t: TileCoord| self@.contains(t) implies #[trigger] out@.contains(t) by {
                assert(all.to_set().contains(packed(t)));
                let i = choose|i: int| 0 <= i < all.len() && all[i] == packed(t);
                assert(out@[i] == t);
            }
            assert forall|t: TileCoord| #[trigger] out@.contains(t) implies self@.contains(t) by {
                let i = choose|i: int| 0 <= i < out@.len() && out@[i] == t;
                assert(all.to_set().contains(all[i]));
            }
        }
        out
    }
}

/// How many points a tile is counted to hold is what was put down for it, and
/// none where nothing was. No tile holds more than a limit if and only if nothing
/// larger was put down for any.
pub proof fn lemma_counted(counts: Map<TileCoord, u64>, limit: u64)
    ensures
        forall|t: TileCoord| #[trigger] counts.contains_key(t) ==> count_in(counts, t) == counts[t],
        forall|t: TileCoord| !counts.contains_key(t) ==> #[trigger] count_in(counts, t) == 0,
        none_above(counts, limit) <==> forall|t: TileCoord| #[trigger]
            counts.contains_key(t) ==> counts[t] <= limit,
{
    if !none_above(counts, limit) {
        let t = choose|t: TileCoord| #[trigger] count_in(counts, t) > limit;
        assert(counts.contains_key(t));
    }
    if none_above(counts, limit) {
        assert forall|t: TileCoord| #[trigger] counts.contains_key(t) implies counts[t] <= limit by {
            assert(count_in(counts, t) <= limit);
        }
    }
}

/// A cell on any level is the one that is asked for where the grid has it, and
/// the one at the edge where the grid has none, of which 32 bits are kept.
pub proof fn lemma_cell_on_any_level(depth: u8, raw_x: int, raw_y: int)
    ensures
        ({
            let side = vstd::arithmetic::power2::pow2(depth as nat);
            let t = cell_tile(depth, raw_x, raw_y);
            &&& t.0 == depth
            &&& 0 <= raw_x < side ==> t.1 == raw_x % 0x1_0000_0000
            &&& 0 <= raw_y < side ==> t.2 == raw_y % 0x1_0000_0000
            &&& raw_x < 0 ==> t.1 == 0
            &&& raw_y < 0 ==> t.2 == 0
            &&& raw_x >= side ==> t.1 == (side - 1) % 0x1_0000_0000
            &&& raw_y >= side ==> t.2 == (side - 1) % 0x1_0000_0000
        }),
{
    vstd::arithmetic::power2::lemma_pow2_pos(depth as nat);
}

} // verus!
