//! Counts of the points of a cloud in the tiles of one level.

use vstd::prelude::*;
use crate::leaves::{
    adaptive_leaves, child, covered, has_children, is_leaf, lemma_leaf_found, lemma_leaves_hold_all,
    lemma_total_counted, sum_totals, total, MAX_POINTS_PER_TILE,
};
use crate::tiles::{ancestor, count_in, none_above, TileCoord, TileMap, TileSet};

verus! {

/// How many points each tile of one level holds.
pub struct Histogram {
    level: u8,
    points: u64,
    counts: TileMap,
}

impl Histogram {
    /// The level of the tiles.
    pub closed spec fn level(&self) -> u8 {
        self.level
    }

    /// The number of points.
    pub closed spec fn points(&self) -> nat {
        self.points as nat
    }

    /// The number of points in each tile.
    pub closed spec fn counts(&self) -> Map<TileCoord, u64> {
        self.counts@
    }

    /// Every tile lies on the one level and in the root, which holds all the
    /// points; no tile holds more.
    pub closed spec fn wf(&self) -> bool {
        &&& self.counts.wf()
        &&& forall|t: TileCoord| #[trigger]
            self.counts@.contains_key(t) ==> t.0 == self.level && ancestor(t, 0) == (0u8, 0u32, 0u32)
        &&& forall|depth: u8, t: TileCoord| #[trigger] total(self.counts@, depth, t) <= self.points
        &&& total(self.counts@, self.level, (0, 0, 0)) == self.points
    }

    /// Tiles of one level, without a point.
    pub fn new(level: u8) -> (res: Histogram)
        ensures
            res.wf(),
            res.level() == level,
            res.points() == 0,
            res.counts() == Map::<TileCoord, u64>::empty(),
    {
        let res = Histogram { level, points: 0, counts: TileMap::new() };
        assert forall|depth: u8, t: TileCoord| #[trigger] total(res.counts@, depth, t) <= 0 by {
            lemma_total_of_nothing(depth, t);
        }
        res
    }

    /// Counts one point more in a tile, which lies in the root.
    pub fn count(&mut self, tile: TileCoord)
        requires
            old(self).wf(),
            tile.0 == old(self).level(),
            ancestor(tile, 0) == (0u8, 0u32, 0u32),
            old(self).points() < u64::MAX,
        ensures
            final(self).wf(),
            final(self).level() == old(self).level(),
            final(self).points() == old(self).points() + 1,
            final(self).counts() == old(self).counts().insert(
                tile,
                (count_in(old(self).counts(), tile) + 1) as u64,
            ),
    {
        let ghost before = self.counts@;
        assert(total(before, 0, tile) <= self.points);
        proof {
            lemma_total_at_least(before, 0, tile);
        }
        self.counts.count(tile, 1);
        self.points = self.points + 1;
        assert forall|depth: u8, t: TileCoord| #[trigger]
            total(self.counts@, depth, t) <= self.points by {
            lemma_total_counted(before, depth, tile, 1, t);
            assert(total(before, depth, t) <= old(self).points);
        }
        proof {
            lemma_total_counted(before, self.level, tile, 1, (0, 0, 0));
        }
    }

    /// The level to count on next, until the tiles are small enough or on the
    /// level `maximum`.
    pub fn next_depth(&self, maximum: u8) -> (res: Option<u8>)
        requires
            self.wf(),
            self.level() <= maximum,
        ensures
            res == if self.level() == maximum || none_above(
                self.counts(),
                MAX_POINTS_PER_TILE,
            ) {
                None::<u8>
            } else {
                Some((self.level() + 1) as u8)
            },
    {
        if self.level == maximum || self.counts.all_at_most(MAX_POINTS_PER_TILE) {
            None
        } else {
            Some(self.level + 1)
        }
    }

    /// The leaves of the tile tree that is as deep as the tiles counted in.
    pub fn leaves(&self) -> (res: TileSet)
        requires
            self.wf(),
        ensures
            res.wf(),
            forall|t: TileCoord| #[trigger]
                res@.contains(t) <==> is_leaf(self.counts(), self.level(), t),
            forall|t: TileCoord|
                0 < #[trigger] count_in(self.counts(), t) ==> covered(res@, t),
    {
        proof {
            assert forall|t: TileCoord|
                t.0 < self.level && #[trigger] total(self.counts@, self.level, t) > 0 implies has_children(
                t,
            ) by {
                assert(count_in(self.counts@, t) == 0);
            }
        }
        let res = adaptive_leaves(&self.counts, self.level);
        proof {
            assert forall|t: TileCoord| 0 < #[trigger] count_in(self.counts@, t) implies covered(
                res@,
                t,
            ) by {
                assert(t.0 == self.level);
                let level = lemma_leaf_found(self.counts@, self.level, t);
                assert(res@.contains(ancestor(t, level)));
            }
        }
        res
    }
}

impl Histogram {
    /// The leaves of the tile tree hold every point once.
    pub proof fn lemma_leaves_hold_points(&self, leaves: Seq<TileCoord>)
        requires
            self.wf(),
            leaves.no_duplicates(),
            forall|t: TileCoord| #[trigger]
                leaves.contains(t) <==> is_leaf(self.counts(), self.level(), t),
        ensures
            sum_totals(self.counts(), self.level(), leaves) == self.points(),
    {
        lemma_leaves_hold_all(self.counts@, self.level, leaves);
    }
}

proof fn lemma_total_of_nothing(depth: u8, t: TileCoord)
    ensures
        total(Map::<TileCoord, u64>::empty(), depth, t) == 0,
    decreases depth - t.0,
{
    if t.0 < depth && has_children(t) {
        lemma_total_of_nothing(depth, child(t, 0, 0));
        lemma_total_of_nothing(depth, child(t, 0, 1));
        lemma_total_of_nothing(depth, child(t, 1, 0));
        lemma_total_of_nothing(depth, child(t, 1, 1));
    }
}

proof fn lemma_total_at_least(counts: Map<TileCoord, u64>, depth: u8, t: TileCoord)
    ensures
        count_in(counts, t) <= total(counts, depth, t),
{
}

} // verus!
