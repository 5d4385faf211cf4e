//! The adaptive tile tree: which tiles become leaves, and which leaf a tile
//! belongs to.

use vstd::prelude::*;
use vstd::arithmetic::power2::pow2;
use crate::tiles::{
    ancestor, count_in, none_above, parent, parent_tile, TileCoord, TileMap, TileSet,
};

verus! {

/// The number of points above which a tile is split, where it can be.
pub const MAX_POINTS_PER_TILE: u64 = 100_000;

/// One of the four quarters of a tile.
pub open spec fn child(t: TileCoord, dx: int, dy: int) -> TileCoord {
    ((t.0 + 1) as u8, (2 * t.1 + dx) as u32, (2 * t.2 + dy) as u32)
}

/// Whether the quarters of a tile have columns and rows of 32 bits.
pub open spec fn has_children(t: TileCoord) -> bool {
    t.1 < 0x8000_0000 && t.2 < 0x8000_0000
}

/// The number of points in a tile and in all the smaller tiles within it,
/// down to level `depth`.
pub open spec fn total(counts: Map<TileCoord, u64>, depth: u8, t: TileCoord) -> nat
    decreases depth - t.0,
{
    if t.0 < depth && has_children(t) {
        count_in(counts, t) + total(counts, depth, child(t, 0, 0)) + total(
            counts,
            depth,
            child(t, 0, 1),
        ) + total(counts, depth, child(t, 1, 0)) + total(counts, depth, child(t, 1, 1))
    } else {
        count_in(counts, t)
    }
}

/// Whether a tile is a leaf of the tree over `counts` that is at most `depth`
/// levels deep: it lies in the root tile and holds points, all the larger tiles
/// that it is part of hold too many, and it holds few enough itself or cannot
/// be split further.
pub open spec fn is_leaf(counts: Map<TileCoord, u64>, depth: u8, t: TileCoord) -> bool {
    &&& t.0 <= depth
    &&& ancestor(t, 0) == (0u8, 0u32, 0u32)
    &&& 0 < total(counts, depth, t)
    &&& total(counts, depth, t) <= MAX_POINTS_PER_TILE || t.0 == depth
    &&& forall|level: nat|
        level < t.0 ==> total(counts, depth, #[trigger] ancestor(t, level))
            > MAX_POINTS_PER_TILE
}

/// What a tile is known to hold once the first tiles of the level below it
/// have been added to it.
spec fn partly(counts: Map<TileCoord, u64>, depth: u8, done: Seq<TileCoord>, t: TileCoord) -> nat {
    if has_children(t) {
        count_in(counts, t) + part(counts, depth, done, child(t, 0, 0)) + part(
            counts,
            depth,
            done,
            child(t, 0, 1),
        ) + part(counts, depth, done, child(t, 1, 0)) + part(counts, depth, done, child(t, 1, 1))
    } else {
        count_in(counts, t)
    }
}

spec fn part(counts: Map<TileCoord, u64>, depth: u8, done: Seq<TileCoord>, c: TileCoord) -> nat {
    if done.contains(c) {
        total(counts, depth, c)
    } else {
        0
    }
}

proof fn lemma_partly_step(
    counts: Map<TileCoord, u64>,
    depth: u8,
    done: Seq<TileCoord>,
    c: TileCoord,
    t: TileCoord,
)
    requires
        0 < c.0 <= depth,
        t.0 == c.0 - 1,
        !done.contains(c),
    ensures
        partly(counts, depth, done.push(c), t) == partly(counts, depth, done, t) + (if t
            == parent_tile(c) {
            total(counts, depth, c)
        } else {
            0
        }),
{
    assert forall|u: TileCoord| #[trigger] done.push(c).contains(u) <==> u == c || done.contains(u) by {
        vstd::seq_lib::lemma_seq_contains_after_push(done, c, u);
    }
    let p = parent_tile(c);
    if t == p {
        assert(has_children(t));
        assert(c == child(t, (c.1 % 2) as int, (c.2 % 2) as int));
    }
}

/// Adds to each tile of level `level - 1` what the tiles of `level` hold.
fn add_level(all: &mut TileMap, level: u8, counts: &TileMap, depth: u8)
    requires
        old(all).wf(),
        0 < level <= depth,
        forall|t: TileCoord| #[trigger] total(counts@, depth, t) <= u64::MAX,
        forall|t: TileCoord| #[trigger]
            count_in(old(all)@, t) == if t.0 >= level {
                total(counts@, depth, t)
            } else {
                count_in(counts@, t)
            },
    ensures
        final(all).wf(),
        forall|t: TileCoord| #[trigger]
            count_in(final(all)@, t) == if t.0 >= level - 1 {
                total(counts@, depth, t)
            } else {
                count_in(counts@, t)
            },
{
    let tiles = all.tiles_on(level);
    let ghost start = all@;
    let mut i: usize = 0;
    assert forall|t: TileCoord| #[trigger]
        partly(counts@, depth, tiles@.take(0), t) == count_in(counts@, t) by {}
    while i < tiles.len()
        invariant
            all.wf(),
            i <= tiles@.len(),
            0 < level <= depth,
            tiles@.no_duplicates(),
            forall|t: TileCoord| #[trigger] tiles@.contains(t) ==> t.0 == level,
            forall|t: TileCoord| #[trigger] total(counts@, depth, t) <= u64::MAX,
            forall|t: TileCoord| #[trigger]
                count_in(all@, t) == if t.0 >= level {
                    total(counts@, depth, t)
                } else if t.0 == level - 1 {
                    partly(counts@, depth, tiles@.take(i as int), t)
                } else {
                    count_in(counts@, t)
                },
        decreases tiles.len() - i,
    {
        let tile: TileCoord = tiles[i];
        let ghost done = tiles@.take(i as int);
        proof {
            assert(tiles@.contains(tile));
            assert(tiles@.take(i + 1) =~= done.push(tile));
            if done.contains(tile) {
                let j = choose|j: int| 0 <= j < i && done[j] == tile;
                assert(tiles@[j] == tiles@[i as int]);
            }
            assert forall|t: TileCoord| t.0 == level - 1 implies #[trigger]
                partly(counts@, depth, tiles@.take(i + 1), t) == partly(counts@, depth, done, t) + (
            if t == parent_tile(tile) {
                total(counts@, depth, tile)
            } else {
                0
            }) by {
                lemma_partly_step(counts@, depth, done, tile, t);
            }
            let p = parent_tile(tile);
            assert(partly(counts@, depth, tiles@.take(i + 1), p) <= total(counts@, depth, p)) by {
                lemma_partly_bounded(counts@, depth, tiles@.take(i + 1), p);
            }
        }
        let n: u64 = all.get(tile);
        let ghost before = all@;
        all.count(parent(tile), n);
        proof {
            let p = parent_tile(tile);
            let now = tiles@.take(i + 1);
            assert forall|t: TileCoord| #[trigger]
                count_in(all@, t) == if t.0 >= level {
                    total(counts@, depth, t)
                } else if t.0 == level - 1 {
                    partly(counts@, depth, now, t)
                } else {
                    count_in(counts@, t)
                } by {
                assert(count_in(all@, t) == count_in(before, t) + if t == p {
                    n as nat
                } else {
                    0
                });
            }
        }
        i += 1;
    }
    assert forall|t: TileCoord| #[trigger]
        count_in(all@, t) == if t.0 >= level - 1 {
            total(counts@, depth, t)
        } else {
            count_in(counts@, t)
        } by {
        assert(tiles@.take(tiles@.len() as int) =~= tiles@);
        if t.0 == level - 1 {
            assert forall|c: TileCoord| c.0 == level implies #[trigger]
                part(counts@, depth, tiles@, c) == total(counts@, depth, c) by {
                if !tiles@.contains(c) {
                    assert(count_in(start, c) == total(counts@, depth, c));
                }
            }
        }
    }
}

proof fn lemma_partly_bounded(
    counts: Map<TileCoord, u64>,
    depth: u8,
    done: Seq<TileCoord>,
    t: TileCoord,
)
    requires
        t.0 < depth,
    ensures
        partly(counts, depth, done, t) <= total(counts, depth, t),
{
}

/// Whether a tile is one of the leaves that a walk down from `r` finds, where
/// `totals` says how much each tile holds.
spec fn found_below(totals: spec_fn(TileCoord) -> nat, depth: u8, r: TileCoord, t: TileCoord) -> bool
    decreases depth - r.0,
{
    if totals(r) == 0 {
        false
    } else if totals(r) <= MAX_POINTS_PER_TILE || r.0 >= depth {
        t == r
    } else {
        ||| found_below(totals, depth, child(r, 0, 0), t)
        ||| found_below(totals, depth, child(r, 0, 1), t)
        ||| found_below(totals, depth, child(r, 1, 0), t)
        ||| found_below(totals, depth, child(r, 1, 1), t)
    }
}

/// Whether a tile's column and row are those of a tile within the root.
spec fn within_root(t: TileCoord) -> bool {
    t.1 < pow2(t.0 as nat) && t.2 < pow2(t.0 as nat)
}

proof fn lemma_within_root(t: TileCoord)
    requires
        within_root(t),
        t.0 < 32,
    ensures
        has_children(t),
{
    vstd::arithmetic::power2::lemma2_to64();
    if t.0 < 31 {
        vstd::arithmetic::power2::lemma_pow2_strictly_increases(t.0 as nat, 31);
    }
}

proof fn lemma_child_within_root(t: TileCoord, dx: int, dy: int)
    requires
        within_root(t),
        has_children(t),
        t.0 < 255,
        0 <= dx <= 1,
        0 <= dy <= 1,
    ensures
        within_root(child(t, dx, dy)),
        parent_tile(child(t, dx, dy)) == t,
{
    vstd::arithmetic::power2::lemma_pow2_unfold((t.0 + 1) as nat);
}

/// Adds to `leaves` the leaves that lie within `tile`.
fn visit(tile: TileCoord, depth: u8, totals: &TileMap, leaves: &mut TileSet)
    requires
        old(leaves).wf(),
        tile.0 <= depth,
        within_root(tile),
        forall|t: TileCoord|
            32 <= t.0 < depth && #[trigger] count_in(totals@, t) > MAX_POINTS_PER_TILE
                ==> has_children(t),
    ensures
        final(leaves).wf(),
        forall|t: TileCoord| #[trigger]
            final(leaves)@.contains(t) <==> old(leaves)@.contains(t) || found_below(
                |u: TileCoord| count_in(totals@, u),
                depth,
                tile,
                t,
            ),
    decreases depth - tile.0,
{
    let n: u64 = totals.get(tile);
    if n == 0 {
        return ;
    }
    if n <= MAX_POINTS_PER_TILE || tile.0 == depth {
        leaves.insert(tile);
        return ;
    }
    proof {
        if tile.0 < 32 {
            lemma_within_root(tile);
        }
        lemma_child_within_root(tile, 0, 0);
        lemma_child_within_root(tile, 0, 1);
        lemma_child_within_root(tile, 1, 0);
        lemma_child_within_root(tile, 1, 1);
    }
    let (z, x, y) = tile;
    visit((z + 1, x * 2, y * 2), depth, totals, leaves);
    visit((z + 1, x * 2, y * 2 + 1), depth, totals, leaves);
    visit((z + 1, x * 2 + 1, y * 2), depth, totals, leaves);
    visit((z + 1, x * 2 + 1, y * 2 + 1), depth, totals, leaves);
}

/// Whether a tile is a leaf below `r` by what `totals` says of the tiles between.
spec fn leaf_below(totals: spec_fn(TileCoord) -> nat, depth: u8, r: TileCoord, t: TileCoord) -> bool {
    &&& r.0 <= t.0 <= depth
    &&& ancestor(t, r.0 as nat) == r
    &&& 0 < totals(t)
    &&& totals(t) <= MAX_POINTS_PER_TILE || t.0 == depth
    &&& forall|level: nat|
        r.0 <= level < t.0 ==> totals(#[trigger] ancestor(t, level)) > MAX_POINTS_PER_TILE
}

/// The tile one level up from an ancestor is the next ancestor.
pub proof fn lemma_ancestor_parent(t: TileCoord, level: nat)
    requires
        level < t.0,
    ensures
        parent_tile(ancestor(t, level + 1)) == ancestor(t, level),
        ancestor(t, level + 1).0 == level + 1,
        ancestor(t, level).0 == level,
    decreases t.0,
{
    let p = parent_tile(t);
    if level + 1 < t.0 {
        lemma_ancestor_parent(p, level);
    } else {
        assert(ancestor(p, level) == p);
    }
}

proof fn lemma_found_below(totals: spec_fn(TileCoord) -> nat, depth: u8, r: TileCoord, t: TileCoord)
    requires
        r.0 <= depth,
        within_root(r),
        forall|u: TileCoord|
            32 <= u.0 < depth && #[trigger] totals(u) > MAX_POINTS_PER_TILE ==> has_children(u),
    ensures
        found_below(totals, depth, r, t) <==> leaf_below(totals, depth, r, t),
    decreases depth - r.0,
{
    if totals(r) == 0 || totals(r) <= MAX_POINTS_PER_TILE || r.0 >= depth {
        assert(ancestor(r, r.0 as nat) == r);
    } else {
        if r.0 < 32 {
            lemma_within_root(r);
        }
        assert forall|dx: int, dy: int| 0 <= dx <= 1 && 0 <= dy <= 1 implies #[trigger]
            found_below(totals, depth, child(r, dx, dy), t) == leaf_below(totals, depth, child(r, dx, dy), t) by {
            lemma_child_within_root(r, dx, dy);
            lemma_found_below(totals, depth, child(r, dx, dy), t);
        }
        assert forall|dx: int, dy: int| 0 <= dx <= 1 && 0 <= dy <= 1 && #[trigger]
            leaf_below(totals, depth, child(r, dx, dy), t) implies leaf_below(totals, depth, r, t) by {
            lemma_child_within_root(r, dx, dy);
            lemma_ancestor_parent(t, r.0 as nat);
        }
        if leaf_below(totals, depth, r, t) {
            if t.0 == r.0 {
                assert(t == r);
            }
            lemma_ancestor_parent(t, r.0 as nat);
            let c = ancestor(t, (r.0 + 1) as nat);
            assert(c == child(r, (c.1 % 2) as int, (c.2 % 2) as int));
            assert(leaf_below(totals, depth, c, t));
        }
        assert(found_below(totals, depth, child(r, 0, 0), t) == leaf_below(totals, depth, child(r, 0, 0), t));
        assert(found_below(totals, depth, child(r, 0, 1), t) == leaf_below(totals, depth, child(r, 0, 1), t));
        assert(found_below(totals, depth, child(r, 1, 0), t) == leaf_below(totals, depth, child(r, 1, 0), t));
        assert(found_below(totals, depth, child(r, 1, 1), t) == leaf_below(totals, depth, child(r, 1, 1), t));
    }
}

/// The leaves of the tile tree over the counted points.
pub fn adaptive_leaves(counts: &TileMap, depth: u8) -> (res: TileSet)
    requires
        counts.wf(),
        forall|t: TileCoord| #[trigger] total(counts@, depth, t) <= u64::MAX,
        forall|t: TileCoord|
            32 <= t.0 < depth && #[trigger] total(counts@, depth, t) > MAX_POINTS_PER_TILE
                ==> has_children(t),
    ensures
        res.wf(),
        forall|t: TileCoord| #[trigger] res@.contains(t) <==> is_leaf(counts@, depth, t),
{
    let mut all = counts.duplicate();
    let mut level: u8 = depth;
    while level > 0
        invariant
            all.wf(),
            level <= depth,
            forall|t: TileCoord| #[trigger] total(counts@, depth, t) <= u64::MAX,
            forall|t: TileCoord| #[trigger]
                count_in(all@, t) == if t.0 >= level {
                    total(counts@, depth, t)
                } else {
                    count_in(counts@, t)
                },
        decreases level,
    {
        add_level(&mut all, level, counts, depth);
        level -= 1;
    }
    let mut leaves = TileSet::new();
    let ghost totals = |u: TileCoord| count_in(all@, u);
    proof {
        vstd::arithmetic::power2::lemma2_to64();
        assert(forall|t: TileCoord| #[trigger] totals(t) == total(counts@, depth, t));
    }
    visit((0, 0, 0), depth, &all, &mut leaves);
    proof {
        assert forall|t: TileCoord| #[trigger]
            leaves@.contains(t) <==> is_leaf(counts@, depth, t) by {
            lemma_found_below(totals, depth, (0, 0, 0), t);
        }
    }
    leaves
}

/// What a tile holds is part of what each larger tile around it holds.
pub proof fn lemma_total_grows(counts: Map<TileCoord, u64>, depth: u8, t: TileCoord, level: nat)
    requires
        level <= t.0 <= depth,
    ensures
        total(counts, depth, t) <= total(counts, depth, ancestor(t, level)),
    decreases t.0,
{
    if level < t.0 {
        let p = parent_tile(t);
        assert(t == child(p, (t.1 % 2) as int, (t.2 % 2) as int));
        assert(has_children(p));
        lemma_total_grows(counts, depth, p, level);
    }
}

/// No leaf lies within another leaf.
pub proof fn lemma_leaves_apart(counts: Map<TileCoord, u64>, depth: u8, t: TileCoord, u: TileCoord)
    requires
        is_leaf(counts, depth, t),
        is_leaf(counts, depth, u),
        u.0 <= t.0,
        ancestor(t, u.0 as nat) == u,
    ensures
        t == u,
{
}

/// Every tile of the deepest level that holds points and lies in the root lies
/// in a leaf.
pub proof fn lemma_leaf_found(counts: Map<TileCoord, u64>, depth: u8, t: TileCoord) -> (level: nat)
    requires
        t.0 == depth,
        ancestor(t, 0) == (0u8, 0u32, 0u32),
        0 < count_in(counts, t),
    ensures
        level <= depth,
        is_leaf(counts, depth, ancestor(t, level)),
{
    lemma_leaf_found_from(counts, depth, t, 0)
}

proof fn lemma_leaf_found_from(
    counts: Map<TileCoord, u64>,
    depth: u8,
    t: TileCoord,
    from: nat,
) -> (level: nat)
    requires
        t.0 == depth,
        from <= depth,
        ancestor(t, 0) == (0u8, 0u32, 0u32),
        0 < count_in(counts, t),
        forall|l: nat|
            l < from ==> total(counts, depth, #[trigger] ancestor(t, l))
                > MAX_POINTS_PER_TILE,
    ensures
        level <= depth,
        is_leaf(counts, depth, ancestor(t, level)),
    decreases depth - from,
{
    let a = ancestor(t, from);
    lemma_total_grows(counts, depth, t, from);
    lemma_ancestor_level(t, from);
    if from == depth || total(counts, depth, a) <= MAX_POINTS_PER_TILE {
        assert forall|l: nat| l < a.0 implies total(counts, depth, #[trigger] ancestor(a, l))
            > MAX_POINTS_PER_TILE by {
            lemma_ancestor_twice(t, from, l);
        }
        lemma_ancestor_twice(t, from, 0);
        from
    } else {
        lemma_leaf_found_from(counts, depth, t, from + 1)
    }
}

/// An ancestor lies on the level asked for.
pub proof fn lemma_ancestor_level(t: TileCoord, level: nat)
    requires
        level <= t.0,
    ensures
        ancestor(t, level).0 == level,
    decreases t.0,
{
    if level < t.0 {
        lemma_ancestor_level(parent_tile(t), level);
    }
}

/// An ancestor of an ancestor is an ancestor.
pub proof fn lemma_ancestor_twice(t: TileCoord, middle: nat, level: nat)
    requires
        level <= middle <= t.0,
    ensures
        ancestor(ancestor(t, middle), level) == ancestor(t, level),
    decreases t.0,
{
    if middle < t.0 {
        lemma_ancestor_twice(parent_tile(t), middle, level);
    }
}

/// Every tile of the deepest level that holds points and lies in the root lies
/// in one leaf only.
pub proof fn lemma_leaf_unique(
    counts: Map<TileCoord, u64>,
    depth: u8,
    t: TileCoord,
    one: nat,
    other: nat,
)
    requires
        one <= t.0,
        other <= t.0,
        is_leaf(counts, depth, ancestor(t, one)),
        is_leaf(counts, depth, ancestor(t, other)),
    ensures
        one == other,
{
    lemma_ancestor_level(t, one);
    lemma_ancestor_level(t, other);
    if one <= other {
        lemma_ancestor_twice(t, other, one);
        lemma_leaves_apart(
            counts,
            depth,
            ancestor(t, other),
            ancestor(t, one),
        );
    } else {
        lemma_ancestor_twice(t, one, other);
        lemma_leaves_apart(
            counts,
            depth,
            ancestor(t, one),
            ancestor(t, other),
        );
    }
}

/// Where no counted tile holds too many points, no leaf does.
pub proof fn lemma_leaves_small(counts: Map<TileCoord, u64>, depth: u8, t: TileCoord)
    requires
        is_leaf(counts, depth, t),
        none_above(counts, MAX_POINTS_PER_TILE),
    ensures
        total(counts, depth, t) <= MAX_POINTS_PER_TILE,
{
}

/// Points counted in a tile are counted in each tile that it is part of, and
/// in no other.
pub proof fn lemma_total_counted(
    counts: Map<TileCoord, u64>,
    depth: u8,
    at: TileCoord,
    n: u64,
    t: TileCoord,
)
    requires
        count_in(counts, at) + n <= u64::MAX,
    ensures
        total(
            counts.insert(at, (count_in(counts, at) + n) as u64),
            depth,
            t,
        ) == total(counts, depth, t) + (if t == at || (t.0 <= at.0 <= depth && ancestor(
            at,
            t.0 as nat,
        ) == t) {
            n as nat
        } else {
            0
        }),
    decreases depth - t.0,
{
    let more = counts.insert(at, (count_in(counts, at) + n) as u64);
    if t.0 < depth && has_children(t) {
        lemma_total_counted(counts, depth, at, n, child(t, 0, 0));
        lemma_total_counted(counts, depth, at, n, child(t, 0, 1));
        lemma_total_counted(counts, depth, at, n, child(t, 1, 0));
        lemma_total_counted(counts, depth, at, n, child(t, 1, 1));
        if t.0 < at.0 {
            lemma_ancestor_parent(at, t.0 as nat);
            let c = ancestor(at, (t.0 + 1) as nat);
            assert(parent_tile(c) == t ==> c == child(
                t,
                (c.1 % 2) as int,
                (c.2 % 2) as int,
            ));
        }
    } else if t.0 < at.0 && t.0 < depth {
        lemma_ancestor_parent(at, t.0 as nat);
    }
}

/// Whether a leaf lies on a level at or above that of a tile, around the tile.
pub open spec fn covered(leaves: Set<TileCoord>, t: TileCoord) -> bool {
    exists|level: nat| level <= t.0 && leaves.contains(#[trigger] ancestor(t, level))
}

/// Whether a leaf is the smallest of the `leaves` that a tile lies in.
pub open spec fn smallest_leaf(leaves: Set<TileCoord>, t: TileCoord, leaf: TileCoord) -> bool {
    &&& leaf.0 <= t.0
    &&& leaf == ancestor(t, leaf.0 as nat)
    &&& leaves.contains(leaf)
    &&& forall|level: nat|
        leaf.0 < level <= t.0 ==> !leaves.contains(#[trigger] ancestor(t, level))
}

/// Finds the smallest of the `leaves` that a tile lies in, if it lies in one.
pub fn find_leaf(tile: TileCoord, leaves: &TileSet) -> (res: Option<TileCoord>)
    ensures
        match res {
            Some(leaf) => smallest_leaf(leaves@, tile, leaf),
            None => !covered(leaves@, tile),
        },
{
    let mut t: TileCoord = tile;
    while !leaves.contains(t)
        invariant
            t.0 <= tile.0,
            t == ancestor(tile, t.0 as nat),
            forall|level: nat|
                t.0 < level <= tile.0 ==> !leaves@.contains(#[trigger] ancestor(tile, level)),
        decreases t.0,
    {
        if t.0 == 0 {
            return None;
        }
        proof {
            lemma_ancestor_parent(tile, (t.0 - 1) as nat);
        }
        t = parent(t);
    }
    Some(t)
}

/// The smallest of the `leaves` that a tile lies in.
pub fn leaf_for(tile: TileCoord, leaves: &TileSet) -> (res: TileCoord)
    requires
        covered(leaves@, tile),
    ensures
        smallest_leaf(leaves@, tile, res),
{
    find_leaf(tile, leaves).unwrap()
}

/// A tile lies in no leaf of the tree but the one that is found for it.
pub proof fn lemma_leaf_for(
    counts: Map<TileCoord, u64>,
    depth: u8,
    leaves: Set<TileCoord>,
    t: TileCoord,
    leaf: TileCoord,
    other: TileCoord,
)
    requires
        forall|u: TileCoord| #[trigger] leaves.contains(u) <==> is_leaf(counts, depth, u),
        smallest_leaf(leaves, t, leaf),
        is_leaf(counts, depth, other),
        other.0 <= t.0,
        other == ancestor(t, other.0 as nat),
    ensures
        leaf == other,
{
    assert(leaves.contains(leaf));
    lemma_leaf_unique(counts, depth, t, leaf.0 as nat, other.0 as nat);
}

/// The number of points in some tiles together.
pub open spec fn sum_totals(counts: Map<TileCoord, u64>, depth: u8, tiles: Seq<TileCoord>) -> nat
    decreases tiles.len(),
{
    if tiles.len() == 0 {
        0
    } else {
        sum_totals(counts, depth, tiles.drop_last()) + total(counts, depth, tiles.last())
    }
}

/// The sum does not depend on the place of a tile.
proof fn lemma_sum_without(counts: Map<TileCoord, u64>, depth: u8, tiles: Seq<TileCoord>, i: int)
    requires
        0 <= i < tiles.len(),
    ensures
        sum_totals(counts, depth, tiles) == sum_totals(counts, depth, tiles.remove(i)) + total(
            counts,
            depth,
            tiles[i],
        ),
    decreases tiles.len(),
{
    let n = tiles.len() - 1;
    if i == n {
        assert(tiles.remove(i) =~= tiles.drop_last());
    } else {
        lemma_sum_without(counts, depth, tiles.drop_last(), i);
        assert(tiles.remove(i).drop_last() =~= tiles.drop_last().remove(i));
    }
}

/// The sum depends only on which tiles there are.
proof fn lemma_sum_same(
    counts: Map<TileCoord, u64>,
    depth: u8,
    a: Seq<TileCoord>,
    b: Seq<TileCoord>,
)
    requires
        a.no_duplicates(),
        b.no_duplicates(),
        forall|t: TileCoord| #[trigger] a.contains(t) <==> b.contains(t),
    ensures
        sum_totals(counts, depth, a) == sum_totals(counts, depth, b),
    decreases a.len(),
{
    if a.len() == 0 {
        if b.len() > 0 {
            assert(b.contains(b[0]));
            assert(a.contains(b[0]));
        }
    } else {
        let t = a.last();
        let less = a.drop_last();
        assert(a.contains(t));
        let i = choose|i: int| 0 <= i < b.len() && b[i] == t;
        let rest = b.remove(i);
        assert forall|u: TileCoord| #[trigger] less.contains(u) <==> rest.contains(u) by {
            if less.contains(u) {
                let j = choose|j: int| 0 <= j < less.len() && less[j] == u;
                assert(a[j] == u);
                assert(a.contains(u));
                assert(b.contains(u));
                let k = choose|k: int| 0 <= k < b.len() && b[k] == u;
                assert(k != i);
                assert(rest[if k < i {
                    k
                } else {
                    k - 1
                }] == u);
            }
            if rest.contains(u) {
                let k = choose|k: int| 0 <= k < rest.len() && rest[k] == u;
                let m = if k < i {
                    k
                } else {
                    k + 1
                };
                assert(b[m] == u);
                assert(b.contains(u));
                assert(a.contains(u));
                let j = choose|j: int| 0 <= j < a.len() && a[j] == u;
                assert(j != a.len() - 1);
                assert(less[j] == u);
            }
        }
        lemma_sum_without(counts, depth, b, i);
        lemma_sum_same(counts, depth, less, rest);
    }
}

proof fn lemma_sum_joined(counts: Map<TileCoord, u64>, depth: u8, a: Seq<TileCoord>, b: Seq<TileCoord>)
    ensures
        sum_totals(counts, depth, a + b) == sum_totals(counts, depth, a) + sum_totals(counts, depth, b),
    decreases b.len(),
{
    if b.len() == 0 {
        assert(a + b =~= a);
    } else {
        lemma_sum_joined(counts, depth, a, b.drop_last());
        assert((a + b).drop_last() =~= a + b.drop_last());
    }
}

/// The leaves below `r`, in the order of a walk.
spec fn leaf_list(counts: Map<TileCoord, u64>, depth: u8, r: TileCoord) -> Seq<TileCoord>
    decreases depth - r.0,
{
    if total(counts, depth, r) == 0 {
        Seq::empty()
    } else if total(counts, depth, r) <= MAX_POINTS_PER_TILE || r.0 >= depth {
        seq![r]
    } else {
        leaf_list(counts, depth, child(r, 0, 0)) + leaf_list(counts, depth, child(r, 0, 1))
            + leaf_list(counts, depth, child(r, 1, 0)) + leaf_list(counts, depth, child(r, 1, 1))
    }
}

/// Lists without a tile in common make a list without a tile twice.
proof fn lemma_joined_distinct(a: Seq<TileCoord>, b: Seq<TileCoord>)
    requires
        a.no_duplicates(),
        b.no_duplicates(),
        forall|t: TileCoord| #[trigger] a.contains(t) ==> !b.contains(t),
    ensures
        (a + b).no_duplicates(),
{
    let s = a + b;
    assert forall|i: int, j: int| 0 <= i < s.len() && 0 <= j < s.len() && i != j implies s[i] != s[j] by {
        if i < a.len() && j >= a.len() {
            assert(a.contains(a[i]));
            assert(b.contains(b[j - a.len()]));
        } else if j < a.len() && i >= a.len() {
            assert(a.contains(a[j]));
            assert(b.contains(b[i - a.len()]));
        }
    }
}

proof fn lemma_joined_contains(a: Seq<TileCoord>, b: Seq<TileCoord>, t: TileCoord)
    ensures
        (a + b).contains(t) <==> a.contains(t) || b.contains(t),
{
    if a.contains(t) {
        let i = choose|i: int| 0 <= i < a.len() && a[i] == t;
        assert((a + b)[i] == t);
    }
    if b.contains(t) {
        let i = choose|i: int| 0 <= i < b.len() && b[i] == t;
        assert((a + b)[a.len() + i] == t);
    }
}

/// The list holds the leaves below `r`, each once, and together they hold what
/// `r` holds.
proof fn lemma_leaf_list(counts: Map<TileCoord, u64>, depth: u8, r: TileCoord)
    requires
        r.0 <= depth,
        within_root(r),
        forall|t: TileCoord| #[trigger] counts.contains_key(t) ==> t.0 == depth,
    ensures
        leaf_list(counts, depth, r).no_duplicates(),
        forall|t: TileCoord| #[trigger]
            leaf_list(counts, depth, r).contains(t) <==> leaf_below(
                |u: TileCoord| total(counts, depth, u),
                depth,
                r,
                t,
            ),
        sum_totals(counts, depth, leaf_list(counts, depth, r)) == total(counts, depth, r),
    decreases depth - r.0,
{
    let totals = |u: TileCoord| total(counts, depth, u);
    let list = leaf_list(counts, depth, r);
    assert forall|u: TileCoord| 32 <= u.0 < depth && #[trigger] totals(u) > MAX_POINTS_PER_TILE implies has_children(
        u,
    ) by {
        assert(count_in(counts, u) == 0);
    }
    if totals(r) == 0 {
        assert forall|t: TileCoord| #[trigger] list.contains(t) <==> leaf_below(totals, depth, r, t) by {
            lemma_found_below(totals, depth, r, t);
        }
    } else if totals(r) <= MAX_POINTS_PER_TILE || r.0 >= depth {
        assert(list.drop_last() =~= Seq::<TileCoord>::empty());
        assert(sum_totals(counts, depth, Seq::<TileCoord>::empty()) == 0);
        assert forall|t: TileCoord| #[trigger] list.contains(t) <==> leaf_below(totals, depth, r, t) by {
            lemma_found_below(totals, depth, r, t);
            assert(list[0] == r);
        }
    } else {
        assert(count_in(counts, r) == 0);
        assert(has_children(r));
        lemma_child_within_root(r, 0, 0);
        lemma_child_within_root(r, 0, 1);
        lemma_child_within_root(r, 1, 0);
        lemma_child_within_root(r, 1, 1);
        let (ca, cb, cc, cd) = (child(r, 0, 0), child(r, 0, 1), child(r, 1, 0), child(r, 1, 1));
        lemma_leaf_list(counts, depth, ca);
        lemma_leaf_list(counts, depth, cb);
        lemma_leaf_list(counts, depth, cc);
        lemma_leaf_list(counts, depth, cd);
        let a = leaf_list(counts, depth, ca);
        let b = leaf_list(counts, depth, cb);
        let c = leaf_list(counts, depth, cc);
        let d = leaf_list(counts, depth, cd);
        assert forall|t: TileCoord| #[trigger] a.contains(t) implies !b.contains(t) by {}
        lemma_joined_distinct(a, b);
        assert forall|t: TileCoord| #[trigger] (a + b).contains(t) implies !c.contains(t) by {
            lemma_joined_contains(a, b, t);
        }
        lemma_joined_distinct(a + b, c);
        assert forall|t: TileCoord| #[trigger] (a + b + c).contains(t) implies !d.contains(t) by {
            lemma_joined_contains(a, b, t);
            lemma_joined_contains(a + b, c, t);
        }
        lemma_joined_distinct(a + b + c, d);
        lemma_sum_joined(counts, depth, a, b);
        lemma_sum_joined(counts, depth, a + b, c);
        lemma_sum_joined(counts, depth, a + b + c, d);
        assert forall|t: TileCoord| #[trigger] list.contains(t) <==> leaf_below(totals, depth, r, t) by {
            lemma_joined_contains(a, b, t);
            lemma_joined_contains(a + b, c, t);
            lemma_joined_contains(a + b + c, d, t);
            lemma_found_below(totals, depth, r, t);
            lemma_found_below(totals, depth, ca, t);
            lemma_found_below(totals, depth, cb, t);
            lemma_found_below(totals, depth, cc, t);
            lemma_found_below(totals, depth, cd, t);
        }
    }
}

/// The leaves together hold all the points in the root, where the points were
/// counted on the deepest level.
pub proof fn lemma_leaves_hold_all(
    counts: Map<TileCoord, u64>,
    depth: u8,
    leaves: Seq<TileCoord>,
)
    requires
        forall|t: TileCoord| #[trigger] counts.contains_key(t) ==> t.0 == depth,
        leaves.no_duplicates(),
        forall|t: TileCoord| #[trigger] leaves.contains(t) <==> is_leaf(counts, depth, t),
    ensures
        sum_totals(counts, depth, leaves) == total(counts, depth, (0, 0, 0)),
{
    let root = (0u8, 0u32, 0u32);
    vstd::arithmetic::power2::lemma2_to64();
    lemma_leaf_list(counts, depth, root);
    let list = leaf_list(counts, depth, root);
    let totals = |u: TileCoord| total(counts, depth, u);
    assert forall|t: TileCoord| #[trigger] leaves.contains(t) <==> list.contains(t) by {
        assert(leaf_below(totals, depth, root, t) <==> is_leaf(counts, depth, t));
    }
    lemma_sum_same(counts, depth, leaves, list);
}

/// A leaf holds points, at most 100 000 of them unless it lies on the deepest
/// level, and the tile that it is a quarter of holds more.
pub proof fn lemma_leaf_size(counts: Map<TileCoord, u64>, depth: u8, t: TileCoord)
    requires
        is_leaf(counts, depth, t),
    ensures
        0 < total(counts, depth, t),
        t.0 < depth ==> total(counts, depth, t) <= 100_000,
        t.0 <= depth,
        t.0 > 0 ==> total(counts, depth, parent_tile(t)) > 100_000,
        forall|level: nat|
            level < t.0 ==> total(counts, depth, #[trigger] ancestor(t, level)) > 100_000,
{
    if t.0 > 0 {
        let level = (t.0 - 1) as nat;
        assert(ancestor(parent_tile(t), level) == parent_tile(t));
        assert(ancestor(t, level) == parent_tile(t));
    }
}

/// A tile in the root that holds points, at most 100 000 of them or on the deepest
/// level, lies in a leaf. It is a leaf itself where the tile that it is a quarter
/// of holds more than 100 000, and where it is the root.
pub proof fn lemma_small_tile_is_leaf(counts: Map<TileCoord, u64>, depth: u8, t: TileCoord)
    requires
        t.0 <= depth,
        ancestor(t, 0) == (0u8, 0u32, 0u32),
        0 < total(counts, depth, t),
        total(counts, depth, t) <= 100_000 || t.0 == depth,
        t.0 == 0 || total(counts, depth, parent_tile(t)) > 100_000,
    ensures
        is_leaf(counts, depth, t),
{
    assert forall|level: nat| level < t.0 implies total(counts, depth, #[trigger] ancestor(t, level))
        > MAX_POINTS_PER_TILE by {
        assert(ancestor(t, level) == ancestor(parent_tile(t), level));
        lemma_total_grows(counts, depth, parent_tile(t), level);
    }
}

/// A tile that counts no point holds none, and one that holds no smaller tile
/// holds what it counts.
pub proof fn lemma_total_on_deepest(counts: Map<TileCoord, u64>, depth: u8, t: TileCoord)
    requires
        t.0 >= depth,
    ensures
        counts.contains_key(t) ==> total(counts, depth, t) == counts[t],
        !counts.contains_key(t) ==> total(counts, depth, t) == 0,
{
}

/// Where nothing is counted no tile holds a point.
pub proof fn lemma_total_of_none(depth: u8, t: TileCoord)
    ensures
        total(Map::<TileCoord, u64>::empty(), depth, t) == 0,
    decreases depth - t.0,
{
    if t.0 < depth && has_children(t) {
        lemma_total_of_none(depth, child(t, 0, 0));
        lemma_total_of_none(depth, child(t, 0, 1));
        lemma_total_of_none(depth, child(t, 1, 0));
        lemma_total_of_none(depth, child(t, 1, 1));
    }
}

/// Every other leaf that a tile lies in lies around the smallest.
pub proof fn lemma_smallest_leaf(
    leaves: Set<TileCoord>,
    t: TileCoord,
    leaf: TileCoord,
    other: TileCoord,
)
    requires
        smallest_leaf(leaves, t, leaf),
        leaves.contains(other),
        other.0 <= t.0,
        ancestor(t, other.0 as nat) == other,
    ensures
        leaves.contains(leaf),
        other.0 <= leaf.0 <= t.0,
        ancestor(leaf, other.0 as nat) == other,
{
    if other.0 <= leaf.0 {
        lemma_ancestor_twice(t, leaf.0 as nat, other.0 as nat);
    }
}

/// The quarters of a tile have it as the tile that they are a quarter of, and a
/// tile is one of the four quarters of that one.
pub proof fn lemma_quarters(t: TileCoord, dx: int, dy: int)
    requires
        0 <= dx <= 1,
        0 <= dy <= 1,
    ensures
        t.0 < 255 && has_children(t) ==> parent_tile(child(t, dx, dy)) == t,
        t.0 > 0 ==> child(parent_tile(t), (t.1 % 2) as int, (t.2 % 2) as int) == t,
        t.0 > 0 ==> parent_tile(t).0 + 1 == t.0 && 2 * parent_tile(t).1 <= t.1 <= 2 * parent_tile(
            t,
        ).1 + 1 && 2 * parent_tile(t).2 <= t.2 <= 2 * parent_tile(t).2 + 1,
{
}

/// A tile lies in a leaf if and only if there is a smallest leaf that it lies in.
pub proof fn lemma_covered(leaves: Set<TileCoord>, t: TileCoord)
    ensures
        covered(leaves, t) <==> exists|leaf: TileCoord| smallest_leaf(leaves, t, leaf),
{
    if covered(leaves, t) {
        let level = choose|level: nat| level <= t.0 && leaves.contains(#[trigger] ancestor(t, level));
        lemma_smallest_from(leaves, t, level);
    }
    assert forall|leaf: TileCoord| smallest_leaf(leaves, t, leaf) implies covered(leaves, t) by {
        assert(leaves.contains(ancestor(t, leaf.0 as nat)));
    }
}

proof fn lemma_smallest_from(leaves: Set<TileCoord>, t: TileCoord, level: nat)
    requires
        level <= t.0,
        leaves.contains(ancestor(t, level)),
    ensures
        exists|leaf: TileCoord| smallest_leaf(leaves, t, leaf),
    decreases t.0 - level,
{
    lemma_ancestor_level(t, level);
    if exists|deeper: nat| level < deeper <= t.0 && leaves.contains(#[trigger] ancestor(t, deeper)) {
        let deeper = choose|deeper: nat|
            level < deeper <= t.0 && leaves.contains(#[trigger] ancestor(t, deeper));
        lemma_smallest_from(leaves, t, deeper);
    } else {
        assert(smallest_leaf(leaves, t, ancestor(t, level)));
    }
}

} // verus!
