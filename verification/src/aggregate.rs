//! The points of the larger tiles, gathered from those of the leaves level by
//! level.

use vstd::prelude::*;
use vstd::arithmetic::power2::pow2;
use vstd::multiset::Multiset;
use crate::groups::{by_parent, grouped, items_of};
use crate::leaves::lemma_ancestor_parent;
use crate::tiles::{ancestor, parent_tile, TileCoord};

verus! {

/// The parts one behind the other.
pub open spec fn joined<T>(parts: Seq<Seq<T>>) -> Seq<T>
    decreases parts.len(),
{
    if parts.len() == 0 {
        Seq::empty()
    } else {
        joined(parts.drop_last()) + parts.last()
    }
}

/// The items of some lists.
pub open spec fn contents<T>(lists: Seq<Vec<T>>) -> Seq<Seq<T>> {
    lists.map_values(|list: Vec<T>| list@)
}

/// Puts lists one behind the other.
pub fn join_lists<T>(lists: Vec<Vec<T>>) -> (res: Vec<T>)
    ensures
        res@ == joined(contents(lists@)),
{
    let ghost all = lists@;
    let mut out: Vec<T> = Vec::new();
    assert(contents(all).take(0) =~= Seq::<Seq<T>>::empty());
    for list in it: lists
        invariant
            it.seq() == all,
            out@ == joined(contents(all).take(it.index())),
    {
        let mut list = list;
        let ghost k = it.index();
        proof {
            assert(contents(all).take(k + 1).drop_last() =~= contents(all).take(k));
            assert(contents(all).take(k + 1).last() == list@);
        }
        out.append(&mut list);
    }
    assert(contents(all).take(all.len() as int) =~= contents(all));
    out
}

/// Whether a tile is another or lies around it.
pub open spec fn around(t: TileCoord, u: TileCoord) -> bool {
    t.0 <= u.0 && ancestor(u, t.0 as nat) == t
}

/// The points of all the leaves that a tile is or lies around.
pub open spec fn points_under<T>(leaves: Seq<(TileCoord, Seq<T>)>, t: TileCoord) -> Multiset<T>
    decreases leaves.len(),
{
    if leaves.len() == 0 {
        Multiset::empty()
    } else if around(t, leaves.last().0) {
        points_under(leaves.drop_last(), t).add(leaves.last().1.to_multiset())
    } else {
        points_under(leaves.drop_last(), t)
    }
}

/// Whether a tile is a leaf or lies around one.
pub open spec fn holds_leaf<T>(leaves: Seq<(TileCoord, Seq<T>)>, t: TileCoord) -> bool {
    exists|i: int| 0 <= i < leaves.len() && around(t, (#[trigger] leaves[i]).0)
}

/// Whether a tile is a leaf.
pub open spec fn is_listed<T>(leaves: Seq<(TileCoord, Seq<T>)>, t: TileCoord) -> bool {
    exists|i: int| 0 <= i < leaves.len() && (#[trigger] leaves[i]).0 == t
}

/// The points kept for the leaves and for no other tile.
pub open spec fn keeps_leaves<T>(
    kept: Map<TileCoord, Seq<T>>,
    leaves: Seq<(TileCoord, Seq<T>)>,
) -> bool {
    &&& forall|t: TileCoord| #[trigger] kept.contains_key(t) <==> is_listed(leaves, t)
    &&& forall|i: int| 0 <= i < leaves.len() ==> kept[(#[trigger] leaves[i]).0] == leaves[i].1
}

/// The points kept for the tiles of a group, one tile behind the other.
pub open spec fn group_points<T>(
    kept: Map<TileCoord, Seq<T>>,
    tiles: Seq<TileCoord>,
    group: Seq<usize>,
) -> Seq<T> {
    joined(Seq::new(group.len(), |k: int| kept[tiles[group[k] as int]]))
}

/// Whether `tiles` lists the tiles of a level that points are kept for.
pub open spec fn lists_level<T>(
    kept: Map<TileCoord, Seq<T>>,
    level: u8,
    tiles: Seq<TileCoord>,
) -> bool {
    &&& tiles.len() <= usize::MAX
    &&& tiles.no_duplicates()
    &&& forall|t: TileCoord| #[trigger]
        tiles.contains(t) <==> kept.contains_key(t) && t.0 == level
}

/// Whether the tiles of a level, sorted by parent into `groups`, have been
/// gathered: the points of each group, not thinned, are then kept for its parent,
/// and those of any other tile are as they were.
pub open spec fn gathered<T>(
    before: Map<TileCoord, Seq<T>>,
    level: u8,
    tiles: Seq<TileCoord>,
    groups: Seq<(TileCoord, Vec<usize>)>,
    after: Map<TileCoord, Seq<T>>,
) -> bool {
    &&& lists_level(before, level, tiles)
    &&& grouped(by_parent(tiles), groups)
    &&& forall|t: TileCoord| #[trigger]
        after.contains_key(t) <==> before.contains_key(t) || exists|g: int|
            0 <= g < groups.len() && (#[trigger] groups[g]).0 == t
    &&& forall|g: int|
        0 <= g < groups.len() ==> after[(#[trigger] groups[g]).0] == group_points(
            before,
            tiles,
            groups[g].1@,
        )
    &&& forall|t: TileCoord| #[trigger]
        before.contains_key(t) && (forall|g: int|
            0 <= g < groups.len() ==> (#[trigger] groups[g]).0 != t) ==> after[t] == before[t]
}

/// Whether a level has been gathered, in whatever order its tiles were listed.
pub open spec fn level_gathered<T>(
    before: Map<TileCoord, Seq<T>>,
    level: u8,
    after: Map<TileCoord, Seq<T>>,
) -> bool {
    exists|tiles: Seq<TileCoord>, groups: Seq<(TileCoord, Vec<usize>)>| #[trigger]
        gathered(before, level, tiles, groups, after)
}

/// The points under some tiles together.
spec fn sum_under<T>(leaves: Seq<(TileCoord, Seq<T>)>, tiles: Seq<TileCoord>) -> Multiset<T>
    decreases tiles.len(),
{
    if tiles.len() == 0 {
        Multiset::empty()
    } else {
        sum_under(leaves, tiles.drop_last()).add(points_under(leaves, tiles.last()))
    }
}

/// What one leaf more adds to the points under some tiles of one level.
proof fn lemma_sum_under_more<T>(
    leaves: Seq<(TileCoord, Seq<T>)>,
    level: u8,
    tiles: Seq<TileCoord>,
)
    requires
        leaves.len() > 0,
        tiles.no_duplicates(),
        forall|i: int| 0 <= i < tiles.len() ==> (#[trigger] tiles[i]).0 == level,
    ensures
        sum_under(leaves, tiles) == sum_under(leaves.drop_last(), tiles).add(
            if level <= leaves.last().0.0 && tiles.contains(
                ancestor(leaves.last().0, level as nat),
            ) {
                leaves.last().1.to_multiset()
            } else {
                Multiset::empty()
            },
        ),
    decreases tiles.len(),
{
    let less = leaves.drop_last();
    let leaf = leaves.last().0;
    let up = ancestor(leaf, level as nat);
    if tiles.len() > 0 {
        let fewer = tiles.drop_last();
        let t = tiles.last();
        assert forall|i: int| 0 <= i < fewer.len() implies (#[trigger] fewer[i]).0 == level by {
            assert(fewer[i] == tiles[i]);
        }
        lemma_sum_under_more(leaves, level, fewer);
        assert(tiles =~= fewer.push(t));
        vstd::seq_lib::lemma_seq_contains_after_push(fewer, t, up);
        if fewer.contains(t) {
            let i = choose|i: int| 0 <= i < fewer.len() && fewer[i] == t;
            assert(tiles[i] == tiles[tiles.len() - 1]);
        }
        assert(tiles[tiles.len() - 1].0 == level);
    }
    assert(sum_under(leaves, tiles) =~= sum_under(less, tiles).add(
        if level <= leaf.0 && tiles.contains(up) {
            leaves.last().1.to_multiset()
        } else {
            Multiset::empty()
        },
    ));
}

/// A tile that is no leaf lies around what its quarters lie around.
proof fn lemma_quarters_under<T>(
    leaves: Seq<(TileCoord, Seq<T>)>,
    p: TileCoord,
    tiles: Seq<TileCoord>,
)
    requires
        p.0 < 255,
        tiles.no_duplicates(),
        forall|i: int|
            0 <= i < tiles.len() ==> (#[trigger] tiles[i]).0 == p.0 + 1 && parent_tile(tiles[i]) == p,
        forall|c: TileCoord|
            c.0 == p.0 + 1 && parent_tile(c) == p && #[trigger] holds_leaf(leaves, c)
                ==> tiles.contains(c),
        !is_listed(leaves, p),
    ensures
        sum_under(leaves, tiles) == points_under(leaves, p),
    decreases leaves.len(),
{
    let level = (p.0 + 1) as u8;
    if leaves.len() == 0 {
        lemma_nothing_under(leaves, tiles);
    } else {
        let less = leaves.drop_last();
        let n = leaves.len() - 1;
        let leaf = leaves.last().0;
        assert forall|c: TileCoord|
            c.0 == p.0 + 1 && parent_tile(c) == p && #[trigger] holds_leaf(less, c) implies tiles.contains(
            c,
        ) by {
            let i = choose|i: int| 0 <= i < less.len() && around(c, (#[trigger] less[i]).0);
            assert(around(c, leaves[i].0));
            assert(holds_leaf(leaves, c));
        }
        assert(!is_listed(less, p)) by {
            if is_listed(less, p) {
                let i = choose|i: int| 0 <= i < less.len() && (#[trigger] less[i]).0 == p;
                assert(leaves[i].0 == p);
            }
        }
        lemma_quarters_under(less, p, tiles);
        lemma_sum_under_more(leaves, level, tiles);
        assert(leaves[n].0 != p);
        let up = ancestor(leaf, level as nat);
        if level <= leaf.0 {
            lemma_ancestor_parent(leaf, p.0 as nat);
            if around(p, leaf) {
                assert(around(up, leaves[n].0));
                assert(holds_leaf(leaves, up));
            }
            if tiles.contains(up) {
                let i = choose|i: int| 0 <= i < tiles.len() && tiles[i] == up;
                assert(parent_tile(tiles[i]) == p);
            }
        }
        assert(points_under(leaves, p) =~= sum_under(leaves, tiles));
    }
}

proof fn lemma_nothing_under<T>(leaves: Seq<(TileCoord, Seq<T>)>, tiles: Seq<TileCoord>)
    requires
        leaves.len() == 0,
    ensures
        sum_under(leaves, tiles) == Multiset::<T>::empty(),
    decreases tiles.len(),
{
    if tiles.len() > 0 {
        lemma_nothing_under(leaves, tiles.drop_last());
    }
    assert(sum_under(leaves, tiles) =~= Multiset::<T>::empty());
}

/// The group of a parent holds the indices of its quarters, in ascending order.
proof fn lemma_group_indices(tiles: Seq<TileCoord>, n: nat, p: TileCoord)
    requires
        n <= tiles.len() <= usize::MAX,
    ensures
        ({
            let group = items_of(by_parent(tiles).take(n as int), p);
            &&& forall|k: int|
                0 <= k < group.len() ==> (#[trigger] group[k]) < n && parent_tile(
                    tiles[group[k] as int],
                ) == p
            &&& forall|a: int, b: int|
                0 <= a < b < group.len() ==> (#[trigger] group[a]) < (#[trigger] group[b])
            &&& forall|i: int|
                0 <= i < n && parent_tile(#[trigger] tiles[i]) == p ==> group.contains(i as usize)
        }),
    decreases n,
{
    let all = by_parent(tiles);
    if n > 0 {
        let m = (n - 1) as nat;
        lemma_group_indices(tiles, m, p);
        assert(all.take(n as int).drop_last() =~= all.take(m as int));
        assert(all.take(n as int).last() == (parent_tile(tiles[m as int]), m as usize));
        let less = items_of(all.take(m as int), p);
        let group = items_of(all.take(n as int), p);
        assert forall|i: int|
            0 <= i < n && parent_tile(#[trigger] tiles[i]) == p implies group.contains(i as usize) by {
            if i < m {
                assert(less.contains(i as usize));
                let k = choose|k: int| 0 <= k < less.len() && less[k] == i as usize;
                assert(group[k] == i as usize);
            } else {
                assert(group[group.len() - 1] == i as usize);
            }
        }
    }
}

/// The points of a group are those under its tiles, where that holds of each.
proof fn lemma_group_points<T>(
    leaves: Seq<(TileCoord, Seq<T>)>,
    kept: Map<TileCoord, Seq<T>>,
    tiles: Seq<TileCoord>,
    group: Seq<usize>,
)
    requires
        forall|k: int|
            0 <= k < group.len() ==> kept[tiles[(#[trigger] group[k]) as int]].to_multiset()
                == points_under(leaves, tiles[group[k] as int]),
    ensures
        group_points(kept, tiles, group).to_multiset() == sum_under(
            leaves,
            group.map_values(|i: usize| tiles[i as int]),
        ),
    decreases group.len(),
{
    let parts = Seq::new(group.len(), |k: int| kept[tiles[group[k] as int]]);
    let members = group.map_values(|i: usize| tiles[i as int]);
    broadcast use vstd::seq_lib::group_to_multiset_ensures;

    if group.len() == 0 {
        assert(joined(parts) =~= Seq::<T>::empty());
        assert(joined(parts).to_multiset() =~= Multiset::<T>::empty());
    } else {
        let fewer = group.drop_last();
        lemma_group_points(leaves, kept, tiles, fewer);
        assert(parts.drop_last() =~= Seq::new(fewer.len(), |k: int| kept[tiles[fewer[k] as int]]));
        assert(members.drop_last() =~= fewer.map_values(|i: usize| tiles[i as int]));
        vstd::seq_lib::lemma_multiset_commutative(joined(parts.drop_last()), parts.last());
        assert(kept[tiles[group[group.len() - 1] as int]].to_multiset() == points_under(
            leaves,
            members.last(),
        ));
    }
}

/// Whether no leaf is another or lies around it.
pub open spec fn leaves_apart<T>(leaves: Seq<(TileCoord, Seq<T>)>) -> bool {
    forall|i: int, j: int|
        0 <= i < leaves.len() && 0 <= j < leaves.len() && i != j ==> !around(
            (#[trigger] leaves[i]).0,
            (#[trigger] leaves[j]).0,
        )
}

/// Under a leaf there are its own points alone.
proof fn lemma_under_leaf<T>(leaves: Seq<(TileCoord, Seq<T>)>, n: nat, i: int)
    requires
        leaves_apart(leaves),
        n <= leaves.len(),
        0 <= i < leaves.len(),
    ensures
        points_under(leaves.take(n as int), leaves[i].0) == if i < n {
            leaves[i].1.to_multiset()
        } else {
            Multiset::empty()
        },
    decreases n,
{
    if n > 0 {
        let m = (n - 1) as nat;
        lemma_under_leaf(leaves, m, i);
        assert(leaves.take(n as int).drop_last() =~= leaves.take(m as int));
        assert(leaves.take(n as int).last() == leaves[m as int]);
        if i == m {
            assert(around(leaves[i].0, leaves[i].0));
        } else {
            assert(!around(leaves[i].0, leaves[m as int].0));
        }
        assert(points_under(leaves.take(n as int), leaves[i].0) =~= if i < n {
            leaves[i].1.to_multiset()
        } else {
            Multiset::empty()
        });
    }
}

/// What holds once the levels below `level` have been gathered.
spec fn gathered_to<T>(
    leaves: Seq<(TileCoord, Seq<T>)>,
    level: nat,
    kept: Map<TileCoord, Seq<T>>,
) -> bool {
    &&& forall|t: TileCoord| #[trigger]
        kept.contains_key(t) <==> if t.0 >= level {
            holds_leaf(leaves, t)
        } else {
            is_listed(leaves, t)
        }
    &&& forall|t: TileCoord| #[trigger]
        kept.contains_key(t) && t.0 >= level ==> kept[t].to_multiset() == points_under(leaves, t)
    &&& forall|i: int|
        0 <= i < leaves.len() && (#[trigger] leaves[i]).0.0 < level ==> kept[leaves[i].0]
            == leaves[i].1
}

proof fn lemma_gathered_first<T>(
    leaves: Seq<(TileCoord, Seq<T>)>,
    depth: u8,
    kept: Map<TileCoord, Seq<T>>,
)
    requires
        leaves_apart(leaves),
        forall|i: int| 0 <= i < leaves.len() ==> (#[trigger] leaves[i]).0.0 <= depth,
        keeps_leaves(kept, leaves),
    ensures
        gathered_to(leaves, depth as nat, kept),
{
    assert forall|t: TileCoord| t.0 >= depth implies #[trigger] holds_leaf(leaves, t) == is_listed(
        leaves,
        t,
    ) by {
        if holds_leaf(leaves, t) {
            let i = choose|i: int| 0 <= i < leaves.len() && around(t, (#[trigger] leaves[i]).0);
            assert(leaves[i].0 == t);
        }
        if is_listed(leaves, t) {
            let i = choose|i: int| 0 <= i < leaves.len() && (#[trigger] leaves[i]).0 == t;
            assert(around(t, leaves[i].0));
        }
    }
    assert forall|t: TileCoord| #[trigger] kept.contains_key(t) && t.0 >= depth implies kept[t].to_multiset()
        == points_under(leaves, t) by {
        let i = choose|i: int| 0 <= i < leaves.len() && (#[trigger] leaves[i]).0 == t;
        lemma_under_leaf(leaves, leaves.len(), i);
        assert(leaves.take(leaves.len() as int) =~= leaves);
    }
}

/// Gathering a level brings what holds one level up.
proof fn lemma_gathered_step<T>(
    leaves: Seq<(TileCoord, Seq<T>)>,
    level: u8,
    before: Map<TileCoord, Seq<T>>,
    tiles: Seq<TileCoord>,
    groups: Seq<(TileCoord, Vec<usize>)>,
    after: Map<TileCoord, Seq<T>>,
)
    requires
        leaves_apart(leaves),
        level > 0,
        gathered_to(leaves, level as nat, before),
        gathered(before, level, tiles, groups, after),
    ensures
        gathered_to(leaves, (level - 1) as nat, after),
{
    let up = (level - 1) as u8;
    assert(by_parent(tiles).take(tiles.len() as int) =~= by_parent(tiles));
    assert forall|g: int| 0 <= g < groups.len() implies ({
        let p = (#[trigger] groups[g]).0;
        &&& p.0 == up
        &&& holds_leaf(leaves, p)
        &&& !is_listed(leaves, p)
        &&& after[p].to_multiset() == points_under(leaves, p)
    }) by {
        lemma_group_gathered(leaves, level, before, tiles, groups, after, g);
    }
    assert forall|t: TileCoord| t.0 == up && #[trigger] holds_leaf(leaves, t) && !is_listed(leaves, t) implies exists|
        g: int,
    |
        0 <= g < groups.len() && (#[trigger] groups[g]).0 == t by {
        let i = choose|i: int| 0 <= i < leaves.len() && around(t, (#[trigger] leaves[i]).0);
        let leaf = leaves[i].0;
        assert(leaf != t);
        lemma_ancestor_parent(leaf, up as nat);
        let c = ancestor(leaf, level as nat);
        assert(around(c, leaves[i].0));
        assert(holds_leaf(leaves, c));
        assert(before.contains_key(c));
        assert(tiles.contains(c));
        let k = choose|k: int| 0 <= k < tiles.len() && tiles[k] == c;
        lemma_group_indices(tiles, tiles.len(), t);
        assert(parent_tile(tiles[k]) == t);
        assert(items_of(by_parent(tiles), t).contains(k as usize));
    }
    assert forall|t: TileCoord| #[trigger] is_listed(leaves, t) implies holds_leaf(leaves, t) by {
        let i = choose|i: int| 0 <= i < leaves.len() && (#[trigger] leaves[i]).0 == t;
        assert(around(t, leaves[i].0));
    }
    assert forall|t: TileCoord| #[trigger] after.contains_key(t) && t.0 >= up implies after[t].to_multiset()
        == points_under(leaves, t) by {
        if exists|g: int| 0 <= g < groups.len() && (#[trigger] groups[g]).0 == t {
            let g = choose|g: int| 0 <= g < groups.len() && (#[trigger] groups[g]).0 == t;
            assert(groups[g].0 == t);
        } else {
            assert(before.contains_key(t));
            if t.0 == up {
                let i = choose|i: int| 0 <= i < leaves.len() && (#[trigger] leaves[i]).0 == t;
                assert(leaves[i].0.0 < level);
                lemma_under_leaf(leaves, leaves.len(), i);
                assert(leaves.take(leaves.len() as int) =~= leaves);
            }
        }
    }
    assert forall|i: int| 0 <= i < leaves.len() && (#[trigger] leaves[i]).0.0 < up implies after[leaves[i].0]
        == leaves[i].1 by {
        let t = leaves[i].0;
        assert(is_listed(leaves, t));
        assert(before.contains_key(t));
    }
}

/// What is gathered into the parent of a group is what lies under it.
proof fn lemma_group_gathered<T>(
    leaves: Seq<(TileCoord, Seq<T>)>,
    level: u8,
    before: Map<TileCoord, Seq<T>>,
    tiles: Seq<TileCoord>,
    groups: Seq<(TileCoord, Vec<usize>)>,
    after: Map<TileCoord, Seq<T>>,
    g: int,
)
    requires
        leaves_apart(leaves),
        level > 0,
        gathered_to(leaves, level as nat, before),
        gathered(before, level, tiles, groups, after),
        0 <= g < groups.len(),
    ensures
        groups[g].0.0 == level - 1,
        holds_leaf(leaves, groups[g].0),
        !is_listed(leaves, groups[g].0),
        after[groups[g].0].to_multiset() == points_under(leaves, groups[g].0),
{
    let p = groups[g].0;
    let group = groups[g].1@;
    assert(by_parent(tiles).take(tiles.len() as int) =~= by_parent(tiles));
    lemma_group_indices(tiles, tiles.len(), p);
    assert(group == items_of(by_parent(tiles), p));
    assert forall|k: int| 0 <= k < group.len() implies ({
        let c = tiles[(#[trigger] group[k]) as int];
        &&& c.0 == level
        &&& parent_tile(c) == p
        &&& before.contains_key(c)
        &&& holds_leaf(leaves, c)
        &&& before[c].to_multiset() == points_under(leaves, c)
    }) by {
        assert(tiles.contains(tiles[group[k] as int]));
    }
    let first = tiles[group[0] as int];
    assert(holds_leaf(leaves, first));
    let i = choose|i: int| 0 <= i < leaves.len() && around(first, (#[trigger] leaves[i]).0);
    lemma_ancestor_parent(leaves[i].0, p.0 as nat);
    assert(around(p, leaves[i].0));
    assert(!is_listed(leaves, p)) by {
        if is_listed(leaves, p) {
            let j = choose|j: int| 0 <= j < leaves.len() && (#[trigger] leaves[j]).0 == p;
            assert(i != j);
            assert(!around(leaves[j].0, leaves[i].0));
        }
    }
    let members = group.map_values(|i: usize| tiles[i as int]);
    assert forall|a: int, b: int| 0 <= a < members.len() && 0 <= b < members.len() && a != b implies members[a]
        != members[b] by {
        assert(members[a] == tiles[group[a] as int] && members[b] == tiles[group[b] as int]);
        if a < b {
            assert(group[a] < group[b]);
        } else {
            assert(group[b] < group[a]);
        }
    }
    assert forall|i: int| 0 <= i < members.len() implies (#[trigger] members[i]).0 == p.0 + 1
        && parent_tile(members[i]) == p by {
        assert(members[i] == tiles[group[i] as int]);
    }
    assert forall|c: TileCoord|
        c.0 == p.0 + 1 && parent_tile(c) == p && #[trigger] holds_leaf(leaves, c) implies members.contains(
        c,
    ) by {
        assert(before.contains_key(c));
        assert(tiles.contains(c));
        let k = choose|k: int| 0 <= k < tiles.len() && tiles[k] == c;
        assert(parent_tile(tiles[k]) == p);
        assert(group.contains(k as usize));
        let m = choose|m: int| 0 <= m < group.len() && group[m] == k as usize;
        assert(members[m] == c);
    }
    lemma_quarters_under(leaves, p, members);
    lemma_group_points(leaves, before, tiles, group);
}

/// Where the levels are gathered from the deepest up and nothing is thinned, points
/// are kept for the leaves and the tiles around them, and the points of each tile
/// are those of all the leaves under it, each once.
pub proof fn lemma_levels_gathered<T>(
    leaves: Seq<(TileCoord, Seq<T>)>,
    depth: u8,
    kept: Seq<Map<TileCoord, Seq<T>>>,
    t: TileCoord,
)
    requires
        leaves_apart(leaves),
        forall|i: int| 0 <= i < leaves.len() ==> (#[trigger] leaves[i]).0.0 <= depth,
        kept.len() == depth + 1,
        keeps_leaves(kept[0], leaves),
        forall|k: int|
            1 <= k <= depth ==> level_gathered(
                kept[k - 1],
                (depth + 1 - k) as u8,
                #[trigger] kept[k],
            ),
    ensures
        kept.last().contains_key(t) <==> holds_leaf(leaves, t),
        kept.last().contains_key(t) ==> kept.last()[t].to_multiset() == points_under(leaves, t),
{
    lemma_gathered_all(leaves, depth, kept, depth as nat);
}

proof fn lemma_gathered_all<T>(
    leaves: Seq<(TileCoord, Seq<T>)>,
    depth: u8,
    kept: Seq<Map<TileCoord, Seq<T>>>,
    n: nat,
)
    requires
        leaves_apart(leaves),
        forall|i: int| 0 <= i < leaves.len() ==> (#[trigger] leaves[i]).0.0 <= depth,
        kept.len() == depth + 1,
        keeps_leaves(kept[0], leaves),
        forall|k: int|
            1 <= k <= depth ==> level_gathered(
                kept[k - 1],
                (depth + 1 - k) as u8,
                #[trigger] kept[k],
            ),
        n <= depth,
    ensures
        gathered_to(leaves, (depth - n) as nat, kept[n as int]),
    decreases n,
{
    if n == 0 {
        lemma_gathered_first(leaves, depth, kept[0]);
    } else {
        lemma_gathered_all(leaves, depth, kept, (n - 1) as nat);
        let level = (depth + 1 - n) as u8;
        let before = kept[n - 1];
        let after = kept[n as int];
        assert(level_gathered(before, level, after));
        let (tiles, groups) = choose|tiles: Seq<TileCoord>, groups: Seq<(TileCoord, Vec<usize>)>| #[trigger]
            gathered(before, level, tiles, groups, after);
        lemma_gathered_step(leaves, level, before, tiles, groups, after);
    }
}

/// Lists one behind the other are one list, however they are parted: a list alone
/// is itself, and two rows of lists make what the one makes and then what the
/// other makes.
pub proof fn lemma_joined<T>(a: Seq<Seq<T>>, b: Seq<Seq<T>>, one: Seq<T>)
    ensures
        joined(a + b) == joined(a) + joined(b),
        joined(seq![one]) == one,
        joined(Seq::<Seq<T>>::empty()) == Seq::<T>::empty(),
    decreases b.len(),
{
    let alone = seq![one];
    assert(alone.drop_last() =~= Seq::<Seq<T>>::empty());
    assert(joined(alone.drop_last()) =~= Seq::<T>::empty());
    assert(alone.last() == one);
    assert(joined(alone) =~= one);
    if b.len() == 0 {
        assert(a + b =~= a);
        assert(joined(a) + joined(b) =~= joined(a));
    } else {
        lemma_joined(a, b.drop_last(), one);
        assert((a + b).drop_last() =~= a + b.drop_last());
        assert(joined(a) + joined(b) =~= (joined(a) + joined(b.drop_last())) + b.last());
    }
}

/// A tile lies around another, or is it, if and only if its column and row are
/// those of the other with so many of their last binary digits dropped as there
/// are levels between.
pub proof fn lemma_around(t: TileCoord, u: TileCoord)
    requires
        t.0 <= u.0,
    ensures
        around(t, u) <==> {
            &&& t.1 == u.1 as nat / pow2((u.0 - t.0) as nat)
            &&& t.2 == u.2 as nat / pow2((u.0 - t.0) as nat)
        },
{
    crate::tree::lemma_ancestor_cell(u, t.0 as nat);
    crate::leaves::lemma_ancestor_level(u, t.0 as nat);
}

/// The items of lists are those of each list.
pub proof fn lemma_contents<T>(lists: Seq<Vec<T>>, i: int)
    requires
        0 <= i < lists.len(),
    ensures
        contents(lists).len() == lists.len(),
        contents(lists)[i] == lists[i]@,
{
}

} // verus!
