//! Items sorted by the tile that they belong to.

use vstd::prelude::*;
use crate::tiles::{parent, parent_tile, TileCoord, TileMap};

verus! {

/// The items that belong to a tile, in their order.
pub open spec fn items_of<T>(items: Seq<(TileCoord, T)>, t: TileCoord) -> Seq<T>
    decreases items.len(),
{
    if items.len() == 0 {
        Seq::empty()
    } else if items.last().0 == t {
        items_of(items.drop_last(), t).push(items.last().1)
    } else {
        items_of(items.drop_last(), t)
    }
}

/// Whether `groups` holds the items sorted by tile: one group for each tile
/// that has items, with the items of that tile.
pub open spec fn grouped<T>(items: Seq<(TileCoord, T)>, groups: Seq<(TileCoord, Vec<T>)>) -> bool {
    &&& forall|i: int, j: int|
        0 <= i < j < groups.len() ==> (#[trigger] groups[i]).0 != (#[trigger] groups[j]).0
    &&& forall|i: int|
        0 <= i < groups.len() ==> (#[trigger] groups[i]).1@ == items_of(items, groups[i].0)
            && groups[i].1@.len() > 0
    &&& forall|t: TileCoord|
        (#[trigger] items_of(items, t)).len() > 0 ==> exists|i: int|
            0 <= i < groups.len() && (#[trigger] groups[i]).0 == t
}

/// Items sorted by tile.
pub struct TileGroups<T> {
    index: TileMap,
    groups: Vec<(TileCoord, Vec<T>)>,
    items: Ghost<Seq<(TileCoord, T)>>,
}

impl<T> View for TileGroups<T> {
    type V = Seq<(TileCoord, T)>;

    closed spec fn view(&self) -> Seq<(TileCoord, T)> {
        self.items@
    }
}

impl<T> TileGroups<T> {
    /// The index leads to the group of each tile, and the groups hold the items.
    pub closed spec fn wf(&self) -> bool {
        &&& self.index.wf()
        &&& forall|i: int|
            0 <= i < self.groups@.len() ==> self.index@.contains_key((#[trigger] self.groups@[i]).0)
                && self.index@[self.groups@[i].0] == i
        &&& forall|t: TileCoord| #[trigger]
            self.index@.contains_key(t) ==> self.index@[t] < self.groups@.len()
                && self.groups@[self.index@[t] as int].0 == t
        &&& forall|i: int|
            0 <= i < self.groups@.len() ==> (#[trigger] self.groups@[i]).1@ == items_of(
                self.items@,
                self.groups@[i].0,
            ) && self.groups@[i].1@.len() > 0
        &&& forall|t: TileCoord|
            !self.index@.contains_key(t) ==> (#[trigger] items_of(self.items@, t)).len() == 0
    }

    /// No items.
    pub fn new() -> (res: TileGroups<T>)
        ensures
            res.wf(),
            res@ == Seq::<(TileCoord, T)>::empty(),
    {
        TileGroups { index: TileMap::new(), groups: Vec::new(), items: Ghost(Seq::empty()) }
    }

    /// Adds an item that belongs to a tile.
    pub fn push(&mut self, tile: TileCoord, item: T)
        requires
            old(self).wf(),
        ensures
            final(self).wf(),
            final(self)@ == old(self)@.push((tile, item)),
    {
        let ghost before = self.items@;
        let ghost after = before.push((tile, item));
        proof {
            assert(after.drop_last() =~= before);
            assert forall|t: TileCoord| #[trigger] items_of(after, t) == if t == tile {
                items_of(before, t).push(item)
            } else {
                items_of(before, t)
            } by {}
            self.items@ = after;
        }
        match self.index.find(tile) {
            Some(i) => {
                let ghost held = self.groups@;
                assert(held.len() == self.groups.len());
                self.groups[i as usize].1.push(item);
                assert forall|k: int| 0 <= k < self.groups@.len() implies (#[trigger] self.groups@[k]).0
                    == held[k].0 && self.groups@[k].1@ == items_of(after, held[k].0) by {}
            },
            None => {
                let mut group: Vec<T> = Vec::new();
                group.push(item);
                assert(items_of(before, tile) =~= Seq::<T>::empty());
                assert(group@ =~= items_of(after, tile));
                self.index.put(tile, self.groups.len() as u64);
                self.groups.push((tile, group));
            },
        }
    }

    /// The groups.
    pub fn into_groups(self) -> (res: Vec<(TileCoord, Vec<T>)>)
        requires
            self.wf(),
        ensures
            grouped(self@, res@),
    {
        assert forall|t: TileCoord| (#[trigger] items_of(self.items@, t)).len() > 0 implies exists|
            i: int,
        |
            0 <= i < self.groups@.len() && (#[trigger] self.groups@[i]).0 == t by {
            assert(self.index@.contains_key(t));
            assert(self.groups@[self.index@[t] as int].0 == t);
        }
        self.groups
    }
}

/// The items of a tile in one sequence behind another are those of the one
/// behind those of the other.
pub proof fn lemma_items_of_joined<T>(a: Seq<(TileCoord, T)>, b: Seq<(TileCoord, T)>, t: TileCoord)
    ensures
        items_of(a + b, t) == items_of(a, t) + items_of(b, t),
    decreases b.len(),
{
    if b.len() == 0 {
        assert(a + b =~= a);
        assert(items_of(a, t) + items_of(b, t) =~= items_of(a, t));
    } else {
        lemma_items_of_joined(a, b.drop_last(), t);
        assert((a + b).drop_last() =~= a + b.drop_last());
        assert(items_of(a, t) + items_of(b.drop_last(), t).push(b.last().1) =~= (items_of(a, t)
            + items_of(b.drop_last(), t)).push(b.last().1));
    }
}

/// Every item is among the items of its tile, behind the earlier ones.
pub proof fn lemma_item_kept<T>(items: Seq<(TileCoord, T)>, k: int)
    requires
        0 <= k < items.len(),
    ensures
        items_of(items.take(k), items[k].0).len() < items_of(items, items[k].0).len(),
        items_of(items, items[k].0)[items_of(items.take(k), items[k].0).len() as int] == items[k].1,
{
    let t = items[k].0;
    let first = items.take(k + 1);
    assert(first.drop_last() =~= items.take(k));
    assert(items =~= first + items.skip(k + 1));
    lemma_items_of_joined(first, items.skip(k + 1), t);
}

/// The index of each tile, with the tile's parent.
pub open spec fn by_parent(tiles: Seq<TileCoord>) -> Seq<(TileCoord, usize)> {
    Seq::new(tiles.len(), |i: int| (parent_tile(tiles[i]), i as usize))
}

/// Sorts tiles by the tile that they are a quarter of. The groups hold the
/// indices of the tiles.
pub fn group_by_parent(tiles: &Vec<TileCoord>) -> (res: Vec<(TileCoord, Vec<usize>)>)
    requires
        forall|i: int| 0 <= i < tiles@.len() ==> (#[trigger] tiles@[i]).0 > 0,
    ensures
        grouped(by_parent(tiles@), res@),
{
    let mut groups: TileGroups<usize> = TileGroups::new();
    let mut i: usize = 0;
    while i < tiles.len()
        invariant
            groups.wf(),
            i <= tiles@.len(),
            groups@ =~= by_parent(tiles@).take(i as int),
            forall|j: int| 0 <= j < tiles@.len() ==> (#[trigger] tiles@[j]).0 > 0,
        decreases tiles.len() - i,
    {
        groups.push(parent(tiles[i]), i);
        i += 1;
    }
    assert(groups@ =~= by_parent(tiles@));
    groups.into_groups()
}

/// An item alone is among the items of its own tile and of no other, and where
/// there are no items a tile has none.
pub proof fn lemma_item_alone<T>(tile: TileCoord, item: T, t: TileCoord)
    ensures
        items_of(seq![(tile, item)], t) == if t == tile {
            seq![item]
        } else {
            Seq::<T>::empty()
        },
        items_of(Seq::<(TileCoord, T)>::empty(), t) == Seq::<T>::empty(),
{
    let one = seq![(tile, item)];
    assert(one.drop_last() =~= Seq::<(TileCoord, T)>::empty());
    assert(items_of(Seq::<(TileCoord, T)>::empty(), t) =~= Seq::<T>::empty());
    assert(items_of(one, t) =~= if t == tile {
        seq![item]
    } else {
        Seq::<T>::empty()
    });
}

/// What is in a group is an item that belongs to the tile of the group.
pub proof fn lemma_item_belongs<T>(
    items: Seq<(TileCoord, T)>,
    groups: Seq<(TileCoord, Vec<T>)>,
    g: int,
    k: int,
) -> (i: int)
    requires
        grouped(items, groups),
        0 <= g < groups.len(),
        0 <= k < groups[g].1@.len(),
    ensures
        0 <= i < items.len(),
        items[i] == (groups[g].0, groups[g].1@[k]),
{
    lemma_item_origin(items, groups[g].0, k)
}

proof fn lemma_item_origin<T>(items: Seq<(TileCoord, T)>, t: TileCoord, k: int) -> (i: int)
    requires
        0 <= k < items_of(items, t).len(),
    ensures
        0 <= i < items.len(),
        items[i] == (t, items_of(items, t)[k]),
    decreases items.len(),
{
    let less = items.drop_last();
    if items.last().0 == t && k == items_of(less, t).len() {
        items.len() - 1
    } else {
        lemma_item_origin(less, t, k)
    }
}

/// Every item is in the one group of its tile.
pub proof fn lemma_item_grouped<T>(
    items: Seq<(TileCoord, T)>,
    groups: Seq<(TileCoord, Vec<T>)>,
    i: int,
) -> (place: (int, int))
    requires
        grouped(items, groups),
        0 <= i < items.len(),
    ensures
        0 <= place.0 < groups.len(),
        0 <= place.1 < groups[place.0].1@.len(),
        items[i] == (groups[place.0].0, groups[place.0].1@[place.1]),
        forall|g: int| 0 <= g < groups.len() && (#[trigger] groups[g]).0 == items[i].0 ==> g == place.0,
{
    let t = items[i].0;
    lemma_item_kept(items, i);
    let k = items_of(items.take(i), t).len() as int;
    let g = choose|g: int| 0 <= g < groups.len() && (#[trigger] groups[g]).0 == t;
    assert(groups[g].1@ == items_of(items, groups[g].0));
    assert forall|h: int| 0 <= h < groups.len() && (#[trigger] groups[h]).0 == items[i].0 implies h
        == g by {
        if h < g {
            assert(groups[h].0 != groups[g].0);
        } else if g < h {
            assert(groups[g].0 != groups[h].0);
        }
    }
    (g, k)
}

/// Every tile is in one group, that of the tile one level up whose column and row
/// are half of its own; there is nothing else in the groups.
pub proof fn lemma_grouped_by_parent(
    tiles: Seq<TileCoord>,
    groups: Seq<(TileCoord, Vec<usize>)>,
    i: int,
) -> (place: (int, int))
    requires
        grouped(by_parent(tiles), groups),
        tiles.len() <= usize::MAX,
        0 <= i < tiles.len(),
        tiles[i].0 > 0,
    ensures
        0 <= place.0 < groups.len(),
        0 <= place.1 < groups[place.0].1@.len(),
        groups[place.0].1@[place.1] == i,
        groups[place.0].0.0 + 1 == tiles[i].0,
        2 * groups[place.0].0.1 <= tiles[i].1 <= 2 * groups[place.0].0.1 + 1,
        2 * groups[place.0].0.2 <= tiles[i].2 <= 2 * groups[place.0].0.2 + 1,
        forall|g: int, k: int|
            0 <= g < groups.len() && 0 <= k < groups[g].1@.len() && #[trigger] groups[g].1@[k] == i
                ==> g == place.0,
{
    let items = by_parent(tiles);
    assert(items[i] == (parent_tile(tiles[i]), i as usize));
    let place = lemma_item_grouped(items, groups, i);
    assert forall|g: int, k: int|
        0 <= g < groups.len() && 0 <= k < groups[g].1@.len() && #[trigger] groups[g].1@[k]
            == i implies g == place.0 by {
        let j = lemma_item_belongs(items, groups, g, k);
        assert(items[j] == (parent_tile(tiles[j]), j as usize));
        assert(j == i);
    }
    place
}

} // verus!
