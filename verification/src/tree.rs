//! The tree of the exported tiles, and the tileset made of it.

use vstd::prelude::*;
#[allow(unused_imports)]
use vstd::string::*;
use vstd::arithmetic::power2::pow2;
use crate::binary64::Real;
use crate::bounds::{lemma_within_trans, Bounds};
use crate::tiles::{ancestor, parent_tile, TileCoord};

verus! {

/// An exported tile.
#[derive(Debug)]
pub struct TileInfo {
    pub coord: TileCoord,
    /// Where its model lies.
    pub uri: String,
    /// The bounds of its points.
    pub bounds: Bounds,
}

/// A column and a row.
pub type Cell = (u32, u32);

/// A node of the tree: a tile, with the smaller tiles within it in the order of
/// their columns and rows.
pub struct TreeNode {
    content: Option<TileInfo>,
    children: Vec<(Cell, TreeNode)>,
}

/// Whether a cell comes before another: by column, then by row.
pub open spec fn before(a: Cell, b: Cell) -> bool {
    a.0 < b.0 || (a.0 == b.0 && a.1 < b.1)
}

/// The cells through which a tile is reached from the one around it on `level`.
pub open spec fn cells_from(t: TileCoord, level: nat) -> Seq<Cell> {
    Seq::new(
        (t.0 - level) as nat,
        |i: int| (ancestor(t, (level + 1 + i) as nat).1, ancestor(t, (level + 1 + i) as nat).2),
    )
}

impl TreeNode {
    /// The tile of the node.
    pub closed spec fn content(self) -> Option<TileInfo> {
        self.content
    }

    /// The nodes within the node, each with its cell.
    pub closed spec fn children(self) -> Seq<(Cell, TreeNode)> {
        self.children@
    }

    /// Whether there is a tile in the node or within it.
    pub open spec fn occupied(self) -> bool {
        self.content() is Some || self.children().len() > 0
    }

    /// The nodes within each node are in order, and there is a tile in each.
    pub closed spec fn wf(self) -> bool
        decreases self,
    {
        &&& forall|i: int, j: int|
            0 <= i < j < self.children@.len() ==> before(
                (#[trigger] self.children@[i]).0,
                (#[trigger] self.children@[j]).0,
            )
        &&& forall|i: int|
            0 <= i < self.children@.len() ==> (#[trigger] self.children@[i]).1.wf()
                && self.children@[i].1.occupied()
    }

    /// The tile that some cells lead to.
    pub closed spec fn content_at(self, cells: Seq<Cell>) -> Option<TileInfo>
        decreases cells.len(),
    {
        if cells.len() == 0 {
            self.content
        } else if exists|i: int|
            0 <= i < self.children@.len() && (#[trigger] self.children@[i]).0 == cells[0] {
            let i = choose|i: int|
                0 <= i < self.children@.len() && (#[trigger] self.children@[i]).0 == cells[0];
            self.children@[i].1.content_at(cells.drop_first())
        } else {
            None
        }
    }

    /// A node without a tile.
    pub fn new() -> (res: TreeNode)
        ensures
            res.wf(),
            !res.occupied(),
            forall|cells: Seq<Cell>| #[trigger] res.content_at(cells) is None,
    {
        TreeNode { content: None, children: Vec::new() }
    }
}

/// An ancestor's column and row are those of the tile with the last binary
/// digits dropped.
pub proof fn lemma_ancestor_cell(t: TileCoord, level: nat)
    requires
        level <= t.0,
    ensures
        ancestor(t, level).1 == t.1 as nat / pow2((t.0 - level) as nat),
        ancestor(t, level).2 == t.2 as nat / pow2((t.0 - level) as nat),
    decreases t.0,
{
    vstd::arithmetic::power2::lemma2_to64();
    if level < t.0 {
        let p = parent_tile(t);
        let k = (t.0 - level - 1) as nat;
        lemma_ancestor_cell(p, level);
        vstd::arithmetic::power2::lemma_pow2_unfold(k + 1);
        vstd::arithmetic::power2::lemma_pow2_pos(k);
        vstd::arithmetic::div_mod::lemma_div_denominator(t.1 as int, 2, pow2(k) as int);
        vstd::arithmetic::div_mod::lemma_div_denominator(t.2 as int, 2, pow2(k) as int);
        assert((t.0 - level) as nat == k + 1 && (p.0 - level) as nat == k);
        assert(pow2(k + 1) as int == 2 * pow2(k) as int);
    } else {
        assert((t.0 - level) as nat == 0);
        assert(ancestor(t, level) == t);
    }
}

/// The cell of the tile around `tile` on `level`.
fn cell_at(tile: TileCoord, level: u8) -> (res: Cell)
    requires
        0 < level <= tile.0 <= 32,
    ensures
        res == (ancestor(tile, level as nat).1, ancestor(tile, level as nat).2),
{
    let shift: u8 = tile.0 - level;
    proof {
        lemma_ancestor_cell(tile, level as nat);
        vstd::bits::lemma_u32_shr_is_div(tile.1, shift as u32);
        vstd::bits::lemma_u32_shr_is_div(tile.2, shift as u32);
    }
    (tile.1 >> (shift as u32), tile.2 >> (shift as u32))
}

/// Tells whether a cell comes before another.
fn is_before(a: Cell, b: Cell) -> (res: bool)
    ensures
        res == before(a, b),
{
    a.0 < b.0 || (a.0 == b.0 && a.1 < b.1)
}

impl TreeNode {
    /// The index of the first node within this one whose cell does not come
    /// before `cell`.
    fn position(&self, cell: Cell) -> (res: usize)
        requires
            self.wf(),
        ensures
            res <= self.children@.len(),
            forall|i: int| 0 <= i < res ==> before((#[trigger] self.children@[i]).0, cell),
            forall|i: int| res <= i < self.children@.len() ==> !before(
                (#[trigger] self.children@[i]).0,
                cell,
            ),
    {
        let mut i: usize = 0;
        while i < self.children.len() && is_before(self.children[i].0, cell)
            invariant
                i <= self.children@.len(),
                forall|j: int| 0 <= j < i ==> before((#[trigger] self.children@[j]).0, cell),
            decreases self.children.len() - i,
        {
            i += 1;
        }
        i
    }

    /// No cells lead to the tile of the node itself.
    pub proof fn lemma_content_here(self)
        ensures
            self.content_at(Seq::empty()) == self.content(),
    {
    }

    /// Where a node within has the first of some cells, what the cells lead to is
    /// what the others lead to from there.
    pub proof fn lemma_content_at(self, i: int, cells: Seq<Cell>)
        requires
            self.wf(),
            0 <= i < self.children().len(),
            cells.len() > 0,
            self.children()[i].0 == cells[0],
        ensures
            self.content_at(cells) == self.children()[i].1.content_at(cells.drop_first()),
            self.children()[i].1.wf(),
            self.children()[i].1.occupied(),
    {
        let k = choose|k: int|
            0 <= k < self.children@.len() && (#[trigger] self.children@[k]).0 == cells[0];
        assert(self.children@[i].0 == cells[0]);
        assert(self.children@[k].0 == cells[0]);
        if k < i {
            assert(before(self.children@[k].0, self.children@[i].0));
        } else if i < k {
            assert(before(self.children@[i].0, self.children@[k].0));
        }
    }

    /// Where no node within has the first of some cells, the cells lead to no
    /// tile.
    pub proof fn lemma_no_content_at(self, cells: Seq<Cell>)
        requires
            cells.len() > 0,
            forall|i: int|
                0 <= i < self.children().len() ==> (#[trigger] self.children()[i]).0 != cells[0],
        ensures
            self.content_at(cells) is None,
    {
        assert forall|i: int| 0 <= i < self.children@.len() implies (#[trigger] self.children@[i]).0
            != cells[0] by {
            assert(self.children()[i].0 != cells[0]);
        }
    }

    /// Puts a tile into the tree below this node, which is the one around the
    /// tile on `level`.
    fn insert_below(&mut self, info: TileInfo, level: u8)
        requires
            old(self).wf(),
            level <= info.coord.0 <= 32,
        ensures
            final(self).wf(),
            final(self).occupied(),
            forall|cells: Seq<Cell>| #[trigger]
                final(self).content_at(cells) == if cells == cells_from(info.coord, level as nat) {
                    Some(info)
                } else {
                    old(self).content_at(cells)
                },
        decreases info.coord.0 - level,
    {
        let ghost all = cells_from(info.coord, level as nat);
        if level == info.coord.0 {
            assert(all =~= Seq::<Cell>::empty());
            self.content = Some(info);
            proof {
                assert forall|cells: Seq<Cell>| #[trigger]
                    self.content_at(cells) == if cells == all {
                        Some(info)
                    } else {
                        old(self).content_at(cells)
                    } by {
                    if cells.len() == 0 {
                        assert(cells =~= all);
                    }
                }
            }
        } else {
            let cell: Cell = cell_at(info.coord, level + 1);
            let at: usize = self.position(cell);
            let ghost rest = cells_from(info.coord, (level + 1) as nat);
            assert(all =~= seq![cell] + rest);
            assert(all.drop_first() =~= rest);
            if at < self.children.len() && self.children[at].0.0 == cell.0 && self.children[at].0.1
                == cell.1 {
                self.children[at].1.insert_below(info, level + 1);
                proof {
                    assert(self.children@.len() == old(self).children@.len());
                    assert(forall|k: int|
                        0 <= k < self.children@.len() && k != at ==> self.children@[k]
                            == #[trigger] old(self).children@[k]);
                    assert(self.children@[at as int].0 == old(self).children@[at as int].0);
                    assert(self.wf());
                    assert forall|cells: Seq<Cell>| #[trigger]
                        self.content_at(cells) == if cells == all {
                            Some(info)
                        } else {
                            old(self).content_at(cells)
                        } by {
                        if cells.len() > 0 && cells[0] == cell {
                            self.lemma_content_at(at as int, cells);
                            old(self).lemma_content_at(at as int, cells);
                            assert(cells =~= seq![cell] + cells.drop_first());
                        } else if cells.len() > 0 {
                            if exists|k: int|
                                0 <= k < self.children@.len() && (#[trigger] self.children@[k]).0
                                    == cells[0] {
                                let k = choose|k: int|
                                    0 <= k < self.children@.len() && (#[trigger] self.children@[k]).0
                                        == cells[0];
                                self.lemma_content_at(k, cells);
                                old(self).lemma_content_at(k, cells);
                            } else {
                                assert(forall|k: int|
                                    0 <= k < self.children@.len() ==> (#[trigger] old(self).children@[k]).0
                                        == self.children@[k].0);
                            }
                        }
                    }
                }
            } else {
                let mut node = TreeNode::new();
                let ghost bare = node;
                node.insert_below(info, level + 1);
                self.children.insert(at, (cell, node));
                proof {
                    let now = self.children@;
                    let then = old(self).children@;
                    assert(now =~= then.insert(at as int, (cell, node)));
                    assert(forall|k: int| 0 <= k < at ==> now[k] == #[trigger] then[k]);
                    assert(forall|k: int| at <= k < then.len() ==> now[k + 1] == #[trigger] then[k]);
                    assert forall|i: int, j: int| 0 <= i < j < now.len() implies before(
                        (#[trigger] now[i]).0,
                        (#[trigger] now[j]).0,
                    ) by {
                        assert(i < at ==> now[i] == then[i]);
                        assert(i > at ==> now[i] == then[i - 1]);
                        assert(j < at ==> now[j] == then[j]);
                        assert(j > at ==> now[j] == then[j - 1]);
                    }
                    assert forall|i: int| 0 <= i < now.len() implies (#[trigger] now[i]).1.wf()
                        && now[i].1.occupied() by {
                        assert(i < at ==> now[i] == then[i]);
                        assert(i > at ==> now[i] == then[i - 1]);
                    }
                    assert(self.wf());
                    assert forall|cells: Seq<Cell>| #[trigger]
                        self.content_at(cells) == if cells == all {
                            Some(info)
                        } else {
                            old(self).content_at(cells)
                        } by {
                        if cells.len() > 0 && cells[0] == cell {
                            self.lemma_content_at(at as int, cells);
                            assert(cells =~= seq![cell] + cells.drop_first());
                            assert(bare.content_at(cells.drop_first()) is None);
                            assert forall|k: int| 0 <= k < then.len() implies (#[trigger] then[k]).0
                                != cell by {}
                        } else if cells.len() > 0 {
                            if exists|k: int| 0 <= k < then.len() && (#[trigger] then[k]).0 == cells[0] {
                                let k = choose|k: int|
                                    0 <= k < then.len() && (#[trigger] then[k]).0 == cells[0];
                                old(self).lemma_content_at(k, cells);
                                if k < at {
                                    self.lemma_content_at(k, cells);
                                } else {
                                    self.lemma_content_at(k + 1, cells);
                                }
                            } else {
                                assert forall|k: int| 0 <= k < now.len() implies (#[trigger] now[k]).0
                                    != cells[0] by {
                                    assert(k < at ==> now[k] == then[k]);
                                    assert(k > at ==> now[k] == then[k - 1]);
                                }
                            }
                        }
                    }
                }
            }
        }
    }

    /// Puts a tile into the tree.
    pub fn insert(&mut self, info: TileInfo)
        requires
            old(self).wf(),
            info.coord.0 <= 32,
        ensures
            final(self).wf(),
            final(self).occupied(),
            forall|cells: Seq<Cell>| #[trigger]
                final(self).content_at(cells) == if cells == cells_from(info.coord, 0) {
                    Some(info)
                } else {
                    old(self).content_at(cells)
                },
    {
        self.insert_below(info, 0);
    }
}

/// A tile of the tileset.
#[derive(Debug)]
pub struct TilesetTile {
    /// The bounds of the tile and of all within it.
    pub bounds: Bounds,
    /// Where its model lies, if it has one.
    pub uri: Option<String>,
    /// The tiles within it.
    pub children: Vec<TilesetTile>,
}

/// The extent of two things together, where there are any.
pub open spec fn joined_extent(
    a: Option<(Real, Real)>,
    b: Option<(Real, Real)>,
) -> Option<(Real, Real)> {
    match (a, b) {
        (Some(x), Some(y)) => Some((x.0.smaller(y.0), x.1.larger(y.1))),
        (Some(x), None) => Some(x),
        (None, y) => y,
    }
}

impl TreeNode {
    /// The least and the greatest coordinate, along an axis, in the node's tile
    /// and in the first `n` nodes within it.
    pub open spec fn extent_of(self, n: nat, axis: int) -> Option<(Real, Real)>
        decreases self, n,
    {
        if n == 0 || n > self.children().len() {
            match self.content() {
                Some(info) => Some((info.bounds.low(axis), info.bounds.high(axis))),
                None => None,
            }
        } else {
            joined_extent(
                self.extent_of((n - 1) as nat, axis),
                self.children()[n - 1].1.extent(axis),
            )
        }
    }

    /// The least and the greatest coordinate, along an axis, of all that is in
    /// the node.
    pub open spec fn extent(self, axis: int) -> Option<(Real, Real)>
        decreases self, self.children().len() + 1,
    {
        self.extent_of(self.children().len(), axis)
    }

    /// Whether bounds are those of all that is in the node.
    pub open spec fn bounded(self, bounds: Bounds) -> bool {
        forall|axis: int|
            #![trigger bounds.low(axis)]
            #![trigger bounds.high(axis)]
            0 <= axis < 3 ==> self.extent(axis) == Some((bounds.low(axis), bounds.high(axis)))
    }

    /// Whether a tile of the tileset is that of the node: it has the node's
    /// model, the bounds of all that is in the node, and the tiles of the nodes
    /// within, in their order.
    pub open spec fn is_tile(self, tile: TilesetTile) -> bool
        decreases self,
    {
        &&& self.bounded(tile.bounds)
        &&& tile.uri == match self.content() {
            Some(info) => Some(info.uri),
            None => None,
        }
        &&& tile.children@.len() == self.children().len()
        &&& forall|i: int|
            0 <= i < self.children().len() ==> (#[trigger] self.children()[i]).1.is_tile(
                tile.children@[i],
            )
    }

    /// Makes the tile of the tileset.
    pub fn into_tile(self) -> (res: TilesetTile)
        requires
            self.wf(),
            self.occupied(),
        ensures
            self.is_tile(res),
        decreases self,
    {
        let TreeNode { content, children } = self;
        let mut bounds: Option<Bounds> = match &content {
            Some(info) => Some(info.bounds),
            None => None,
        };
        let uri: Option<String> = match content {
            Some(info) => Some(info.uri),
            None => None,
        };
        let mut tiles: Vec<TilesetTile> = Vec::new();
        for entry in it: children
            invariant
                self.wf(),
                it.seq() == self.children(),
                tiles@.len() == it.index(),
                forall|i: int|
                    0 <= i < tiles@.len() ==> (#[trigger] self.children()[i]).1.is_tile(tiles@[i]),
                match bounds {
                    Some(b) => forall|axis: int|
                        #![trigger b.low(axis)]
                        #![trigger b.high(axis)]
                        0 <= axis < 3 ==> self.extent_of(it.index() as nat, axis) == Some(
                            (b.low(axis), b.high(axis)),
                        ),
                    None => self.content() is None && it.index() == 0,
                },
        {
            let ghost k = it.index();
            let (_, child) = entry;
            assert(child == self.children@[k].1);
            assert(decreases_to!(self => self.children@[k].1));
            let tile = child.into_tile();
            let ghost had = bounds;
            match &mut bounds {
                Some(current) => {
                    current.include_bounds(tile.bounds);
                },
                None => {
                    bounds = Some(tile.bounds);
                },
            }
            proof {
                let b = bounds->0;
                assert forall|axis: int|
                    #![trigger b.low(axis)]
                    #![trigger b.high(axis)]
                    0 <= axis < 3 implies self.extent_of((k + 1) as nat, axis) == Some(
                    (b.low(axis), b.high(axis)),
                ) by {
                    let t = tile.bounds;
                    assert(child.extent(axis) == Some((t.low(axis), t.high(axis))));
                    if had is Some {
                        let h = had->0;
                        assert(self.extent_of(k as nat, axis) == Some((h.low(axis), h.high(axis))));
                    } else {
                        assert(self.extent_of(0, axis) is None);
                    }
                }
            }
            tiles.push(tile);
        }
        TilesetTile { bounds: bounds.unwrap(), uri, children: tiles }
    }
}

impl TreeNode {
    /// The nodes within a node are in the order of their cells.
    pub proof fn lemma_children_ordered(self, i: int, j: int)
        requires
            self.wf(),
            0 <= i < j < self.children().len(),
        ensures
            before(self.children()[i].0, self.children()[j].0),
    {
    }

    proof fn lemma_extent_widens(self, m: nat, n: nat, axis: int)
        requires
            m <= n <= self.children().len(),
            self.extent_of(m, axis) matches Some(x) && !x.0.nan() && !x.1.nan(),
        ensures
            self.extent_of(n, axis) matches Some(y) && !y.0.nan() && !y.1.nan() && y.0.at_most(
                (self.extent_of(m, axis)->0).0,
            ) && (self.extent_of(m, axis)->0).1.at_most(y.1),
        decreases n - m,
    {
        if m < n {
            self.lemma_extent_widens(m, (n - 1) as nat, axis);
        }
    }

    /// The bounds of a tile hold those of its own points.
    pub proof fn lemma_tile_holds_content(self, tile: TilesetTile)
        requires
            self.is_tile(tile),
            self.content() is Some,
            self.content()->0.bounds.numbers(),
        ensures
            self.content()->0.bounds.within(tile.bounds),
    {
        let b = self.content()->0.bounds;
        let t = tile.bounds;
        assert forall|axis: int|
            #![trigger b.low(axis)]
            #![trigger b.high(axis)]
            #![trigger t.low(axis)]
            #![trigger t.high(axis)]
            0 <= axis < 3 implies t.low(axis).at_most(b.low(axis)) && b.high(axis).at_most(t.high(axis)) by {
            assert(!b.low(axis).nan() && !b.high(axis).nan());
            self.lemma_extent_widens(0, self.children().len(), axis);
            assert(self.extent(axis) == Some((t.low(axis), t.high(axis))));
        }
    }

    /// The bounds of a tile hold those of each tile within it.
    pub proof fn lemma_tile_holds_child(self, tile: TilesetTile, i: int)
        requires
            self.is_tile(tile),
            0 <= i < tile.children@.len(),
            tile.children@[i].bounds.numbers(),
        ensures
            tile.children@[i].bounds.within(tile.bounds),
    {
        let b = tile.children@[i].bounds;
        let t = tile.bounds;
        let child = self.children()[i].1;
        assert(child.is_tile(tile.children@[i]));
        assert forall|axis: int|
            #![trigger b.low(axis)]
            #![trigger b.high(axis)]
            #![trigger t.low(axis)]
            #![trigger t.high(axis)]
            0 <= axis < 3 implies t.low(axis).at_most(b.low(axis)) && b.high(axis).at_most(t.high(axis)) by {
            assert(!b.low(axis).nan() && !b.high(axis).nan());
            assert(child.extent(axis) == Some((b.low(axis), b.high(axis))));
            assert(self.extent_of((i + 1) as nat, axis) == joined_extent(
                self.extent_of(i as nat, axis),
                child.extent(axis),
            ));
            self.lemma_extent_widens((i + 1) as nat, self.children().len(), axis);
            assert(self.extent(axis) == Some((t.low(axis), t.high(axis))));
        }
    }
}

impl TreeNode {
    /// The bounds of a tile hold those of every exported tile within it, however
    /// far below.
    pub proof fn lemma_tile_holds_all(self, tile: TilesetTile, cells: Seq<Cell>)
        requires
            self.wf(),
            self.is_tile(tile),
            self.content_at(cells) is Some,
            self.content_at(cells)->0.bounds.numbers(),
        ensures
            self.content_at(cells)->0.bounds.within(tile.bounds),
        decreases cells.len(),
    {
        if cells.len() == 0 {
            self.lemma_tile_holds_content(tile);
        } else {
            let i = choose|i: int|
                0 <= i < self.children@.len() && (#[trigger] self.children@[i]).0 == cells[0];
            self.lemma_content_at(i, cells);
            let child = self.children@[i].1;
            let below = tile.children@[i];
            assert(self.children()[i].1.is_tile(below));
            let info = self.content_at(cells)->0;
            child.lemma_tile_holds_all(below, cells.drop_first());
            assert(below.bounds.numbers()) by {
                assert forall|axis: int|
                    #![trigger below.bounds.low(axis)]
                    #![trigger below.bounds.high(axis)]
                    0 <= axis < 3 implies !below.bounds.low(axis).nan() && !below.bounds.high(
                    axis,
                ).nan() by {
                    assert(below.bounds.low(axis).at_most(info.bounds.low(axis)));
                }
            }
            self.lemma_tile_holds_child(tile, i);
            lemma_within_trans(info.bounds, below.bounds, tile.bounds);
        }
    }
}

impl TreeNode {
    proof fn lemma_extent_tight(self, n: nat, axis: int) -> (cells: (Seq<Cell>, Seq<Cell>))
        requires
            self.wf(),
            n <= self.children().len(),
            self.content() is Some || n > 0,
        ensures
            self.extent_of(n, axis) matches Some(x) && {
                &&& self.content_at(cells.0) matches Some(info) && x.0 == info.bounds.low(axis)
                &&& self.content_at(cells.1) matches Some(info) && x.1 == info.bounds.high(axis)
            },
        decreases self, n,
    {
        if n == 0 {
            (Seq::empty(), Seq::empty())
        } else {
            let (cell, child) = self.children@[n - 1];
            assert(self.children()[n - 1] == (cell, child));
            assert(decreases_to!(self => self.children@[n - 1].1));
            assert(child.wf() && child.occupied());
            let below = child.lemma_extent_tight(child.children().len(), axis);
            let low = seq![cell] + below.0;
            let high = seq![cell] + below.1;
            assert(low.drop_first() =~= below.0);
            assert(high.drop_first() =~= below.1);
            self.lemma_content_at(n - 1, low);
            self.lemma_content_at(n - 1, high);
            assert(child.extent(axis) == child.extent_of(child.children().len(), axis));
            if self.content() is Some || n > 1 {
                let others = self.lemma_extent_tight((n - 1) as nat, axis);
                let x = self.extent_of((n - 1) as nat, axis)->0;
                let y = self.extent_of(n, axis)->0;
                (
                    if y.0 == x.0 {
                        others.0
                    } else {
                        low
                    },
                    if y.1 == x.1 {
                        others.1
                    } else {
                        high
                    },
                )
            } else {
                (low, high)
            }
        }
    }

    /// The bounds of a tile are tight: along each axis the lower bound is the
    /// lower bound of an exported tile in the node or within it, and the upper
    /// bound is the upper bound of one.
    pub proof fn lemma_tile_tight(self, tile: TilesetTile, axis: int) -> (cells: (
        Seq<Cell>,
        Seq<Cell>,
    ))
        requires
            self.wf(),
            self.occupied(),
            self.is_tile(tile),
            0 <= axis < 3,
        ensures
            self.content_at(cells.0) matches Some(info) && tile.bounds.low(axis)
                == info.bounds.low(axis),
            self.content_at(cells.1) matches Some(info) && tile.bounds.high(axis)
                == info.bounds.high(axis),
    {
        let b = tile.bounds;
        assert(self.extent(axis) == Some((b.low(axis), b.high(axis))));
        self.lemma_extent_tight(self.children().len(), axis)
    }
}

/// The tile of the tileset that is reached by going down to the child of each
/// index in turn.
pub open spec fn tile_below(tile: TilesetTile, steps: Seq<int>) -> Option<TilesetTile>
    decreases steps.len(),
{
    if steps.len() == 0 {
        Some(tile)
    } else if 0 <= steps[0] < tile.children@.len() {
        tile_below(tile.children@[steps[0]], steps.drop_first())
    } else {
        None
    }
}

impl TreeNode {
    /// Every tile put into the tree is in the tileset, as deep as its cells lead,
    /// with its model.
    pub proof fn lemma_tile_found(self, tile: TilesetTile, cells: Seq<Cell>) -> (steps: Seq<int>)
        requires
            self.wf(),
            self.is_tile(tile),
            self.content_at(cells) is Some,
        ensures
            steps.len() == cells.len(),
            tile_below(tile, steps) matches Some(found) && found.uri == Some(
                self.content_at(cells)->0.uri,
            ),
        decreases cells.len(),
    {
        if cells.len() == 0 {
            Seq::empty()
        } else {
            let i = choose|i: int|
                0 <= i < self.children@.len() && (#[trigger] self.children@[i]).0 == cells[0];
            self.lemma_content_at(i, cells);
            assert(self.children()[i].1.is_tile(tile.children@[i]));
            let below = self.children@[i].1.lemma_tile_found(tile.children@[i], cells.drop_first());
            let steps = seq![i] + below;
            assert(steps.drop_first() =~= below);
            steps
        }
    }

    /// Every model in the tileset is that of a tile that was put into the tree, at
    /// the same depth.
    pub proof fn lemma_tile_put_in(self, tile: TilesetTile, steps: Seq<int>) -> (cells: Seq<Cell>)
        requires
            self.wf(),
            self.is_tile(tile),
            tile_below(tile, steps) is Some,
            tile_below(tile, steps)->0.uri is Some,
        ensures
            cells.len() == steps.len(),
            self.content_at(cells) matches Some(info) && Some(info.uri) == tile_below(
                tile,
                steps,
            )->0.uri,
        decreases steps.len(),
    {
        if steps.len() == 0 {
            Seq::empty()
        } else {
            let i = steps[0];
            let child = self.children()[i];
            assert(child.1.is_tile(tile.children@[i]));
            assert(self.children@[i].1.wf());
            let below = child.1.lemma_tile_put_in(tile.children@[i], steps.drop_first());
            let cells = seq![child.0] + below;
            assert(cells.drop_first() =~= below);
            self.lemma_content_at(i, cells);
            cells
        }
    }
}

/// No two tiles below the root are reached through the same cells.
pub proof fn lemma_cells_tell_tile(t: TileCoord, u: TileCoord)
    requires
        t.0 > 0,
        cells_from(t, 0) == cells_from(u, 0),
    ensures
        t == u,
{
    assert(cells_from(t, 0).len() == t.0);
    assert(cells_from(u, 0).len() == u.0);
    let last = t.0 - 1;
    assert(cells_from(t, 0)[last] == cells_from(u, 0)[last]);
    assert(ancestor(t, t.0 as nat) == t);
    assert(ancestor(u, u.0 as nat) == u);
}

impl TreeNode {
    /// The nodes within a node come by column, and those of one column by row.
    pub proof fn lemma_children_by_column(self, i: int, j: int)
        requires
            self.wf(),
            0 <= i < j < self.children().len(),
        ensures
            self.children()[i].0.0 <= self.children()[j].0.0,
            self.children()[i].0.0 == self.children()[j].0.0 ==> self.children()[i].0.1
                < self.children()[j].0.1,
    {
        self.lemma_children_ordered(i, j);
    }
}

/// The cells through which a tile is reached are the columns and rows of the tiles
/// around it, from the largest down: those of the tile with so many of its last
/// binary digits dropped as there are levels between. The last is its own.
pub proof fn lemma_cells(t: TileCoord, level: nat, i: int)
    requires
        0 <= i < t.0 - level,
    ensures
        cells_from(t, level).len() == t.0 - level,
        cells_from(t, level)[i].0 == t.1 as nat / pow2((t.0 - level - 1 - i) as nat),
        cells_from(t, level)[i].1 == t.2 as nat / pow2((t.0 - level - 1 - i) as nat),
        i == t.0 - level - 1 ==> cells_from(t, level)[i] == (t.1, t.2),
{
    lemma_ancestor_cell(t, (level + 1 + i) as nat);
    if i == t.0 - level - 1 {
        assert(ancestor(t, t.0 as nat) == t);
    }
}

impl TreeNode {
    /// The bounds of every tile of the tileset, however far below, are tight: they
    /// are the bounds of exported tiles that are reached through the cells that the
    /// tile itself is reached through.
    pub proof fn lemma_tile_below_tight(self, tile: TilesetTile, steps: Seq<int>, axis: int) -> (cells: (
        Seq<Cell>,
        Seq<Cell>,
        Seq<Cell>,
    ))
        requires
            self.wf(),
            self.occupied(),
            self.is_tile(tile),
            tile_below(tile, steps) is Some,
            0 <= axis < 3,
        ensures
            cells.0.len() == steps.len(),
            self.content_at(cells.0 + cells.1) matches Some(info) && tile_below(
                tile,
                steps,
            )->0.bounds.low(axis) == info.bounds.low(axis),
            self.content_at(cells.0 + cells.2) matches Some(info) && tile_below(
                tile,
                steps,
            )->0.bounds.high(axis) == info.bounds.high(axis),
        decreases steps.len(),
    {
        if steps.len() == 0 {
            let cells = self.lemma_tile_tight(tile, axis);
            assert(Seq::<Cell>::empty() + cells.0 =~= cells.0);
            assert(Seq::<Cell>::empty() + cells.1 =~= cells.1);
            (Seq::empty(), cells.0, cells.1)
        } else {
            let i = steps[0];
            let child = self.children()[i];
            assert(child.1.is_tile(tile.children@[i]));
            assert(self.children@[i].1.wf() && self.children@[i].1.occupied());
            let below = child.1.lemma_tile_below_tight(
                tile.children@[i],
                steps.drop_first(),
                axis,
            );
            let path = seq![child.0] + below.0;
            assert((path + below.1).drop_first() =~= below.0 + below.1);
            assert((path + below.2).drop_first() =~= below.0 + below.2);
            self.lemma_content_at(i, path + below.1);
            self.lemma_content_at(i, path + below.2);
            (path, below.1, below.2)
        }
    }
}

} // verus!
