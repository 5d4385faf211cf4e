//! Thinning a cloud to one point for each voxel.

use std::collections::{HashMap, HashSet};
use vstd::prelude::*;
#[allow(unused_imports)]
use crate::binary64::lemma_magnitude_increases;
use crate::binary64::Real;

verus! {

broadcast use vstd::std_specs::hash::group_hash_axioms;

/// The place of a voxel along the three axes.
pub type Voxel = (i64, i64, i64);

/// Whether the voxel at `i` is none of the earlier ones.
pub open spec fn is_first(voxels: Seq<Voxel>, i: int) -> bool {
    forall|j: int| 0 <= j < i ==> #[trigger] voxels[j] != voxels[i]
}

/// The indices at which a voxel comes for the first time, in ascending order.
pub open spec fn firsts(voxels: Seq<Voxel>) -> Seq<int>
    decreases voxels.len(),
{
    if voxels.len() == 0 {
        Seq::empty()
    } else if is_first(voxels, voxels.len() - 1) {
        firsts(voxels.drop_last()).push(voxels.len() - 1)
    } else {
        firsts(voxels.drop_last())
    }
}

/// Two words as one number.
spec fn joined(high: u64, low: u64) -> u128 {
    (high * 0x1_0000_0000_0000_0000 + low) as u128
}

/// The bits of an integer.
spec fn bits_of(n: i64) -> u64 {
    if n < 0 {
        (n + 0x1_0000_0000_0000_0000) as u64
    } else {
        n as u64
    }
}

fn join(high: u64, low: u64) -> (res: u128)
    ensures
        res == joined(high, low),
{
    high as u128 * 0x1_0000_0000_0000_0000 + low as u128
}

fn bits(n: i64) -> (res: u64)
    ensures
        res == bits_of(n),
{
    if n < 0 {
        (n + 0x7fff_ffff_ffff_ffff + 1) as u64 + 0x8000_0000_0000_0000
    } else {
        n as u64
    }
}

proof fn lemma_joined_distinct(a: u64, b: u64, c: u64, d: u64)
    requires
        joined(a, b) == joined(c, d),
    ensures
        a == c,
        b == d,
{
}

/// A set of voxels. The columns, each given by its place along the first two
/// axes, are numbered; a voxel is kept by the number of its column and its
/// place along the third.
pub struct VoxelSet {
    columns: HashMap<u128, u64>,
    members: HashSet<u128>,
}

impl View for VoxelSet {
    type V = Set<Voxel>;

    closed spec fn view(&self) -> Set<Voxel> {
        Set::new(|v: Voxel| self.has(v))
    }
}

spec fn column_of(v: Voxel) -> u128 {
    joined(bits_of(v.0), bits_of(v.1))
}

impl VoxelSet {
    spec fn has(&self, v: Voxel) -> bool {
        &&& self.columns@.contains_key(column_of(v))
        &&& self.members@.contains(joined(self.columns@[column_of(v)], bits_of(v.2)))
    }

    /// The number of columns.
    pub closed spec fn columns(&self) -> nat {
        self.columns@.len()
    }

    /// No two columns have the same number, and no voxel is kept for a number
    /// that is yet to be given.
    pub closed spec fn wf(&self) -> bool {
        &&& forall|c: u128| #[trigger]
            self.columns@.contains_key(c) ==> self.columns@[c] < self.columns@.len()
        &&& forall|c: u128, d: u128|
            #![trigger self.columns@[c], self.columns@[d]]
            self.columns@.contains_key(c) && self.columns@.contains_key(d) && self.columns@[c]
                == self.columns@[d] ==> c == d
        &&& forall|n: u64, b: u64| #[trigger]
            self.members@.contains(joined(n, b)) ==> n < self.columns@.len()
    }

    /// No voxels.
    pub fn new() -> (res: VoxelSet)
        ensures
            res.wf(),
            res@ == Set::<Voxel>::empty(),
            res.columns() == 0,
    {
        let res = VoxelSet { columns: HashMap::new(), members: HashSet::new() };
        assert(res@ =~= Set::<Voxel>::empty());
        res
    }

    /// Adds a voxel, and tells whether it is new.
    pub fn insert(&mut self, v: Voxel) -> (res: bool)
        requires
            old(self).wf(),
            old(self).columns() < u64::MAX,
        ensures
            final(self).wf(),
            final(self)@ == old(self)@.insert(v),
            res == !old(self)@.contains(v),
            final(self).columns() <= old(self).columns() + 1,
    {
        let column: u128 = join(bits(v.0), bits(v.1));
        proof {
            assert forall|w: Voxel| #[trigger] column_of(w) == column implies w.0 == v.0 && w.1 == v.1 by {
                lemma_joined_distinct(bits_of(w.0), bits_of(w.1), bits_of(v.0), bits_of(v.1));
            }
        }
        let known: Option<u64> = match self.columns.get(&column) {
            Some(n) => Some(*n),
            None => None,
        };
        let number: u64 = match known {
            Some(n) => n,
            None => {
                let n: u64 = self.columns.len() as u64;
                self.columns.insert(column, n);
                n
            },
        };
        let key: u128 = join(number, bits(v.2));
        let ghost middle = *self;
        assert(middle@ =~= old(self)@);
        assert(middle.wf());
        let fresh: bool = self.members.insert(key);
        proof {
            assert forall|w: Voxel| #[trigger] self.has(w) <==> middle.has(w) || w == v by {
                if self.has(w) && !middle.has(w) {
                    lemma_joined_distinct(
                        self.columns@[column_of(w)],
                        bits_of(w.2),
                        number,
                        bits_of(v.2),
                    );
                }
            }
            assert forall|n: u64, b: u64| #[trigger]
                self.members@.contains(joined(n, b)) implies n < self.columns@.len() by {
                if joined(n, b) == key {
                    lemma_joined_distinct(n, b, number, bits_of(v.2));
                }
            }
            assert(self@ =~= old(self)@.insert(v));
        }
        fresh
    }
}

/// Whether a cloud is left as it is, where thinning is disabled or there is
/// nothing to thin or to thin by.
pub open spec fn left_whole(count: nat, voxel_size: Real, disabled: bool) -> bool {
    disabled || count == 0 || (!voxel_size.nan() && voxel_size.units() <= 0)
}

/// Tells whether a cloud of `count` points is left as it is.
pub fn is_left_whole(count: usize, voxel_size: Real, disabled: bool) -> (res: bool)
    ensures
        res == left_whole(count as nat, voxel_size, disabled),
{
    let zero = Real { bits: 0 };
    assert(zero.units() == 0 && !zero.nan());
    disabled || count == 0 || voxel_size.le(&zero)
}

/// The points at some indices.
pub open spec fn picked<T>(points: Seq<T>, indices: Seq<int>) -> Seq<T> {
    indices.map_values(|i: int| points[i])
}

/// What is left of a cloud.
pub open spec fn decimated<T>(
    points: Seq<T>,
    voxels: Seq<Voxel>,
    voxel_size: Real,
    disabled: bool,
) -> Seq<T> {
    if left_whole(points.len(), voxel_size, disabled) {
        points
    } else {
        picked(points, firsts(voxels))
    }
}

/// Thins a cloud: of the points in one voxel the first is kept. `voxels` tells
/// the voxel of each point; it is not looked at where the cloud is left whole.
pub fn decimate<T>(points: Vec<T>, voxels: &Vec<Voxel>, voxel_size: Real, disabled: bool) -> (res:
    Vec<T>)
    requires
        left_whole(points@.len(), voxel_size, disabled) || voxels@.len() == points@.len(),
    ensures
        res@ == decimated(points@, voxels@, voxel_size, disabled),
{
    if is_left_whole(points.len(), voxel_size, disabled) {
        return points;
    }
    let ghost all = points@;
    let mut seen = VoxelSet::new();
    let mut selected: Vec<T> = Vec::new();
    let mut i: usize = 0;
    assert(voxels@.len() == voxels.len());
    assert(selected@ =~= picked(all, firsts(voxels@.take(0))));
    for point in it: points
        invariant
            it.seq() == all,
            i == it.index(),
            voxels@.len() == all.len(),
            voxels@.len() <= usize::MAX,
            seen.wf(),
            seen.columns() <= i,
            forall|v: Voxel| #[trigger] seen@.contains(v) <==> voxels@.take(i as int).contains(v),
            selected@ == picked(all, firsts(voxels@.take(i as int))),
    {
        let voxel: Voxel = voxels[i];
        let ghost before = voxels@.take(i as int);
        let ghost after = voxels@.take(i + 1);
        let fresh: bool = seen.insert(voxel);
        proof {
            assert(after.drop_last() =~= before);
            assert(after =~= before.push(voxel));
            assert(fresh == is_first(after, i as int)) by {
                if !fresh {
                    let j = choose|j: int| 0 <= j < i && before[j] == voxel;
                    assert(after[j] == voxel);
                } else {
                    assert forall|j: int| 0 <= j < i implies #[trigger] after[j] != after[i as int] by {
                        assert(before.contains(before[j]));
                    }
                }
            }
            assert forall|v: Voxel| #[trigger] seen@.contains(v) <==> after.contains(v) by {
                vstd::seq_lib::lemma_seq_contains_after_push(before, voxel, v);
            }
            if fresh {
                assert(picked(all, firsts(after)) =~= picked(all, firsts(before)).push(
                    all[i as int],
                ));
            }
        }
        if fresh {
            selected.push(point);
        }
        i += 1;
    }
    assert(voxels@.take(voxels@.len() as int) =~= voxels@);
    selected
}

/// Every voxel of the cloud keeps a point, and it is the voxel's first.
pub proof fn lemma_voxel_kept(voxels: Seq<Voxel>, i: int) -> (k: int)
    requires
        0 <= i < voxels.len(),
    ensures
        0 <= k < firsts(voxels).len(),
        firsts(voxels)[k] <= i,
        voxels[firsts(voxels)[k]] == voxels[i],
        is_first(voxels, firsts(voxels)[k]),
    decreases voxels.len(),
{
    let n = voxels.len() - 1;
    let less = voxels.drop_last();
    if i == n && is_first(voxels, n) {
        firsts(voxels).len() - 1
    } else if i == n {
        let j = choose|j: int| 0 <= j < n && #[trigger] voxels[j] == voxels[n];
        let k = lemma_voxel_kept(less, j);
        lemma_firsts_ordered(less);
        assert(is_first(less, firsts(less)[k]));
        assert forall|m: int| 0 <= m < firsts(less)[k] implies #[trigger] voxels[m]
            != voxels[firsts(less)[k]] by {
            assert(less[m] != less[firsts(less)[k]]);
        }
        k
    } else {
        let k = lemma_voxel_kept(less, i);
        lemma_firsts_ordered(less);
        assert(less[firsts(less)[k]] == voxels[firsts(less)[k]]);
        assert forall|m: int| 0 <= m < firsts(less)[k] implies #[trigger] voxels[m]
            != voxels[firsts(less)[k]] by {
            assert(less[m] != less[firsts(less)[k]]);
        }
        k
    }
}

/// The kept points are in the order of the cloud, and no two of them are in one
/// voxel.
pub proof fn lemma_firsts_ordered(voxels: Seq<Voxel>)
    ensures
        firsts(voxels).len() <= voxels.len(),
        forall|a: int|
            0 <= a < firsts(voxels).len() ==> 0 <= #[trigger] firsts(voxels)[a] < voxels.len(),
        forall|a: int, b: int|
            0 <= a < b < firsts(voxels).len() ==> #[trigger] firsts(voxels)[a] < #[trigger] firsts(
                voxels,
            )[b] && voxels[firsts(voxels)[a]] != voxels[firsts(voxels)[b]],
    decreases voxels.len(),
{
    if voxels.len() > 0 {
        lemma_firsts_ordered(voxels.drop_last());
        assert forall|a: int, b: int| 0 <= a < b < firsts(voxels).len() implies #[trigger] firsts(
            voxels,
        )[a] < #[trigger] firsts(voxels)[b] && voxels[firsts(voxels)[a]] != voxels[firsts(voxels)[b]] by {
            let less = firsts(voxels.drop_last());
            assert(firsts(voxels)[a] == less[a]);
            if b < less.len() {
                assert(firsts(voxels)[b] == less[b]);
            }
        }
    }
}

/// A cloud with one point in each voxel keeps all its points.
pub proof fn lemma_distinct_kept(voxels: Seq<Voxel>)
    requires
        voxels.no_duplicates(),
    ensures
        firsts(voxels) == Seq::new(voxels.len(), |i: int| i),
    decreases voxels.len(),
{
    if voxels.len() > 0 {
        lemma_distinct_kept(voxels.drop_last());
        assert(is_first(voxels, voxels.len() - 1));
    }
    assert(firsts(voxels) =~= Seq::new(voxels.len(), |i: int| i));
}

/// Where thinning is not disabled and the size of a voxel is more than zero, of
/// whatever size it is and however many points there are, exactly one point of
/// every voxel is kept, the first of them, and the kept points stay in their
/// order. The same holds where the size is no number.
///
/// A size is more than zero where its sign bit is not set and its bits are not
/// all zero.
pub proof fn lemma_one_point_of_each_voxel<T>(
    points: Seq<T>,
    voxels: Seq<Voxel>,
    voxel_size: Real,
) -> (kept: Seq<int>)
    requires
        voxels.len() == points.len(),
        0 < voxel_size.bits < 0x8000_0000_0000_0000 || voxel_size.nan(),
    ensures
        decimated(points, voxels, voxel_size, false).len() == kept.len(),
        forall|k: int|
            0 <= k < kept.len() ==> 0 <= #[trigger] kept[k] < points.len() && decimated(
                points,
                voxels,
                voxel_size,
                false,
            )[k] == points[kept[k]],
        forall|j: int, k: int|
            0 <= j < k < kept.len() ==> #[trigger] kept[j] < #[trigger] kept[k] && voxels[kept[j]]
                != voxels[kept[k]],
        forall|i: int, k: int|
            0 <= i < points.len() && 0 <= k < kept.len() && #[trigger] voxels[i]
                == voxels[#[trigger] kept[k]] ==> kept[k] <= i,
        forall|i: int| 0 <= i < points.len() ==> picked(voxels, kept).contains(#[trigger] voxels[i]),
{
    if points.len() == 0 {
        Seq::empty()
    } else {
        if !voxel_size.nan() {
            lemma_magnitude_increases(0, voxel_size.magnitude());
        }
        let kept = firsts(voxels);
        lemma_firsts_ordered(voxels);
        assert forall|i: int| 0 <= i < points.len() implies picked(voxels, kept).contains(
            #[trigger] voxels[i],
        ) by {
            let k = lemma_voxel_kept(voxels, i);
            assert(picked(voxels, kept)[k] == voxels[i]);
        }
        assert forall|i: int, k: int|
            0 <= i < points.len() && 0 <= k < kept.len() && #[trigger] voxels[i]
                == voxels[#[trigger] kept[k]] implies kept[k] <= i by {
            let m = lemma_voxel_kept(voxels, i);
            assert(kept[m] <= i);
            if m < k {
                assert(kept[m] < kept[k] && voxels[kept[m]] != voxels[kept[k]]);
            } else if k < m {
                assert(kept[k] < kept[m] && voxels[kept[k]] != voxels[kept[m]]);
            }
        }
        kept
    }
}

/// A cloud is left as it is if and only if thinning is disabled, there are no
/// points, or the size of a voxel is zero or a negative number, as its bits tell.
pub proof fn lemma_left_whole(count: nat, voxel_size: Real, disabled: bool)
    ensures
        left_whole(count, voxel_size, disabled) <==> {
            ||| disabled
            ||| count == 0
            ||| voxel_size.bits == 0
            ||| 0x8000_0000_0000_0000 <= voxel_size.bits <= 0xfff0_0000_0000_0000
        },
{
    if voxel_size.magnitude() > 0 {
        lemma_magnitude_increases(0, voxel_size.magnitude());
    }
}

/// Where thinning is disabled every point is kept, whatever the size of a voxel,
/// and so it is where the size is zero or less: where the bits but for the sign
/// are all zero, or the sign bit is set and the size is a number.
pub proof fn lemma_every_point_kept<T>(
    points: Seq<T>,
    voxels: Seq<Voxel>,
    voxel_size: Real,
    disabled: bool,
)
    requires
        disabled || voxel_size.bits == 0 || 0x8000_0000_0000_0000 <= voxel_size.bits
            <= 0xfff0_0000_0000_0000,
    ensures
        decimated(points, voxels, voxel_size, disabled) == points,
{
}

} // verus!
