//! Runs: the points of a cloud sorted by leaf, as many at a time as memory
//! allows.

use vstd::prelude::*;
use crate::groups::{grouped, items_of, TileGroups};
use crate::tiles::TileCoord;

verus! {

/// The number of points of a run, given the memory for it in mebibytes and the
/// size of a point in bytes.
pub open spec fn run_points(max_memory_mb: int, point_size: int) -> int {
    let bytes = (if max_memory_mb < 1 {
        1
    } else {
        max_memory_mb
    }) * 0x10_0000;
    let points = bytes / point_size;
    if points < 10_000 {
        10_000
    } else if points > 1_000_000 {
        1_000_000
    } else {
        points
    }
}

/// The number of points of a run.
pub fn max_points(max_memory_mb: usize, point_size: usize) -> (res: usize)
    requires
        max_memory_mb * 0x10_0000 <= usize::MAX,
        point_size > 0,
    ensures
        res == run_points(max_memory_mb as int, point_size as int),
        10_000 <= res <= 1_000_000,
{
    let megabytes: usize = if max_memory_mb < 1 {
        1
    } else {
        max_memory_mb
    };
    let points: usize = (megabytes * 1024 * 1024) / point_size;
    if points < 10_000 {
        10_000
    } else if points > 1_000_000 {
        1_000_000
    } else {
        points
    }
}

/// The points of a run, sorted by leaf.
pub struct Run<T> {
    /// The number of runs before this one.
    pub index: usize,
    /// The leaves that points of the run lie in, with these points.
    pub buckets: Vec<(TileCoord, Vec<T>)>,
}

/// Where the sorting into runs stands.
pub struct RunsState<T> {
    /// The number of points of a run.
    pub limit: nat,
    /// The number of runs that are complete.
    pub runs: nat,
    /// The points since, each with its leaf.
    pub points: Seq<(TileCoord, T)>,
}

/// Sorts points into runs.
pub struct RunBuffer<T> {
    max_points: usize,
    run_index: usize,
    buffered: usize,
    buckets: TileGroups<T>,
}

impl<T> View for RunBuffer<T> {
    type V = RunsState<T>;

    closed spec fn view(&self) -> RunsState<T> {
        RunsState {
            limit: self.max_points as nat,
            runs: self.run_index as nat,
            points: self.buckets@,
        }
    }
}

impl<T> RunBuffer<T> {
    /// The points are counted, and there are fewer than make a run.
    pub closed spec fn wf(&self) -> bool {
        &&& self.buckets.wf()
        &&& self.buffered == self.buckets@.len()
        &&& self.buffered < self.max_points
    }

    /// No points yet.
    pub fn new(max_points: usize) -> (res: RunBuffer<T>)
        requires
            max_points > 0,
        ensures
            res.wf(),
            res@ == (RunsState::<T> { limit: max_points as nat, runs: 0, points: Seq::empty() }),
    {
        RunBuffer { max_points, run_index: 0, buffered: 0, buckets: TileGroups::new() }
    }

    /// Adds a point that lies in a leaf. The point that makes a run complete
    /// gives the run.
    pub fn push(&mut self, leaf: TileCoord, point: T) -> (res: Option<Run<T>>)
        requires
            old(self).wf(),
            old(self)@.runs < usize::MAX,
        ensures
            final(self).wf(),
            ({
                let points = old(self)@.points.push((leaf, point));
                if points.len() < old(self)@.limit {
                    &&& res is None
                    &&& final(self)@ == (RunsState { points, ..old(self)@ })
                } else {
                    &&& res matches Some(run) && run.index == old(self)@.runs && grouped(
                        points,
                        run.buckets@,
                    )
                    &&& final(self)@ == (RunsState::<T> {
                        limit: old(self)@.limit,
                        runs: old(self)@.runs + 1,
                        points: Seq::empty(),
                    })
                }
            }),
    {
        self.buckets.push(leaf, point);
        self.buffered = self.buffered + 1;
        if self.buffered >= self.max_points {
            let mut full: TileGroups<T> = TileGroups::new();
            std::mem::swap(&mut full, &mut self.buckets);
            let index: usize = self.run_index;
            self.run_index = index + 1;
            self.buffered = 0;
            Some(Run { index, buckets: full.into_groups() })
        } else {
            None
        }
    }

    /// The run of the points that are left.
    pub fn finish(self) -> (res: Run<T>)
        requires
            self.wf(),
        ensures
            res.index == self@.runs,
            grouped(self@.points, res.buckets@),
    {
        Run { index: self.run_index, buckets: self.buckets.into_groups() }
    }
}

/// What the groups hold for a tile.
pub open spec fn held<T>(groups: Seq<(TileCoord, Vec<T>)>, t: TileCoord) -> Seq<T> {
    if exists|i: int| 0 <= i < groups.len() && (#[trigger] groups[i]).0 == t {
        groups[choose|i: int| 0 <= i < groups.len() && (#[trigger] groups[i]).0 == t].1@
    } else {
        Seq::empty()
    }
}

/// What the runs hold for a tile, run after run.
pub open spec fn held_in_runs<T>(runs: Seq<Run<T>>, t: TileCoord) -> Seq<T>
    decreases runs.len(),
{
    if runs.len() == 0 {
        Seq::empty()
    } else {
        held_in_runs(runs.drop_last(), t) + held(runs.last().buckets@, t)
    }
}

/// The points of all the runs, run after run.
pub open spec fn all_points<T>(points: Seq<Seq<(TileCoord, T)>>) -> Seq<(TileCoord, T)>
    decreases points.len(),
{
    if points.len() == 0 {
        Seq::empty()
    } else {
        all_points(points.drop_last()) + points.last()
    }
}

/// The runs together hold the points of every leaf, each point once and in the
/// order in which the points came.
pub proof fn lemma_runs_hold_all<T>(
    points: Seq<Seq<(TileCoord, T)>>,
    runs: Seq<Run<T>>,
    leaf: TileCoord,
)
    requires
        points.len() == runs.len(),
        forall|i: int| 0 <= i < runs.len() ==> grouped(points[i], (#[trigger] runs[i]).buckets@),
    ensures
        held_in_runs(runs, leaf) == items_of(all_points(points), leaf),
    decreases runs.len(),
{
    if runs.len() > 0 {
        let last = runs.last().buckets@;
        assert(grouped(points.last(), last));
        assert forall|i: int| 0 <= i < runs.len() - 1 implies grouped(
            points.drop_last()[i],
            (#[trigger] runs.drop_last()[i]).buckets@,
        ) by {
            assert(runs.drop_last()[i] == runs[i]);
        }
        lemma_runs_hold_all(points.drop_last(), runs.drop_last(), leaf);
        crate::groups::lemma_items_of_joined(all_points(points.drop_last()), points.last(), leaf);
        assert(held(last, leaf) =~= items_of(points.last(), leaf));
    }
}

/// A run has 10 000 points at least and 1 000 000 at most. Between these it has
/// as many as the memory holds: they fit, and one more would not. A mebibyte at
/// least is counted on.
pub proof fn lemma_run_points(max_memory_mb: int, point_size: int)
    requires
        point_size > 0,
    ensures
        ({
            let n = run_points(max_memory_mb, point_size);
            let megabytes = if max_memory_mb >= 1 {
                max_memory_mb
            } else {
                1
            };
            let bytes = megabytes * 1024 * 1024;
            &&& 10_000 <= n <= 1_000_000
            &&& n == 10_000 || n * point_size <= bytes
            &&& n == 1_000_000 || (n + 1) * point_size > bytes
        }),
{
    let megabytes = if max_memory_mb >= 1 {
        max_memory_mb
    } else {
        1
    };
    let bytes = megabytes * 1024 * 1024;
    assert(bytes == megabytes * 0x10_0000);
    vstd::arithmetic::div_mod::lemma_fundamental_div_mod(bytes, point_size);
    let q = bytes / point_size;
    let r = bytes % point_size;
    let n = run_points(max_memory_mb, point_size);
    assert(n == if q < 10_000 {
        10_000
    } else if q > 1_000_000 {
        1_000_000
    } else {
        q
    });
    assert(q * point_size <= bytes < (q + 1) * point_size) by (nonlinear_arith)
        requires
            bytes == point_size * q + r,
            0 <= r < point_size,
    ;
    if q < 10_000 {
        assert((q + 1) * point_size <= (n + 1) * point_size) by (nonlinear_arith)
            requires
                q < n,
                point_size > 0,
        ;
    }
    if q > 1_000_000 {
        assert(n * point_size <= q * point_size) by (nonlinear_arith)
            requires
                q > n,
                point_size > 0,
        ;
    }
}

impl<T> RunBuffer<T> {
    /// Fewer points are held back than make a run, so that every run but the last
    /// has as many points as a run has.
    pub proof fn lemma_fewer_than_a_run(&self)
        requires
            self.wf(),
        ensures
            self@.points.len() < self@.limit,
    {
    }
}

} // verus!
