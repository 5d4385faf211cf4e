use point_tiler::aggregate::join_lists;
use point_tiler::binary64::Real;
use point_tiler::bounds::{bounds_of, Bounds, BoundsScan, ScanError};
use point_tiler::decimate::{decimate, is_left_whole, VoxelSet};
use point_tiler::groups::{group_by_parent, TileGroups};
use point_tiler::histogram::Histogram;
use point_tiler::leaves::{adaptive_leaves, leaf_for, MAX_POINTS_PER_TILE};
use point_tiler::paths::{
    level_pattern, parse_tile_path, run_path, runs_pattern, tile_path, tile_uri,
};
use point_tiler::point::{Color, Point, PointAttributes};
use point_tiler::runs::{max_points, RunBuffer};
use point_tiler::tiles::{parent, tile_at, TileCoord, TileMap, TileSet};
use point_tiler::tree::{TileInfo, TilesetTile, TreeNode};

fn bits_of(v: f64) -> Real {
    Real { bits: v.to_bits() }
}

fn point(x: f64, y: f64, z: f64) -> Point {
    Point {
        x: bits_of(x),
        y: bits_of(y),
        z: bits_of(z),
        color: Color { r: 0, g: 0, b: 0 },
        attributes: PointAttributes::with_intensity(None),
    }
}

fn counts(entries: &[(TileCoord, u64)]) -> TileMap {
    let mut counts = TileMap::new();
    for (tile, n) in entries {
        counts.count(*tile, *n);
    }
    counts
}

fn sorted(mut tiles: Vec<TileCoord>) -> Vec<TileCoord> {
    tiles.sort();
    tiles
}

#[test]
fn adaptive_tree_splits_busy_nodes_and_preserves_sparse_nodes() {
    let counts = counts(&[((2, 0, 0), 80_000), ((2, 1, 0), 80_000), ((2, 3, 3), 10)]);
    let leaves = adaptive_leaves(&counts, 2);
    assert!(leaves.contains((2, 0, 0)));
    assert!(leaves.contains((2, 1, 0)));
    assert!(leaves.contains((1, 1, 1)));
    assert_eq!(leaves.tiles().len(), 3);
}

#[test]
fn grid_clamps_max_bound_to_last_cell() {
    let (min, max) = ([0.0f64; 3], [8.0f64, 2.0, 1.0]);
    let span = (max[0] - min[0]).max(max[1] - min[1]).max(f64::EPSILON);
    let raw = |value: f64, min: f64| ((value - min) / span * 8.0).floor() as i64;
    assert_eq!(tile_at(3, raw(8.0, min[0]), raw(2.0, min[1])), (3, 7, 2));
}

#[test]
fn cells_are_kept_inside_the_grid() {
    assert_eq!(tile_at(0, -5, 7), (0, 0, 0));
    assert_eq!(tile_at(4, i64::MIN, i64::MAX), (4, 0, 15));
    assert_eq!(tile_at(32, i64::MAX, 5), (32, u32::MAX, 5));
    assert_eq!(tile_at(40, (1 << 33) + 3, 1 << 32), (40, 3, 0));
}

#[test]
fn the_levels_nest() {
    let raws = [i64::MIN, -7, -1, 0, 1, 6, 7, 8, 100, (1 << 32) - 1, 1 << 32, i64::MAX];
    for depth in [0u8, 1, 2, 7, 30, 31] {
        for x in raws {
            for y in raws {
                let inner = tile_at(depth + 1, x, y);
                let outer = tile_at(depth, x.div_euclid(2), y.div_euclid(2));
                assert_eq!(parent(inner), outer);
                assert!((outer.1 as u64) < 1 << depth && (outer.2 as u64) < 1 << depth);
            }
        }
    }
}

#[test]
fn a_tile_is_a_quarter_of_its_parent() {
    assert_eq!(parent((3, 7, 2)), (2, 3, 1));
    assert_eq!(parent((1, 0, 1)), (0, 0, 0));
}

#[test]
fn few_points_make_the_root_a_leaf() {
    let leaves = adaptive_leaves(&counts(&[((3, 7, 7), 5), ((3, 0, 0), 6)]), 3);
    assert_eq!(leaves.tiles(), vec![(0, 0, 0)]);
    assert!(adaptive_leaves(&counts(&[]), 3).tiles().is_empty());
    assert!(adaptive_leaves(&counts(&[((3, 1, 1), 0)]), 3).tiles().is_empty());
}

#[test]
fn the_limit_itself_is_not_split() {
    let at = adaptive_leaves(&counts(&[((1, 0, 0), MAX_POINTS_PER_TILE - 1), ((1, 1, 1), 1)]), 1);
    assert_eq!(at.tiles(), vec![(0, 0, 0)]);
    let over = adaptive_leaves(&counts(&[((1, 0, 0), MAX_POINTS_PER_TILE), ((1, 1, 1), 1)]), 1);
    assert_eq!(sorted(over.tiles()), vec![(1, 0, 0), (1, 1, 1)]);
    let deepest = adaptive_leaves(&counts(&[((1, 0, 0), 10 * MAX_POINTS_PER_TILE)]), 1);
    assert_eq!(deepest.tiles(), vec![(1, 0, 0)]);
}

#[test]
fn every_counted_tile_lies_in_one_leaf() {
    let mut histogram = Histogram::new(3);
    let mut tiles = Vec::new();
    for i in 0..8u32 {
        let tile = (3, i, (i * i) % 8);
        tiles.push(tile);
        for _ in 0..(if i == 0 { 100_001 } else { 9 }) {
            histogram.count(tile);
        }
    }
    let leaves = histogram.leaves();
    let all = leaves.tiles();
    for tile in tiles {
        let leaf = leaf_for(tile, &leaves);
        let around: Vec<&TileCoord> = all
            .iter()
            .filter(|l| l.1 == tile.1 >> (3 - l.0) && l.2 == tile.2 >> (3 - l.0))
            .collect();
        assert_eq!(around, vec![&leaf]);
    }
    assert_eq!(leaf_for((3, 0, 0), &leaves), (3, 0, 0));
    assert_eq!(leaf_for((3, 4, 0), &leaves), (1, 1, 0));
}

#[test]
fn leaves_hold_every_point_once() {
    let mut histogram = Histogram::new(4);
    let mut counted: Vec<(TileCoord, u64)> = Vec::new();
    for i in 0..16u32 {
        let tile = (4, i, (7 * i + 3) % 16);
        let n = if i % 5 == 0 { 60_000 } else { i as u64 };
        for _ in 0..n {
            histogram.count(tile);
        }
        counted.push((tile, n));
    }
    let leaves = histogram.leaves();
    let mut sums = TileMap::new();
    for (tile, n) in &counted {
        if *n > 0 {
            sums.count(leaf_for(*tile, &leaves), *n);
        }
    }
    assert_eq!(sorted(sums.tiles()), sorted(leaves.tiles()));
    let total: u64 = sums.tiles().iter().map(|t| sums.get(*t)).sum();
    assert_eq!(total, counted.iter().map(|(_, n)| n).sum::<u64>());
    assert!(sums.all_at_most(MAX_POINTS_PER_TILE));
}

#[test]
fn the_search_for_a_depth_stops_at_small_tiles_or_the_maximum() {
    let mut histogram = Histogram::new(2);
    for _ in 0..=MAX_POINTS_PER_TILE {
        histogram.count((2, 1, 1));
    }
    assert_eq!(histogram.next_depth(5), Some(3));
    assert_eq!(histogram.next_depth(2), None);
    assert_eq!(Histogram::new(2).next_depth(5), None);
}

#[test]
fn the_smallest_leaf_is_found() {
    let mut leaves = TileSet::new();
    leaves.insert((0, 0, 0));
    leaves.insert((2, 3, 1));
    assert_eq!(leaf_for((4, 12, 7), &leaves), (2, 3, 1));
    assert_eq!(leaf_for((4, 11, 7), &leaves), (0, 0, 0));
}

#[test]
fn tile_maps_and_sets_tell_all_coordinates_apart() {
    let mut map = TileMap::new();
    let mut set = TileSet::new();
    let tiles = [(0, 0, 1), (0, 1, 0), (1, 0, 0), (255, u32::MAX, u32::MAX), (254, u32::MAX, u32::MAX)];
    for (i, t) in tiles.iter().enumerate() {
        assert_eq!(map.find(*t), None);
        assert!(!set.contains(*t));
        map.put(*t, i as u64);
        set.insert(*t);
    }
    for (i, t) in tiles.iter().enumerate() {
        assert_eq!(map.find(*t), Some(i as u64));
        assert!(set.contains(*t));
    }
    assert_eq!(map.get((9, 9, 9)), 0);
    assert_eq!(sorted(map.tiles()), sorted(tiles.to_vec()));
    assert_eq!(sorted(set.tiles()), sorted(tiles.to_vec()));
    assert_eq!(sorted(map.tiles_on(0)), vec![(0, 0, 1), (0, 1, 0)]);
    assert!(map.all_at_most(4));
    assert!(!map.all_at_most(3));
    assert_eq!(map.duplicate().tiles().len(), 5);
}

#[test]
fn tile_paths_lead_back_to_their_tiles() {
    assert_eq!(tile_path((3, 5, 7)), "3/5/7.bin");
    assert_eq!(tile_uri((3, 5, 7)), "3/5/7.glb");
    assert_eq!(run_path((3, 5, 7), 12), "3/5/7/run-12.bin");
    assert_eq!(runs_pattern((3, 5, 7)), "3/5/7/*.bin");
    assert_eq!(level_pattern(18), "18/**/*.bin");
    for tile in [(0, 0, 0), (255, u32::MAX, 10), (7, 120, u32::MAX)] {
        for root in ["", "/tmp/x", "a/b.c/./d", "9/8/7.bin"] {
            let path = format!("{root}/{}", tile_path(tile));
            assert_eq!(parse_tile_path(&path), Some(tile));
        }
    }
}

#[test]
fn other_paths_lead_to_no_tile() {
    assert_eq!(parse_tile_path("1//2/./3.a.bin"), None);
    assert_eq!(parse_tile_path("//1//2/./3"), Some((1, 2, 3)));
    assert_eq!(parse_tile_path("+1/2/+3.bin"), Some((1, 2, 3)));
    for path in ["", "2/3.bin", "./2/3.bin", "256/2/3.bin", "1/x/3.bin", "1/2/.bin", "1/2/..", "1/4294967296/3"] {
        assert_eq!(parse_tile_path(path), None, "{path}");
    }
}

#[test]
fn runs_hold_every_point_once_in_order() {
    let mut buffer = RunBuffer::new(3);
    let mut runs = Vec::new();
    let pushed: Vec<(TileCoord, u32)> = (0..10u32).map(|i| ((1, i % 2, 0), i)).collect();
    for (tile, value) in &pushed {
        if let Some(run) = buffer.push(*tile, *value) {
            assert_eq!(run.buckets.iter().map(|(_, b)| b.len()).sum::<usize>(), 3);
            runs.push(run);
        }
    }
    runs.push(buffer.finish());
    assert_eq!(runs.iter().map(|r| r.index).collect::<Vec<_>>(), vec![0, 1, 2, 3]);
    for leaf in [(1, 0, 0), (1, 1, 0)] {
        let held: Vec<u32> = runs
            .iter()
            .flat_map(|r| r.buckets.iter().filter(|(t, _)| *t == leaf).flat_map(|(_, b)| b.clone()))
            .collect();
        let expected: Vec<u32> = pushed.iter().filter(|(t, _)| *t == leaf).map(|(_, v)| *v).collect();
        assert_eq!(held, expected);
    }
    let empty: RunBuffer<u8> = RunBuffer::new(1);
    assert!(empty.finish().buckets.is_empty());
}

#[test]
fn the_memory_for_a_run_is_kept_in_bounds() {
    assert_eq!(max_points(0, 100), 10_485);
    assert_eq!(max_points(1, 100), 10_485);
    assert_eq!(max_points(1, 1000), 10_000);
    assert_eq!(max_points(4096, 100), 1_000_000);
    assert_eq!(max_points(10, 100), 104_857);
}

#[test]
fn tiles_are_grouped_by_parent() {
    let tiles = vec![(2, 0, 0), (2, 3, 3), (2, 1, 1), (2, 2, 3), (2, 0, 2)];
    let groups = group_by_parent(&tiles);
    assert_eq!(
        groups,
        vec![((1, 0, 0), vec![0, 2]), ((1, 1, 1), vec![1, 3]), ((1, 0, 1), vec![4])]
    );
    let nothing: TileGroups<u8> = TileGroups::new();
    assert!(nothing.into_groups().is_empty());
}

#[test]
fn lists_are_put_one_behind_the_other() {
    assert_eq!(join_lists(vec![vec![1, 2], vec![], vec![3], vec![1]]), vec![1, 2, 3, 1]);
    assert_eq!(join_lists(Vec::<Vec<u8>>::new()), Vec::<u8>::new());
}

#[test]
fn larger_tiles_gather_the_points_of_their_leaves() {
    let leaves: Vec<(TileCoord, Vec<u32>)> = vec![
        ((3, 0, 0), vec![1, 2]),
        ((3, 1, 0), vec![3]),
        ((3, 1, 1), vec![]),
        ((2, 1, 1), vec![4, 4]),
        ((1, 1, 0), vec![5]),
        ((3, 7, 7), vec![6, 7]),
    ];
    let mut kept: Vec<(TileCoord, Vec<u32>)> = leaves.clone();
    for level in (1..=3u8).rev() {
        let below: Vec<(TileCoord, Vec<u32>)> =
            kept.iter().filter(|(t, _)| t.0 == level).cloned().collect();
        let tiles: Vec<TileCoord> = below.iter().map(|(t, _)| *t).collect();
        for (tile, children) in group_by_parent(&tiles) {
            let parts: Vec<Vec<u32>> = children.iter().map(|i| below[*i].1.clone()).collect();
            assert!(kept.iter().all(|(t, _)| *t != tile));
            kept.push((tile, decimate(join_lists(parts), &vec![], bits_of(1.0), true)));
        }
    }
    assert_eq!(kept.len(), leaves.len() + 5);
    for (tile, points) in &mut kept {
        let mut expected: Vec<u32> = leaves
            .iter()
            .filter(|(l, _)| {
                tile.0 <= l.0 && l.1 >> (l.0 - tile.0) == tile.1 && l.2 >> (l.0 - tile.0) == tile.2
            })
            .flat_map(|(_, p)| p.clone())
            .collect();
        expected.sort();
        points.sort();
        assert_eq!(*points, expected, "{tile:?}");
    }
}

#[test]
fn one_point_of_each_voxel_is_kept() {
    let voxels = vec![(0, 0, 0), (0, 0, 1), (0, 0, 0), (-1, 0, 0), (0, 0, 1), (i64::MIN, i64::MAX, -1)];
    let kept = decimate(vec!['a', 'b', 'c', 'd', 'e', 'f'], &voxels, bits_of(0.5), false);
    assert_eq!(kept, vec!['a', 'b', 'd', 'f']);
    assert_eq!(decimate(vec!['a', 'b'], &vec![], bits_of(0.5), true), vec!['a', 'b']);
    assert_eq!(decimate(vec!['a', 'b'], &vec![], bits_of(0.0), false), vec!['a', 'b']);
    assert_eq!(decimate(vec!['a', 'b'], &vec![], bits_of(-1.0), false), vec!['a', 'b']);
    assert_eq!(decimate(Vec::<char>::new(), &vec![], bits_of(1.0), false), vec![]);
    assert!(is_left_whole(3, bits_of(-0.0), false));
    assert!(!is_left_whole(3, bits_of(f64::NAN), false));
    assert!(!is_left_whole(3, bits_of(5e-324), false));
    let mut set = VoxelSet::new();
    assert!(set.insert((1, 2, 3)));
    assert!(set.insert((2, 1, 3)));
    assert!(!set.insert((1, 2, 3)));
    assert!(set.insert((-1, 2, 3)));
}

#[test]
fn bounds_hold_the_points() {
    let mut scan = BoundsScan::new();
    assert_eq!(scan.finish().unwrap_err(), ScanError::Empty);
    for (x, y, z) in [(1.0, -2.0, 0.0), (-1.5, 7.25, 0.0), (0.0, 0.0, -1e300)] {
        scan.include_point(&point(x, y, z)).unwrap();
    }
    for bad in [f64::NAN, f64::INFINITY, f64::NEG_INFINITY] {
        assert_eq!(scan.include_point(&point(1.0, bad, 0.0)).unwrap_err(), ScanError::NotFinite);
    }
    let (bounds, count) = scan.finish().unwrap();
    assert_eq!(count, 3);
    assert_eq!(bounds.min, [bits_of(-1.5), bits_of(-2.0), bits_of(-1e300)]);
    assert_eq!(bounds.max, [bits_of(1.0), bits_of(7.25), bits_of(0.0)]);
    assert_eq!(ScanError::NotFinite.message(), "Cartesian point coordinates must be finite");
    assert_eq!(ScanError::Empty.message(), "input point cloud is empty");
}

#[test]
fn bounds_of_a_list_of_points() {
    let bounds = bounds_of(&vec![point(1.0, -2.0, 5.0), point(-3.0, 4.0, 5.0)]);
    assert_eq!(bounds.min, [bits_of(-3.0), bits_of(-2.0), bits_of(5.0)]);
    assert_eq!(bounds.max, [bits_of(1.0), bits_of(4.0), bits_of(5.0)]);
    let none = bounds_of(&vec![]);
    assert_eq!((none.min[0], none.max[0]), (bits_of(f64::MAX), bits_of(f64::MIN)));
}

#[test]
fn bounds_grow_to_take_in_others() {
    let mut bounds = Bounds::empty();
    assert_eq!(bounds.min, [bits_of(f64::MAX); 3]);
    assert_eq!(bounds.max, [bits_of(f64::MIN); 3]);
    bounds.include_point(&point(1.0, 2.0, 3.0));
    bounds.include_bounds(Bounds {
        min: [bits_of(0.0), bits_of(2.5), bits_of(-1.0)],
        max: [bits_of(0.5), bits_of(9.0), bits_of(3.0)],
    });
    assert_eq!(bounds.min, [bits_of(0.0), bits_of(2.0), bits_of(-1.0)]);
    assert_eq!(bounds.max, [bits_of(1.0), bits_of(9.0), bits_of(3.0)]);
    bounds.include_point(&point(f64::NAN, 2.0, 3.0));
    assert_eq!(bounds.min[0], bits_of(0.0));
}

fn info(coord: TileCoord, low: f64, high: f64) -> TileInfo {
    TileInfo {
        coord,
        uri: tile_uri(coord),
        bounds: Bounds { min: [bits_of(low); 3], max: [bits_of(high); 3] },
    }
}

fn outline(tile: &TilesetTile) -> String {
    let children: Vec<String> = tile.children.iter().map(outline).collect();
    format!("{}[{}]", tile.uri.clone().unwrap_or_default(), children.join(","))
}

#[test]
fn the_tree_becomes_a_tileset() {
    let mut tree = TreeNode::new();
    tree.insert(info((2, 3, 2), 5.0, 6.0));
    tree.insert(info((2, 2, 3), -1.0, 2.0));
    tree.insert(info((1, 0, 1), 3.0, 9.0));
    tree.insert(info((1, 0, 0), 0.0, 1.0));
    tree.insert(info((0, 0, 0), 4.0, 4.0));
    let tile = tree.into_tile();
    assert_eq!(
        outline(&tile),
        "0/0/0.glb[1/0/0.glb[],1/0/1.glb[],[2/2/3.glb[],2/3/2.glb[]]]"
    );
    assert_eq!(tile.bounds.min, [bits_of(-1.0); 3]);
    assert_eq!(tile.bounds.max, [bits_of(9.0); 3]);
    assert_eq!(tile.children[2].bounds.min, [bits_of(-1.0); 3]);
    assert_eq!(tile.children[2].bounds.max, [bits_of(6.0); 3]);
}

#[test]
fn a_tile_inserted_again_replaces_the_first() {
    let mut tree = TreeNode::new();
    tree.insert(info((1, 1, 0), 0.0, 1.0));
    tree.insert(TileInfo { uri: "other".to_string(), ..info((1, 1, 0), 2.0, 3.0) });
    let tile = tree.into_tile();
    assert_eq!(outline(&tile), "[other[]]");
    assert_eq!(tile.bounds.min, [bits_of(2.0); 3]);
}

#[test]
fn the_deepest_level_of_the_tree_is_reached() {
    let mut tree = TreeNode::new();
    tree.insert(info((32, u32::MAX, 0), 0.0, 1.0));
    let mut depth = 0;
    let mut tile = tree.into_tile();
    while let Some(child) = tile.children.pop() {
        depth += 1;
        tile = child;
    }
    assert_eq!(depth, 32);
    assert_eq!(tile.uri, Some("32/4294967295/0.glb".to_string()));
}
