use std::collections::HashSet;

use voxel_octree::pathfinding::{add_cost, path_voxels, pop_cheapest, step_cost};
use voxel_octree::magica_voxel::count_voxels;
use voxel_octree::{dijkstra, write_to_vox, HeapState};

fn test_valid_manhattan_path(
    start: (usize, usize),
    end: (usize, usize),
    path: &[(usize, usize)],
) -> Result<(), String> {
    let mut visited = HashSet::new();
    if path.len() == 0 {
        return Err("Path length was zero".to_owned());
    }
    if *path.first().unwrap() != start {
        return Err(format!(
            "Path did not start at 'start'. start: {:?}, path.first(): {:?}",
            start,
            path.first().unwrap()
        ));
    }

    if *path.last().unwrap() != end {
        return Err(format!(
            "Path did not end at 'end'. end: {:?}, path.last(): {:?}",
            end,
            path.last().unwrap()
        ));
    }
    let mut prev = start;
    visited.insert(prev);
    for point in path.into_iter().skip(1) {
        if !visited.insert(*point) {
            return Err(format!("Path contained a duplicate point: {:?}", point));
        }
        match (
            (point.0 as i32 - prev.0 as i32).abs(),
            (point.1 as i32 - prev.1 as i32).abs(),
        ) {
            (1, 1) => {
                return Err(format!(
                    "Path is not 4-connected between these points: from: {:?}, to: {:?}",
                    prev, point
                ))
            }
            (0, 0) => unreachable!(
                "If `path` contains two of the same points, it should be caught by the set insertion above!"
            ),
            _ => (),
        };
        prev = *point;
    }
    Ok(())
}

/// Every step moves to a cell that shares an edge.
fn steps_share_an_edge(path: &[(usize, usize)]) -> bool {
    path.windows(2).all(|w| {
        let dx = (w[0].0 as i64 - w[1].0 as i64).abs();
        let dy = (w[0].1 as i64 - w[1].1 as i64).abs();
        dx + dy == 1
    })
}

#[test]
fn test_basic() {
    let start = (0, 0);
    let end = (9, 9);
    let height_map = vec![vec![0; 10]; 10];
    let path = dijkstra(start, end, &height_map);

    test_valid_manhattan_path(start, end, &path).unwrap();
}

#[test]
fn flat_map_path_is_shortest() {
    let height_map = vec![vec![0; 10]; 10];
    let path = dijkstra((0, 0), (9, 9), &height_map);
    assert_eq!(path.len(), 19);
    assert!(steps_share_an_edge(&path));
}

#[test]
fn start_equal_to_end_is_a_single_cell() {
    let height_map = vec![vec![3; 4]; 5];
    let path = dijkstra((2, 1), (2, 1), &height_map);
    assert_eq!(path, vec![(2, 1)]);
}

#[test]
fn single_cell_map() {
    let height_map = vec![vec![7]];
    assert_eq!(dijkstra((0, 0), (0, 0), &height_map), vec![(0, 0)]);
}

#[test]
fn single_row_walks_straight() {
    let height_map = vec![vec![0, 5, 1, 9, 2]];
    let path = dijkstra((0, 0), (0, 4), &height_map);
    assert_eq!(path, vec![(0, 0), (0, 1), (0, 2), (0, 3), (0, 4)]);
}

#[test]
fn backwards_path_is_valid() {
    let height_map = vec![vec![0; 6]; 4];
    let path = dijkstra((3, 5), (0, 0), &height_map);
    test_valid_manhattan_path((3, 5), (0, 0), &path).unwrap();
    assert!(steps_share_an_edge(&path));
    assert!(path.iter().all(|&(x, y)| x < 4 && y < 6));
}

#[test]
fn wall_is_walked_around() {
    // A ridge across the middle column with one gap at the bottom row.
    let mut height_map = vec![vec![0; 5]; 5];
    for row in height_map.iter_mut().take(4) {
        row[2] = 200;
    }
    let path = dijkstra((0, 0), (0, 4), &height_map);
    test_valid_manhattan_path((0, 0), (0, 4), &path).unwrap();
    assert!(steps_share_an_edge(&path));
    assert!(path.contains(&(4, 2)));
}

#[test]
fn rows_longer_than_the_first_are_ignored_beyond_it() {
    let height_map = vec![vec![0, 0], vec![0, 0, 9, 9], vec![0, 0, 9]];
    let path = dijkstra((0, 0), (2, 1), &height_map);
    test_valid_manhattan_path((0, 0), (2, 1), &path).unwrap();
    assert!(path.iter().all(|&(x, y)| x < 3 && y < 2));
}

#[test]
fn large_flat_map() {
    let height_map = vec![vec![1; 64]; 64];
    let path = dijkstra((0, 0), (63, 63), &height_map);
    test_valid_manhattan_path((0, 0), (63, 63), &path).unwrap();
    assert!(steps_share_an_edge(&path));
    assert_eq!(path.len(), 127);
}

#[test]
fn extreme_heights_do_not_overflow() {
    let height_map = vec![vec![i32::MIN, i32::MAX], vec![i32::MAX, i32::MIN]];
    let path = dijkstra((0, 0), (1, 1), &height_map);
    test_valid_manhattan_path((0, 0), (1, 1), &path).unwrap();
    assert_eq!(path.len(), 3);
}

#[test]
fn step_cost_is_one_plus_height_difference() {
    assert_eq!(step_cost(0, 0), 1);
    assert_eq!(step_cost(3, 10), 8);
    assert_eq!(step_cost(10, 3), 8);
    assert_eq!(step_cost(-5, 5), 11);
    assert_eq!(step_cost(i32::MIN, i32::MAX) as u64, 1u64 << 32);
}

#[test]
fn add_cost_saturates() {
    assert_eq!(add_cost(2, 3), 5);
    assert_eq!(add_cost(usize::MAX, 1), usize::MAX);
    assert_eq!(add_cost(usize::MAX - 1, 1), usize::MAX);
}

#[test]
fn pop_cheapest_takes_lowest_cost_first_come() {
    let mut frontier = vec![
        HeapState::new(5, (0, 0)),
        HeapState::new(2, (1, 1)),
        HeapState::new(9, (2, 2)),
        HeapState::new(2, (3, 3)),
    ];
    let a = pop_cheapest(&mut frontier).unwrap();
    assert_eq!((a.cost, a.position), (2, (1, 1)));
    let b = pop_cheapest(&mut frontier).unwrap();
    assert_eq!((b.cost, b.position), (2, (3, 3)));
    let c = pop_cheapest(&mut frontier).unwrap();
    assert_eq!((c.cost, c.position), (5, (0, 0)));
    let d = pop_cheapest(&mut frontier).unwrap();
    assert_eq!((d.cost, d.position), (9, (2, 2)));
    assert!(pop_cheapest(&mut frontier).is_none());
    assert!(frontier.is_empty());
}

#[test]
fn heap_state_orders_by_cost_reversed() {
    let cheap = HeapState::new(1, (0, 0));
    let dear = HeapState::new(4, (0, 0));
    let other = HeapState::new(4, (7, 7));
    assert!(cheap > dear);
    assert!(dear < cheap);
    assert!(dear == other);
    assert!(cheap != dear);
}

#[test]
fn path_voxels_walks_an_elbow() {
    assert_eq!(
        path_voxels((0, 0), (3, 2)),
        vec![(0, 0), (1, 0), (2, 0), (3, 0), (3, 1), (3, 2)]
    );
    assert_eq!(path_voxels((5, 5), (5, 5)), vec![(5, 5)]);
    assert_eq!(path_voxels((-2, 1), (0, 1)), vec![(-2, 1), (-1, 1), (0, 1)]);
    let long = path_voxels((0, 0), (100, 100));
    assert_eq!(long.len(), 201);
    assert_eq!(long[0], (0, 0));
    assert_eq!(long[100], (100, 0));
    assert_eq!(long[200], (100, 100));
}

#[test]
fn path_voxels_skips_a_leg_that_runs_backwards() {
    assert_eq!(path_voxels((3, 0), (1, 2)), vec![(1, 0), (1, 1), (1, 2)]);
    assert_eq!(path_voxels((0, 3), (2, 1)), vec![(0, 3), (1, 3)]);
    assert!(path_voxels((2, 3), (1, 1)).is_empty());
    assert_eq!(
        path_voxels((i32::MAX - 1, i32::MAX - 1), (i32::MAX, i32::MAX)),
        vec![
            (i32::MAX - 1, i32::MAX - 1),
            (i32::MAX, i32::MAX - 1),
            (i32::MAX, i32::MAX)
        ]
    );
}

#[test]
fn synthetic_height_map_256_256() {
    // Rolling hills with some noise on top, capped so that the path can sit
    // one above the ground.
    let mut seed: u32 = 12345;
    let height_map: Vec<Vec<i32>> = (0..256)
        .map(|x: i32| {
            (0..256)
                .map(|y: i32| {
                    seed = seed.wrapping_mul(1664525).wrapping_add(1013904223);
                    let noise = (seed >> 28) as i32;
                    (((x / 8) * (y / 8)) % 200 + noise).min(254)
                })
                .collect()
        })
        .collect();

    assert!(height_map.len() == 256 && height_map[0].len() == 256);

    let start = (0, 0);
    let end = (255, 255);
    let path = dijkstra(start, end, &height_map);

    test_valid_manhattan_path(start, end, &path).unwrap();
    assert!(steps_share_an_edge(&path));

    let path_3d = path
        .iter()
        .map(|&(x, y)| (x, y, height_map[x][y] as usize + 1))
        .collect::<Vec<_>>();
    let height_map_3d = height_map
        .iter()
        .enumerate()
        .flat_map(|(x, col_points)| {
            col_points
                .iter()
                .enumerate()
                .map(|(y, z)| (x, y, *z as usize))
                .collect::<Vec<_>>()
        })
        .collect::<Vec<_>>();
    let layers = vec![path_3d, height_map_3d];
    let count = count_voxels(&layers).unwrap() as usize;
    assert_eq!(count, path.len() + 256 * 256);
    let bytes = write_to_vox((256, 256, 256), &layers);
    assert_eq!(bytes.len(), 8 + 12 + 40 + 4 * count);
    assert_eq!(&bytes[0..4], b"VOX ");
    // The first voxel of the path: the start, one above its ground, in the
    // first layer's colour.
    assert_eq!(
        &bytes[60..64],
        &[0, 0, (height_map[0][0] + 1) as u8, 50]
    );
    // The last voxel of the height map, in the second layer's colour.
    assert_eq!(
        &bytes[bytes.len() - 4..],
        &[255, 255, height_map[255][255] as u8, 100]
    );
}
