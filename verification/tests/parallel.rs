use cpu_path_tracing::parallel::{
    chunk_plan, div_ceil_usize, resolve_thread_count, tile_area, tile_row_offset, tiles,
};

#[test]
fn div_ceil_rounds_up() {
    assert_eq!(div_ceil_usize(0, 4), 0);
    assert_eq!(div_ceil_usize(1, 4), 1);
    assert_eq!(div_ceil_usize(8, 4), 2);
    assert_eq!(div_ceil_usize(9, 4), 3);
    assert_eq!(div_ceil_usize(usize::MAX, 1), usize::MAX);
    assert_eq!(div_ceil_usize(usize::MAX, 2), usize::MAX / 2 + 1);
}

#[test]
fn chunk_plan_values() {
    let p = chunk_plan(100, 4, 16);
    assert_eq!((p.chunk_size, p.task_count), (2, 50));
    let p = chunk_plan(1000, 8, 1);
    assert_eq!((p.chunk_size, p.task_count), (125, 8));
    let p = chunk_plan(3, 8, 16);
    assert_eq!((p.chunk_size, p.task_count), (1, 3));
    let p = chunk_plan(0, 8, 16);
    assert_eq!((p.chunk_size, p.task_count), (1, 0));
    let p = chunk_plan(10, 3, 1);
    assert_eq!((p.chunk_size, p.task_count), (4, 3));
    assert_eq!(p.chunk_len(10, 2), 2);
}

#[test]
fn chunk_plan_covers_every_element_once() {
    for len in 0..200usize {
        for workers in 1..6usize {
            for tasks in [1usize, 2, 16] {
                let p = chunk_plan(len, workers, tasks);
                assert!(p.task_count <= workers * tasks);
                let mut seen = vec![0u32; len];
                for chunk in 0..p.task_count {
                    let n = p.chunk_len(len, chunk);
                    assert!(n >= 1);
                    for local in 0..n {
                        let x = p.element_index(len, chunk, local);
                        assert_eq!(x, chunk * p.chunk_size + local);
                        seen[x] += 1;
                    }
                }
                assert!(seen.iter().all(|&c| c == 1));
            }
        }
    }
}

#[test]
fn tiles_row_by_row() {
    let t = tiles(5, 3, 2);
    assert_eq!(t.len(), 6);
    let shapes: Vec<(usize, usize, usize, usize)> =
        t.iter().map(|t| (t.x, t.y, t.width, t.height)).collect();
    assert_eq!(
        shapes,
        vec![(0, 0, 2, 2), (2, 0, 2, 2), (4, 0, 1, 2), (0, 2, 2, 1), (2, 2, 2, 1), (4, 2, 1, 1)]
    );
    assert!(tiles(0, 7, 3).is_empty());
    assert!(tiles(7, 0, 3).is_empty());
    assert_eq!(tiles(4, 4, 10).len(), 1);
}

#[test]
fn tiles_cover_grid_without_overlap() {
    for width in 1..12usize {
        for height in 1..9usize {
            for side in 1..6usize {
                let t = tiles(width, height, side);
                let mut hits = vec![0u32; width * height];
                for tile in &t {
                    assert!(tile.width >= 1 && tile.height >= 1);
                    for ly in 0..tile.height {
                        let offset = tile_row_offset(width, height, *tile, ly);
                        assert_eq!(offset, (tile.y + ly) * width + tile.x);
                        for e in offset..offset + tile.width {
                            hits[e] += 1;
                        }
                    }
                }
                assert!(hits.iter().all(|&h| h == 1), "{width}x{height} side {side}");
            }
        }
    }
}

#[test]
fn tile_area_per_task() {
    assert_eq!(tile_area(1920, 1080, 8, 16), 16200);
    assert_eq!(tile_area(10, 10, 3, 1), 34);
    assert_eq!(tile_area(1, 1, 64, 16), 1);
}

#[test]
fn thread_count_resolution() {
    assert_eq!(resolve_thread_count(3, Some(16)), 3);
    assert_eq!(resolve_thread_count(0, Some(16)), 16);
    assert_eq!(resolve_thread_count(0, None), 1);
}
