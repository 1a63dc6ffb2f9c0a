use entitiles::math::{TileArea, TileIndex};
use entitiles::path::{PathTile, PathTilemap};
use entitiles::pathfinding::{Path, PathFailure, PathFinder, PathResult};

fn open_grid(w: u32, h: u32, cost: u32) -> PathTilemap {
    let mut g = PathTilemap::new();
    g.fill_path_rect(TileArea::new(TileIndex::new(0, 0), w, h), PathTile { cost });
    g
}

fn request(ox: i32, oy: i32, dx: i32, dy: i32, diag: bool, max_steps: Option<u32>) -> PathFinder {
    PathFinder {
        origin: TileIndex::new(ox, oy),
        dest: TileIndex::new(dx, dy),
        allow_diagonal: diag,
        max_steps,
    }
}

fn expect_path(r: PathResult) -> Path {
    match r {
        PathResult::Succeeded(p) => p,
        PathResult::Failed(f) => panic!("expected a path, got {:?}", f),
    }
}

fn check_route(p: &Path, g: &PathTilemap, diag: bool) {
    let mut cost: u64 = 0;
    for w in p.tiles.windows(2) {
        let dx = (w[1].x - w[0].x).abs();
        let dy = (w[1].y - w[0].y).abs();
        assert!(dx <= 1 && dy <= 1 && dx + dy >= 1);
        if !diag {
            assert_eq!(dx + dy, 1);
        }
        cost += g.get(w[1]).expect("passable").cost as u64;
    }
    assert_eq!(cost, p.cost);
}

#[test]
fn four_connected_on_uniform_grid() {
    let g = open_grid(10, 10, 1);
    let p = expect_path(request(0, 0, 3, 4, false, None).find_path(&g));
    assert_eq!(p.tiles.len() - 1, 7);
    assert_eq!(p.cost, 7);
    assert_eq!(p.tiles[0], TileIndex::new(0, 0));
    assert_eq!(*p.tiles.last().unwrap(), TileIndex::new(3, 4));
    check_route(&p, &g, false);
}

#[test]
fn eight_connected_on_uniform_grid() {
    let g = open_grid(10, 10, 1);
    let p = expect_path(request(0, 0, 3, 4, true, None).find_path(&g));
    assert_eq!(p.tiles.len() - 1, 4);
    assert_eq!(p.cost, 4);
    check_route(&p, &g, true);
}

#[test]
fn origin_is_destination() {
    let g = open_grid(3, 3, 1);
    let p = expect_path(request(1, 1, 1, 1, false, Some(0)).find_path(&g));
    assert_eq!(p.tiles, vec![TileIndex::new(1, 1)]);
    assert_eq!(p.cost, 0);
}

#[test]
fn walled_destination_is_unreachable() {
    let mut g = open_grid(7, 7, 1);
    for (x, y) in [(2, 3), (4, 3), (3, 2), (3, 4), (2, 2), (4, 4), (2, 4), (4, 2)] {
        g.remove(TileIndex::new(x, y));
    }
    match request(0, 0, 3, 3, false, None).find_path(&g) {
        PathResult::Failed(f) => assert_eq!(f, PathFailure::Unreachable),
        PathResult::Succeeded(_) => panic!("destination is walled in"),
    }
    match request(0, 0, 3, 3, true, None).find_path(&g) {
        PathResult::Failed(f) => assert_eq!(f, PathFailure::Unreachable),
        PathResult::Succeeded(_) => panic!("destination is walled in"),
    }
}

#[test]
fn impassable_destination_is_unreachable() {
    let g = open_grid(4, 4, 1);
    match request(0, 0, 9, 9, false, None).find_path(&g) {
        PathResult::Failed(f) => assert_eq!(f, PathFailure::Unreachable),
        PathResult::Succeeded(_) => panic!("destination is outside the grid"),
    }
}

#[test]
fn budget_of_one_is_exceeded() {
    let g = open_grid(10, 10, 1);
    match request(0, 0, 3, 4, false, Some(1)).find_path(&g) {
        PathResult::Failed(f) => assert_eq!(f, PathFailure::BudgetExceeded),
        PathResult::Succeeded(_) => panic!("budget too small"),
    }
}

#[test]
fn cheaper_detour_is_taken() {
    let mut g = open_grid(3, 3, 1);
    g.set(TileIndex::new(1, 0), PathTile { cost: 50 });
    let p = expect_path(request(0, 0, 2, 0, false, None).find_path(&g));
    assert_eq!(p.cost, 4);
    assert!(!p.tiles.contains(&TileIndex::new(1, 0)));
    check_route(&p, &g, false);
}

#[test]
fn diagonal_between_two_walls_is_refused() {
    let mut g = PathTilemap::new();
    g.set(TileIndex::new(0, 0), PathTile { cost: 1 });
    g.set(TileIndex::new(1, 1), PathTile { cost: 1 });
    match request(0, 0, 1, 1, true, None).find_path(&g) {
        PathResult::Failed(f) => assert_eq!(f, PathFailure::Unreachable),
        PathResult::Succeeded(_) => panic!("corner cut between two walls"),
    }
}

#[test]
fn diagonal_beside_one_wall_is_allowed() {
    let mut g = PathTilemap::new();
    g.set(TileIndex::new(0, 0), PathTile { cost: 1 });
    g.set(TileIndex::new(1, 1), PathTile { cost: 1 });
    g.set(TileIndex::new(1, 0), PathTile { cost: 1 });
    let p = expect_path(request(0, 0, 1, 1, true, None).find_path(&g));
    assert_eq!(p.tiles, vec![TileIndex::new(0, 0), TileIndex::new(1, 1)]);
    assert_eq!(p.cost, 1);
}

#[test]
fn custom_fill_marks_impassable() {
    let mut g = PathTilemap::new();
    g.fill_path_rect_custom(TileArea::new(TileIndex::new(0, 0), 5, 5), |i: TileIndex| {
        if i.x == 2 && i.y < 4 {
            None
        } else {
            Some(PathTile { cost: 2 })
        }
    });
    assert_eq!(g.len(), 21);
    let p = expect_path(request(0, 0, 4, 0, false, None).find_path(&g));
    assert_eq!(p.tiles.len() - 1, 12);
    assert_eq!(p.cost, 24);
    check_route(&p, &g, false);
}

#[test]
fn path_grid_round_trips_through_entries() {
    let mut g = PathTilemap::new();
    g.fill_path_rect_custom(TileArea::new(TileIndex::new(-4, -4), 9, 9), |i: TileIndex| {
        Some(PathTile { cost: (i.x * i.x + i.y * i.y) as u32 })
    });
    g.remove(TileIndex::new(0, 0));
    let e = g.entries();
    assert_eq!(e.len(), 80);
    let h = PathTilemap::from_entries(&e);
    assert_eq!(h.len(), 80);
    assert_eq!(h.get(TileIndex::new(-4, 3)), Some(PathTile { cost: 25 }));
    assert_eq!(h.get(TileIndex::new(0, 0)), None);
}

#[test]
fn budget_covering_every_reachable_tile_suffices() {
    let g = open_grid(3, 3, 1);
    let p = expect_path(request(0, 0, 2, 2, false, Some(9)).find_path(&g));
    assert_eq!(p.cost, 4);
    assert_eq!(p.tiles.len(), 5);
}

#[test]
fn budget_of_seven_reaches_seven_steps_on_a_line() {
    let g = open_grid(8, 1, 3);
    let p = expect_path(request(0, 0, 7, 0, false, Some(7)).find_path(&g));
    assert_eq!(p.cost, 21);
    match request(0, 0, 7, 0, false, Some(6)).find_path(&g) {
        PathResult::Failed(f) => assert_eq!(f, PathFailure::BudgetExceeded),
        PathResult::Succeeded(_) => panic!("budget of six expansions cannot cover seven moves"),
    }
}

#[test]
fn free_tiles_make_the_cheapest_route() {
    let mut g = open_grid(5, 3, 4);
    for x in 0..5 {
        g.set(TileIndex::new(x, 2), PathTile { cost: 0 });
    }
    let p = expect_path(request(0, 0, 4, 0, false, None).find_path(&g));
    assert_eq!(p.cost, 12);
    check_route(&p, &g, false);
    let p = expect_path(request(0, 1, 4, 1, true, None).find_path(&g));
    assert_eq!(p.cost, 4);
    check_route(&p, &g, true);
}
