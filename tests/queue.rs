use entitiles::math::{TileArea, TileIndex};
use entitiles::path::{PathTile, PathTilemap};
use entitiles::pathfinding::{PathFailure, PathFinder, PathResult};
use entitiles::queue::{PathFindingQueue, QueueError};

fn grid() -> PathTilemap {
    let mut g = PathTilemap::new();
    g.fill_path_rect(TileArea::new(TileIndex::new(0, 0), 20, 20), PathTile { cost: 1 });
    g
}

fn req(dx: i32, dy: i32) -> PathFinder {
    PathFinder { origin: TileIndex::new(0, 0), dest: TileIndex::new(dx, dy), allow_diagonal: false, max_steps: None }
}

#[test]
fn every_request_yields_one_result() {
    let n: u64 = 12;
    let schedules: Vec<(u64, PathFinder)> = (0..n).map(|i| (i, req(i as i32, 19 - i as i32))).collect();
    let g = grid();
    let mut q = PathFindingQueue::new_with_schedules(g.clone(), schedules).unwrap();
    assert_eq!(g.len(), 400);
    assert!(!q.is_empty());
    let mut rounds = 0;
    while !q.is_empty() {
        q.advance(5);
        rounds += 1;
    }
    assert_eq!(rounds, 3);
    assert_eq!(q.result_count(), n as usize);
    for i in 0..n {
        match q.take_result(i) {
            Some(PathResult::Succeeded(p)) => assert_eq!(p.cost, 19),
            Some(PathResult::Failed(f)) => panic!("request {} failed: {:?}", i, f),
            None => panic!("request {} has no result", i),
        }
        assert!(q.take_result(i).is_none());
    }
    assert_eq!(q.result_count(), 0);
}

#[test]
fn duplicate_identity_is_refused() {
    let r = PathFindingQueue::new_with_schedules(grid(), vec![(1, req(1, 1)), (2, req(2, 2)), (1, req(3, 3))]);
    match r {
        Err(e) => assert_eq!(e, QueueError::DuplicateIdentity(1)),
        Ok(_) => panic!("duplicate identity accepted"),
    }
    let mut q = PathFindingQueue::new(grid());
    assert_eq!(q.add(7, req(1, 0)), Ok(()));
    assert_eq!(q.add(7, req(2, 0)), Err(QueueError::DuplicateIdentity(7)));
    q.advance(1);
    assert_eq!(q.add(7, req(2, 0)), Err(QueueError::DuplicateIdentity(7)));
    assert!(q.contains(7));
    assert!(q.take_result(7).is_some());
    assert!(!q.contains(7));
    assert_eq!(q.add(7, req(2, 0)), Ok(()));
}

#[test]
fn advance_is_bounded_and_ordered() {
    let mut q = PathFindingQueue::new(grid());
    for i in 0..4u64 {
        q.add(i, req(1, 0)).unwrap();
    }
    q.advance(0);
    assert_eq!(q.result_count(), 0);
    q.advance(3);
    assert_eq!(q.result_count(), 3);
    assert!(!q.is_empty());
    assert!(q.take_result(3).is_none());
    q.advance(10);
    assert!(q.is_empty());
    assert!(q.take_result(3).is_some());
}

#[test]
fn failures_are_results_too() {
    let mut q = PathFindingQueue::new(grid());
    q.add(1, req(40, 40)).unwrap();
    q.add(2, PathFinder { max_steps: Some(1), ..req(5, 5) }).unwrap();
    q.advance(2);
    match q.take_result(1) {
        Some(PathResult::Failed(f)) => assert_eq!(f, PathFailure::Unreachable),
        _ => panic!("expected unreachable"),
    }
    match q.take_result(2) {
        Some(PathResult::Failed(f)) => assert_eq!(f, PathFailure::BudgetExceeded),
        _ => panic!("expected budget failure"),
    }
}

#[test]
fn cancelled_request_is_not_searched() {
    let mut q = PathFindingQueue::new(grid());
    q.add(1, req(3, 3)).unwrap();
    q.add(2, req(4, 4)).unwrap();
    assert!(q.cancel(1));
    assert!(!q.cancel(1));
    assert!(!q.contains(1));
    q.advance(5);
    assert!(q.is_empty());
    assert_eq!(q.result_count(), 1);
    assert!(q.take_result(1).is_none());
    assert!(q.take_result(2).is_some());
    assert!(!q.cancel(2));
}
