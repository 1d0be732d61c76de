//! The location guard's diff log and the persistence invariant: replaying
//! the stored log over a fresh generation reproduces the live state.

use worldcache::guard::{LoadError, LocationGuard};
use worldcache::location::start_location_primitive;
use worldcache::messaging::Diff;
use worldcache::points::DPoint2;

#[test]
fn accepted_diffs_append_to_log() {
    let mut guard = LocationGuard::new_generated(start_location_primitive());
    assert!(guard.apply_diff(Diff::PlaceInside(42, DPoint2::new(10, 10))).is_ok());
    assert!(guard.apply_diff(Diff::MoveEntityTo(42, DPoint2::new(11, 10))).is_ok());
    let (_, log) = guard.snapshot_and_log();
    assert_eq!(log.len(), 2);
}

#[test]
fn rejected_diff_leaves_log_unchanged() {
    let mut guard = LocationGuard::new_generated(start_location_primitive());
    assert!(guard.apply_diff(Diff::PlaceInside(42, DPoint2::new(10, 10))).is_ok());
    // Moving an entity to the cell it already stands on is a no-op and is
    // rejected, so repeating the identical move never grows the log.
    assert!(guard.apply_diff(Diff::MoveEntityTo(42, DPoint2::new(10, 10))).is_err());
    assert!(guard.apply_diff(Diff::MoveEntityTo(42, DPoint2::new(10, 10))).is_err());
    let (_, log) = guard.snapshot_and_log();
    assert_eq!(log.len(), 1);
}

#[test]
fn replay_reproduces_live_state() {
    let mut guard = LocationGuard::new_generated(start_location_primitive());
    assert!(guard.apply_diff(Diff::PlaceInside(1, DPoint2::new(0, 0))).is_ok());
    assert!(guard.apply_diff(Diff::PlaceInside(2, DPoint2::new(5, 5))).is_ok());
    assert!(guard.apply_diff(Diff::MoveEntityTo(1, DPoint2::new(3, 3))).is_ok());
    assert!(guard.apply_diff(Diff::MoveEntityTo(9, DPoint2::new(4, 4))).is_err());
    let (prim, log) = guard.snapshot_and_log();

    let reloaded = LocationGuard::load_from(7, Some((prim, log))).unwrap();
    let mut live = guard.borrow_location().entities_vec();
    let mut replayed = reloaded.borrow_location().entities_vec();
    live.sort_by_key(|&(e, p)| (e, p.x, p.y));
    replayed.sort_by_key(|&(e, p)| (e, p.x, p.y));
    assert_eq!(live, replayed);
    assert_eq!(reloaded.borrow_location().point_of(1), Some(DPoint2::new(3, 3)));
    assert_eq!(reloaded.borrow_location().point_of(2), Some(DPoint2::new(5, 5)));
}

#[test]
fn missing_primitive_is_fatal_for_non_start_location() {
    let r = LocationGuard::load_from(9, None);
    assert_eq!(r.err(), Some(LoadError::MissingPrimitive(9)));
}

#[test]
fn start_location_is_synthesized_when_unstored() {
    let guard = LocationGuard::load_from(0, None).unwrap();
    assert_eq!(*guard.get_location_primitive(), start_location_primitive());
    assert_eq!(guard.borrow_location().entities_vec().len(), 0);
}

#[test]
fn example_scenario_place_collide_move_reload() {
    // Location 0 (start) has no stored primitive: synthesized 50x50 at the
    // fixed scale.
    let mut guard = LocationGuard::load_from(0, None).unwrap();
    assert_eq!(guard.get_location_primitive().cells_wide, 50);
    assert_eq!(guard.get_location_primitive().cells_high, 50);

    assert!(guard.apply_diff(Diff::PlaceInside(42, DPoint2::new(10, 10))).is_ok());
    assert!(guard.apply_diff(Diff::PlaceInside(42, DPoint2::new(10, 10))).is_err());
    assert!(guard.apply_diff(Diff::MoveEntityTo(42, DPoint2::new(11, 10))).is_ok());
    let (prim, log) = guard.snapshot_and_log();
    assert_eq!(log.len(), 2);

    let reloaded = LocationGuard::load_from(0, Some((prim, log))).unwrap();
    assert_eq!(reloaded.borrow_location().point_of(42), Some(DPoint2::new(11, 10)));
}
