//! Diff semantics on a single location: acceptance, rejection, and the
//! bijection between entities and cells.

use worldcache::location::{start_location_primitive, Location, LocationPrimitive};
use worldcache::messaging::Diff;
use worldcache::points::DPoint2;

#[test]
fn start_primitive_is_fifty_by_fifty_fixed_scale() {
    let prim = start_location_primitive();
    assert_eq!(prim.cells_wide, 50);
    assert_eq!(prim.cells_high, 50);
    assert_eq!(prim.cell_to_milli, 1000);
    assert_eq!(prim.wid, 0);
}

#[test]
fn place_inside_succeeds_on_free_cell() {
    let mut loc = Location::generate_new(start_location_primitive());
    let r = loc.apply_diff(Diff::PlaceInside(42, DPoint2::new(10, 10)));
    assert!(r.is_ok());
    assert_eq!(loc.point_of(42), Some(DPoint2::new(10, 10)));
}

#[test]
fn place_inside_rejected_on_occupied_cell() {
    let mut loc = Location::generate_new(start_location_primitive());
    assert!(loc.apply_diff(Diff::PlaceInside(42, DPoint2::new(10, 10))).is_ok());
    let r = loc.apply_diff(Diff::PlaceInside(43, DPoint2::new(10, 10)));
    assert!(r.is_err());
    assert_eq!(loc.point_of(43), None);
}

#[test]
fn place_inside_rejected_for_present_entity() {
    let mut loc = Location::generate_new(start_location_primitive());
    assert!(loc.apply_diff(Diff::PlaceInside(42, DPoint2::new(10, 10))).is_ok());
    let r = loc.apply_diff(Diff::PlaceInside(42, DPoint2::new(20, 20)));
    assert!(r.is_err());
    assert_eq!(loc.point_of(42), Some(DPoint2::new(10, 10)));
}

#[test]
fn move_entity_succeeds_to_free_cell() {
    let mut loc = Location::generate_new(start_location_primitive());
    assert!(loc.apply_diff(Diff::PlaceInside(42, DPoint2::new(10, 10))).is_ok());
    assert!(loc.apply_diff(Diff::MoveEntityTo(42, DPoint2::new(11, 10))).is_ok());
    assert_eq!(loc.point_of(42), Some(DPoint2::new(11, 10)));
    assert!(loc.point_is_free(DPoint2::new(10, 10)));
}

#[test]
fn move_of_absent_entity_rejected() {
    let mut loc = Location::generate_new(start_location_primitive());
    let r = loc.apply_diff(Diff::MoveEntityTo(7, DPoint2::new(1, 1)));
    assert!(r.is_err());
}

#[test]
fn move_onto_occupied_cell_rejected() {
    let mut loc = Location::generate_new(start_location_primitive());
    assert!(loc.apply_diff(Diff::PlaceInside(1, DPoint2::new(0, 0))).is_ok());
    assert!(loc.apply_diff(Diff::PlaceInside(2, DPoint2::new(1, 0))).is_ok());
    let r = loc.apply_diff(Diff::MoveEntityTo(2, DPoint2::new(0, 0)));
    assert!(r.is_err());
    // Both entities still stand where they were: no entity was displaced.
    assert_eq!(loc.point_of(1), Some(DPoint2::new(0, 0)));
    assert_eq!(loc.point_of(2), Some(DPoint2::new(1, 0)));
}

#[test]
fn bijection_holds_after_many_accepted_diffs() {
    let mut loc = Location::generate_new(start_location_primitive());
    for e in 0..10u64 {
        assert!(loc.apply_diff(Diff::PlaceInside(e, DPoint2::new(e as i32, 0))).is_ok());
    }
    assert!(loc.apply_diff(Diff::MoveEntityTo(3, DPoint2::new(3, 5))).is_ok());
    assert!(loc.apply_diff(Diff::MoveEntityTo(4, DPoint2::new(5, 0))).is_err());
    let listing = loc.entities_vec();
    assert_eq!(listing.len(), 10);
    for i in 0..listing.len() {
        for j in 0..listing.len() {
            if i != j {
                assert_ne!(listing[i].0, listing[j].0);
                assert_ne!(listing[i].1, listing[j].1);
            }
        }
    }
}

#[test]
fn free_point_scans_in_row_order() {
    let mut loc = Location::generate_new(LocationPrimitive::new(0, 0, 2, 2, 1000, 9));
    assert_eq!(loc.free_point(), Some(DPoint2::new(0, 0)));
    assert!(loc.apply_diff(Diff::PlaceInside(1, DPoint2::new(0, 0))).is_ok());
    assert_eq!(loc.free_point(), Some(DPoint2::new(0, 1)));
    assert!(loc.apply_diff(Diff::PlaceInside(2, DPoint2::new(0, 1))).is_ok());
    assert!(loc.apply_diff(Diff::PlaceInside(3, DPoint2::new(1, 0))).is_ok());
    assert!(loc.apply_diff(Diff::PlaceInside(4, DPoint2::new(1, 1))).is_ok());
    assert_eq!(loc.free_point(), None);
}

#[test]
fn points_shift_and_convert() {
    let p = DPoint2::new(3, 4);
    assert_eq!(p.shift_x(2), DPoint2::new(5, 4));
    assert_eq!(p.shift_y(-1), DPoint2::new(3, 3));
    assert_eq!(p.to_pair(), (3, 4));
    assert_eq!(DPoint2::from_pair((3, 4)), p);
}
