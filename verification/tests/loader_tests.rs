//! The tiered cache: promotion on subscribe, demotion on last unsubscribe,
//! retention-window eviction with a flush, and diff routing.

use worldcache::guard::LoadError;
use worldcache::loader::{LocationLoader, Tier};
use worldcache::location::start_location_primitive;
use worldcache::messaging::Diff;
use worldcache::points::DPoint2;

#[test]
fn fresh_loader_has_everything_unloaded() {
    let loader = LocationLoader::new(10_000);
    assert_eq!(loader.tier(0), Tier::Unloaded);
    assert_eq!(loader.tier(7), Tier::Unloaded);
}

#[test]
fn subscribe_promotes_to_foreground() {
    let mut loader = LocationLoader::new(10_000);
    assert_eq!(loader.tier(0), Tier::Unloaded);
    loader.client_subscribe(3, 0, None, 100).unwrap();
    assert_eq!(loader.tier(0), Tier::Foreground);
    assert!(loader.is_subscribed(3, 0));
    assert!(loader.subscribers_exist_for(0));
}

#[test]
fn last_unsubscribe_demotes_to_background() {
    let mut loader = LocationLoader::new(10_000);
    loader.client_subscribe(3, 0, None, 100).unwrap();
    loader.client_subscribe(4, 0, None, 110).unwrap();
    loader.client_unsubscribe(3, 0, 120);
    assert_eq!(loader.tier(0), Tier::Foreground);
    loader.client_unsubscribe(4, 0, 130);
    assert_eq!(loader.tier(0), Tier::Background);
    assert!(!loader.subscribers_exist_for(0));
}

#[test]
fn overdue_background_is_flushed_then_unloaded() {
    let mut loader = LocationLoader::new(10_000);
    loader.client_subscribe(3, 0, None, 100).unwrap();
    assert!(matches!(
        loader.apply_diff_to(0, Diff::PlaceInside(42, DPoint2::new(1, 1)), true, None, 150),
        Ok(Ok(()))
    ));
    loader.client_unsubscribe(3, 0, 200);
    assert_eq!(loader.tier(0), Tier::Background);

    // Within the retention window nothing is evicted.
    let flushed = loader.unload_overdue_backgrounds(5_000);
    assert_eq!(flushed.len(), 0);
    assert_eq!(loader.tier(0), Tier::Background);

    // Past the window the location is flushed (primitive + full log) and
    // evicted.
    let flushed = loader.unload_overdue_backgrounds(20_000);
    assert_eq!(flushed.len(), 1);
    assert_eq!(flushed[0].0, 0);
    assert_eq!(flushed[0].1, start_location_primitive());
    assert_eq!(flushed[0].2.len(), 1);
    assert_eq!(loader.tier(0), Tier::Unloaded);

    // The flush payload reproduces the state on the next load.
    let (lid, prim, log) = flushed.into_iter().next().unwrap();
    let mut loader2 = LocationLoader::new(10_000);
    let entities = loader2.entities_in(lid, Some((prim, log)), 0).unwrap();
    assert_eq!(entities, vec![(42, DPoint2::new(1, 1))]);
}

#[test]
fn watched_location_is_never_evicted() {
    let mut loader = LocationLoader::new(10_000);
    loader.client_subscribe(3, 0, None, 100).unwrap();
    let flushed = loader.unload_overdue_backgrounds(1_000_000);
    assert_eq!(flushed.len(), 0);
    assert_eq!(loader.tier(0), Tier::Foreground);
}

#[test]
fn non_start_location_without_snapshot_is_refused() {
    let mut loader = LocationLoader::new(10_000);
    let r = loader.client_subscribe(3, 9, None, 100);
    assert_eq!(r.err(), Some(LoadError::MissingPrimitive(9)));
    assert_eq!(loader.tier(9), Tier::Unloaded);
}

#[test]
fn background_read_does_not_promote() {
    let mut loader = LocationLoader::new(10_000);
    let entities = loader.entities_in(0, None, 100).unwrap();
    assert_eq!(entities.len(), 0);
    assert_eq!(loader.tier(0), Tier::Background);
}

#[test]
fn rejected_diff_is_not_logged_by_loader() {
    let mut loader = LocationLoader::new(10_000);
    assert!(matches!(
        loader.apply_diff_to(0, Diff::PlaceInside(1, DPoint2::new(0, 0)), false, None, 100),
        Ok(Ok(()))
    ));
    assert!(matches!(
        loader.apply_diff_to(0, Diff::PlaceInside(2, DPoint2::new(0, 0)), false, None, 110),
        Ok(Err(()))
    ));
    let saved = loader.save_all_locations();
    assert_eq!(saved.len(), 1);
    assert_eq!(saved[0].2.len(), 1);
}

#[test]
fn save_all_locations_covers_both_tiers() {
    let mut loader = LocationLoader::new(10_000);
    loader.client_subscribe(1, 0, None, 100).unwrap();
    let prim = start_location_primitive();
    let _ = loader.entities_in(5, Some((prim, Vec::new())), 100).unwrap();
    assert_eq!(loader.tier(0), Tier::Foreground);
    assert_eq!(loader.tier(5), Tier::Background);
    let mut saved: Vec<u32> = loader.save_all_locations().into_iter().map(|e| e.0).collect();
    saved.sort();
    assert_eq!(saved, vec![0, 5]);
}

#[test]
fn must_be_foreground_promotes_before_applying() {
    let mut loader = LocationLoader::new(10_000);
    assert!(matches!(
        loader.apply_diff_to(0, Diff::PlaceInside(1, DPoint2::new(0, 0)), true, None, 100),
        Ok(Ok(()))
    ));
    assert_eq!(loader.tier(0), Tier::Foreground);
}

#[test]
fn subscribe_promotes_an_already_backgrounded_location() {
    let mut loader = LocationLoader::new(10_000);
    // A background-only read loads without promoting.
    let _ = loader.entities_in(0, None, 100).unwrap();
    assert_eq!(loader.tier(0), Tier::Background);
    // The first subscriber promotes the warm copy, not a fresh load.
    assert!(matches!(
        loader.apply_diff_to(0, Diff::PlaceInside(8, DPoint2::new(2, 2)), false, None, 110),
        Ok(Ok(()))
    ));
    loader.client_subscribe(1, 0, None, 120).unwrap();
    assert_eq!(loader.tier(0), Tier::Foreground);
    let entities = loader.entities_in(0, None, 130).unwrap();
    assert_eq!(entities, vec![(8, DPoint2::new(2, 2))]);
}

#[test]
fn diff_for_unstored_non_start_location_fails_to_load() {
    let mut loader = LocationLoader::new(10_000);
    let r = loader.apply_diff_to(4, Diff::PlaceInside(1, DPoint2::new(0, 0)), true, None, 100);
    assert_eq!(r.err(), Some(LoadError::MissingPrimitive(4)));
    assert_eq!(loader.tier(4), Tier::Unloaded);
}

#[test]
fn consume_time_since_last_sim_reports_elapsed() {
    let mut loader = LocationLoader::new(1_000);
    let _ = loader.entities_in(0, None, 100).unwrap();
    let flushed = loader.unload_overdue_backgrounds(2_000);
    assert_eq!(flushed.len(), 1);
    assert_eq!(loader.consume_time_since_last_sim(0, 2_500), Some(500));
    assert_eq!(loader.consume_time_since_last_sim(0, 2_500), None);
}
