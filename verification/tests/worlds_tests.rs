//! World derivation and the two world caches.

use worldcache::cache::{CacheManager, WorldLoader};
use worldcache::worlds::{World, WorldPrimitive};

#[test]
fn world_derivation_is_deterministic() {
    let wp = WorldPrimitive::new(11, 22);
    let w1 = World::new(wp);
    let w2 = World::new(wp);
    assert_eq!(w1, w2);
    assert_eq!(w1.get_zone(3), w2.get_zone(3));
    assert_eq!(w1.get_zone(3).zone_seed, 11 ^ 3);
}

#[test]
fn world_loader_invents_once_and_remembers() {
    let mut wl = WorldLoader::new();
    let first = wl.get_world_primitive_for(7);
    let second = wl.get_world_primitive_for(7);
    assert_eq!(first, second);
}

#[test]
fn cache_manager_keeps_the_first_primitive() {
    let mut cm = CacheManager::new();
    cm.cache_world_primitive(7, WorldPrimitive::new(1, 2));
    cm.cache_world_primitive(7, WorldPrimitive::new(9, 9));
    assert!(!cm.world_is_cached(7));
    assert!(cm.ensure_world_derived(7));
    assert_eq!(cm.get_world(7).unwrap().prim, WorldPrimitive::new(1, 2));
}

#[test]
fn deriving_twice_does_not_re_register() {
    let mut cm = CacheManager::new();
    assert!(!cm.ensure_world_derived(7));
    cm.cache_world_primitive(7, WorldPrimitive::new(1, 2));
    assert!(cm.ensure_world_derived(7));
    let w = *cm.get_world(7).unwrap();
    assert!(cm.ensure_world_derived(7));
    assert_eq!(*cm.get_world(7).unwrap(), w);
}
