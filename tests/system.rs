use rgraphics::system::{Entity, WorldRegistry};

#[test]
fn components_are_packed_and_swap_removed() {
    let mut reg = WorldRegistry::new();
    let mut health = reg.registerComponent("health", 100u32);
    let a = Entity::new(&["health"], &mut reg).unwrap();
    let b = Entity::new(&["health"], &mut reg).unwrap();
    let c = Entity::new(&["health"], &mut reg).unwrap();
    health.insert(a);
    health.insert(b);
    health.insert(c);
    assert_eq!(health.len(), 3);
    assert!(health.set(b, 5));
    assert!(health.delete(a));
    assert_eq!(health.get_by_idx(0), Some(&100));
    assert_eq!(health.get(b), Some(&5));
    assert_eq!(health.get(a), None);
    assert_eq!(health.len(), 2);
    assert!(!health.delete(a));
    assert_eq!(health.get_by_idx(2), None);
}

#[test]
fn entity_needs_registered_components() {
    let mut reg = WorldRegistry::new();
    assert!(Entity::new(&["speed"], &mut reg).is_none());
    let _speed = reg.registerComponent("speed", 0i64);
    assert!(reg.is_registered("speed"));
    let e = Entity::new(&["speed"], &mut reg).unwrap();
    assert_eq!(e.id(), 0);
    let f = Entity::new(&[], &mut reg).unwrap();
    assert_eq!(f.id(), 1);
}

#[test]
fn insert_keeps_existing_component() {
    let mut reg = WorldRegistry::new();
    let mut s = reg.registerComponent("n", 1u8);
    let e = Entity::new(&["n"], &mut reg).unwrap();
    s.insert(e);
    s.set(e, 9);
    s.insert(e);
    assert_eq!(s.get(e), Some(&9));
    assert_eq!(s.len(), 1);
}
