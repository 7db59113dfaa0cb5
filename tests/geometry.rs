use rgraphics::meshmanager::{GeometryError, MeshManager};

#[test]
fn fresh_buffer_is_one_free_region() {
    let mut m = MeshManager::new(100);
    let h = m.alloc_mesh(100).unwrap();
    assert_eq!(m.get_range(&h), Some(0..100));
    assert_eq!(m.alloc_mesh(1).unwrap_err(), GeometryError::OutOfGeometrySpace);
}

#[test]
fn split_hands_out_leading_slots() {
    let mut m = MeshManager::new(100);
    let a = m.alloc_mesh(30).unwrap();
    let b = m.alloc_mesh(20).unwrap();
    assert_eq!(m.get_range(&a), Some(0..30));
    assert_eq!(m.get_range(&b), Some(30..50));
    assert_ne!(a.id(), b.id());
}

#[test]
fn exact_match_is_preferred_over_larger() {
    let mut m = MeshManager::new(100);
    let a = m.alloc_mesh(10).unwrap();
    let _b = m.alloc_mesh(20).unwrap();
    m.free_mesh(a);
    // The free pool now holds the 50-slot tail first, then the freed 10.
    let c = m.alloc_mesh(10).unwrap();
    assert_eq!(m.get_range(&c), Some(0..10));
}

#[test]
fn out_of_space_when_nothing_fits() {
    let mut m = MeshManager::new(10);
    let _a = m.alloc_mesh(6).unwrap();
    assert_eq!(m.alloc_mesh(5).unwrap_err(), GeometryError::OutOfGeometrySpace);
    let b = m.alloc_mesh(4).unwrap();
    assert_eq!(m.get_range(&b), Some(6..10));
}

#[test]
fn freed_regions_are_not_coalesced() {
    let mut m = MeshManager::new(10);
    let a = m.alloc_mesh(5).unwrap();
    let b = m.alloc_mesh(5).unwrap();
    m.free_mesh(a);
    m.free_mesh(b);
    assert_eq!(m.alloc_mesh(10).unwrap_err(), GeometryError::OutOfGeometrySpace);
    assert!(m.alloc_mesh(5).is_ok());
}

#[test]
fn live_regions_never_overlap_and_cover_buffer() {
    let mut m = MeshManager::new(64);
    let mut live = Vec::new();
    for size in [8usize, 4, 16, 4, 8] {
        live.push(m.alloc_mesh(size).unwrap());
    }
    let freed = live.remove(1);
    m.free_mesh(freed);
    live.push(m.alloc_mesh(4).unwrap());
    live.push(m.alloc_mesh(2).unwrap());
    let mut ranges: Vec<_> = live.iter().map(|h| m.get_range(h).unwrap()).collect();
    ranges.sort_by_key(|r| r.start);
    for w in ranges.windows(2) {
        assert!(w[0].end <= w[1].start);
    }
    let used: usize = ranges.iter().map(|r| r.end - r.start).sum();
    assert!(used <= 64);
    assert!(ranges.iter().all(|r| r.end <= 64));
}

#[test]
fn handle_region_is_stable_across_other_calls() {
    let mut m = MeshManager::new(50);
    let a = m.alloc_mesh(10).unwrap();
    let before = m.get_range(&a);
    let b = m.alloc_mesh(5).unwrap();
    m.free_mesh(b);
    let _c = m.alloc_mesh(5).unwrap();
    let _d = m.alloc_mesh(7).unwrap();
    assert_eq!(m.get_range(&a), before);
}

#[test]
fn handle_of_another_manager_is_unknown() {
    let mut m = MeshManager::new(10);
    let other = MeshManager::new(10);
    let _a = m.alloc_mesh(4).unwrap();
    let b = m.alloc_mesh(2).unwrap();
    assert!(m.is_allocated(&b));
    assert!(!other.is_allocated(&b));
    assert_eq!(other.set_vertices(&b, 1, 0), Err(GeometryError::UnknownHandle));
    assert_eq!(other.get_range(&b), None);
}

#[test]
fn write_must_fit_region() {
    let mut m = MeshManager::new(20);
    let _pad = m.alloc_mesh(5).unwrap();
    let h = m.alloc_mesh(10).unwrap();
    assert_eq!(m.set_vertices(&h, 4, 3), Ok(8..12));
    assert_eq!(m.set_vertices(&h, 10, 0), Ok(5..15));
    assert_eq!(m.set_vertices(&h, 8, 3), Err(GeometryError::RegionTooSmall));
    assert_eq!(m.set_vertices(&h, 0, 11), Err(GeometryError::RegionTooSmall));
}

#[test]
fn freed_id_is_reused_by_exact_match() {
    let mut m = MeshManager::new(20);
    let a = m.alloc_mesh(5).unwrap();
    let b = m.alloc_mesh(5).unwrap();
    let id = b.id();
    m.free_mesh(b);
    // A new allocation of the same size reuses the freed id.
    let c = m.alloc_mesh(5).unwrap();
    assert_eq!(c.id(), id);
    m.free_mesh(c);
    let d = m.alloc_mesh(3).unwrap();
    assert_eq!(m.get_range(&d), Some(10..13));
    assert_eq!(m.get_range(&a), Some(0..5));
}
