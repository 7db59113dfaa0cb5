use rgraphics::texmanager::{TexManager, TextureError};

#[test]
fn capacity_two_scenario() {
    let mut t: TexManager<&str> = TexManager::new(2);
    let a = t.alloc_tex("a").unwrap();
    let b = t.alloc_tex("b").unwrap();
    assert_eq!(t.get_index(&a), Some(0));
    assert_eq!(t.get_index(&b), Some(1));
    assert_eq!(t.alloc_tex("x").unwrap_err(), TextureError::TextureArrayFull);
    let a_id = a.id();
    assert_eq!(t.free_tex(a), Some("a"));
    assert_eq!(t.len(), 1);
    assert_eq!(t.get_index(&b), Some(0));
    let c = t.alloc_tex("c").unwrap();
    assert_eq!(t.get_index(&c), Some(1));
    assert!(c.id() > a_id);
    assert_eq!(t.committed(), &vec!["b", "c"]);
}

#[test]
fn free_moves_only_the_last_handle() {
    let mut t: TexManager<u32> = TexManager::new(8);
    let hs: Vec<_> = (0..5u32).map(|i| t.alloc_tex(i).unwrap()).collect();
    let mut hs = hs.into_iter();
    let h0 = hs.next().unwrap();
    let h1 = hs.next().unwrap();
    let h2 = hs.next().unwrap();
    let h3 = hs.next().unwrap();
    let h4 = hs.next().unwrap();
    assert_eq!(t.free_tex(h1), Some(1));
    assert_eq!(t.get_index(&h0), Some(0));
    assert_eq!(t.get_index(&h4), Some(1));
    assert_eq!(t.get_index(&h2), Some(2));
    assert_eq!(t.get_index(&h3), Some(3));
    assert_eq!(t.committed(), &vec![0, 4, 2, 3]);
}

#[test]
fn indices_stay_dense_after_churn() {
    let mut t: TexManager<u32> = TexManager::new(8);
    let mut live = Vec::new();
    for i in 0..6u32 {
        live.push(t.alloc_tex(i).unwrap());
    }
    let x = live.remove(2);
    t.free_tex(x);
    let y = live.remove(0);
    t.free_tex(y);
    live.push(t.alloc_tex(10).unwrap());
    let mut idx: Vec<usize> = live.iter().map(|h| t.get_index(h).unwrap()).collect();
    idx.sort();
    assert_eq!(idx, (0..live.len()).collect::<Vec<_>>());
    assert_eq!(t.len(), live.len());
}

#[test]
fn freeing_last_slot_moves_nothing() {
    let mut t: TexManager<u32> = TexManager::new(4);
    let a = t.alloc_tex(1).unwrap();
    let b = t.alloc_tex(2).unwrap();
    assert_eq!(t.free_tex(b), Some(2));
    assert_eq!(t.get_index(&a), Some(0));
}

#[test]
fn every_change_marks_descriptor_stale() {
    let mut t: TexManager<u32> = TexManager::new(4);
    assert!(t.needs_rebuild());
    let a = t.alloc_tex(1).unwrap();
    t.mark_rebuilt();
    assert!(!t.needs_rebuild());
    t.free_tex(a);
    assert!(t.needs_rebuild());
    t.mark_rebuilt();
    let _b = t.alloc_tex(2).unwrap();
    assert!(t.needs_rebuild());
}

#[test]
fn zero_capacity_is_always_full() {
    let mut t: TexManager<u32> = TexManager::new(0);
    assert_eq!(t.alloc_tex(1).unwrap_err(), TextureError::TextureArrayFull);
    assert_eq!(t.max_size(), 0);
}

#[test]
fn texture_lookup_by_handle() {
    let mut t: TexManager<&str> = TexManager::new(3);
    let a = t.alloc_tex("a").unwrap();
    let b = t.alloc_tex("b").unwrap();
    assert_eq!(t.texture(&b), Some(&"b"));
    t.free_tex(a);
    assert_eq!(t.texture(&b), Some(&"b"));
    assert_eq!(t.next_handle_id(), 2);
}
