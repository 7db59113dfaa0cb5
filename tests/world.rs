use rgraphics::entity_renderer::{EntityModel, EntityRenderer, EntityTexture};
use rgraphics::world::{NotificationKind, World};

fn subs(lists: &[&[&str]]) -> Vec<Vec<String>> {
    lists.iter().map(|l| l.iter().map(|s| s.to_string()).collect()).collect()
}

#[test]
fn create_then_delete_in_one_frame_notifies_deleted_then_created() {
    let mut w: World<()> = World::new(subs(&[&["enemy"]]));
    let id = w.create_entity(&["enemy"], None, ());
    w.delete_entity(id);
    let frame = w.begin_frame();
    let deleted: Vec<usize> = frame
        .iter()
        .enumerate()
        .filter(|(_, n)| n.kind == NotificationKind::Deleted && n.behavior == 0)
        .map(|(i, _)| i)
        .collect();
    let created: Vec<usize> = frame
        .iter()
        .enumerate()
        .filter(|(_, n)| n.kind == NotificationKind::Created && n.behavior == 0)
        .map(|(i, _)| i)
        .collect();
    assert_eq!(deleted.len(), 1);
    assert_eq!(created.len(), 1);
    assert!(deleted[0] < created[0]);
    assert_eq!(frame[deleted[0]].ids, vec![id]);
    assert_eq!(frame[created[0]].ids, vec![id]);
    assert_eq!(frame.last().unwrap().kind, NotificationKind::Run);
}

#[test]
fn frame_drains_pending_sets() {
    let mut w: World<()> = World::new(subs(&[&["a"], &["b"]]));
    w.create_entity(&["a"], None, ());
    let first = w.begin_frame();
    assert_eq!(first.len(), 3);
    assert_eq!(first[0].kind, NotificationKind::Created);
    assert_eq!(first[0].behavior, 0);
    assert_eq!(first[1].kind, NotificationKind::Run);
    assert_eq!(first[2].kind, NotificationKind::Run);
    assert_eq!(first[2].behavior, 1);
    let second = w.begin_frame();
    assert_eq!(second.len(), 2);
    assert!(second.iter().all(|n| n.kind == NotificationKind::Run && n.ids.is_empty()));
}

#[test]
fn only_subscribed_behaviors_are_told() {
    let mut w: World<()> = World::new(subs(&[&["enemy"], &["player"], &["enemy", "player"]]));
    let id = w.create_entity(&["player", "player"], None, ());
    let frame = w.begin_frame();
    let created: Vec<usize> = frame.iter().filter(|n| n.kind == NotificationKind::Created).map(|n| n.behavior).collect();
    assert_eq!(created, vec![1, 2]);
    assert_eq!(w.tags_by_id(id).unwrap(), &vec!["player".to_string()]);
}

#[test]
fn tags_index_and_lookup() {
    let mut w: World<i32> = World::new(vec![]);
    let a = w.create_entity(&["x", "y"], Some(7), 1);
    let b = w.create_entity(&["y"], None, 2);
    let mut ys = w.ids_by_tag("y");
    ys.sort();
    assert_eq!(ys, vec![a, b]);
    assert_eq!(w.ids_by_tag("x"), vec![a]);
    assert_eq!(w.ids_by_tag("z"), Vec::<u64>::new());
    assert_eq!(w.get_render(a), Some(7));
    assert_eq!(w.get_render(b), None);
    assert_eq!(w.transform_by_id(b), Some(&2));
    assert!(w.set_transform(b, 5));
    assert_eq!(w.transform_by_id(b), Some(&5));
    assert_eq!(w.delete_entity(a), Some(7));
    assert_eq!(w.ids_by_tag("y"), vec![b]);
    assert_eq!(w.tags_by_id(a), None);
    assert_eq!(w.delete_entity(a), None);
    assert!(!w.set_transform(a, 1));
}

#[test]
fn entity_ids_are_not_reused() {
    let mut w: World<()> = World::new(vec![]);
    let a = w.create_entity(&[], None, ());
    w.delete_entity(a);
    let b = w.create_entity(&[], None, ());
    assert_ne!(a, b);
    assert!(w.can_create());
    assert_eq!(w.behavior_count(), 0);
}

#[test]
fn deleting_entity_releases_its_render() {
    let mut r: EntityRenderer<u32> = EntityRenderer::new(10, 4);
    let mut w: World<()> = World::new(vec![]);
    let rid = r
        .create_render(Some(EntityTexture::DynamicRGBA(vec![(1, 1)])), Some(EntityModel::InitialSize(10)), vec![0], Some(10))
        .unwrap();
    let e = w.create_entity(&["thing"], Some(rid), ());
    assert!(w.delete_entity_and_render(&mut r, e));
    assert_eq!(r.textures().len(), 0);
    assert_eq!(r.mesh_range(rid), None);
    assert!(!w.delete_entity_and_render(&mut r, e));
}
