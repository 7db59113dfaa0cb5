use rgraphics::entity_renderer::{
    texture_requests, EntityModel, EntityRenderer, EntityTexture, RenderError, RenderTargetType,
    SetVerticesData, TexRequest,
};
use rgraphics::meshmanager::GeometryError;
use rgraphics::texmanager::TextureError;

fn images(texture: &Option<EntityTexture>) -> Vec<u32> {
    (0..texture_requests(texture).len() as u32).collect()
}

#[test]
fn requests_of_render_targets() {
    let t = Some(EntityTexture::RenderTarget { width: 4, height: 3, ty: RenderTargetType::RGBA32Depth, post_enabled: true });
    assert_eq!(
        texture_requests(&t),
        vec![
            TexRequest::Color { width: 4, height: 3 },
            TexRequest::Color { width: 4, height: 3 },
            TexRequest::Depth { width: 4, height: 3 },
        ]
    );
    let t = Some(EntityTexture::RenderTarget { width: 4, height: 3, ty: RenderTargetType::Depth, post_enabled: true });
    assert_eq!(texture_requests(&t), vec![TexRequest::Depth { width: 4, height: 3 }]);
    let t = Some(EntityTexture::RenderTarget { width: 4, height: 3, ty: RenderTargetType::RGBA32, post_enabled: false });
    assert_eq!(texture_requests(&t), vec![TexRequest::Color { width: 4, height: 3 }]);
    let t = Some(EntityTexture::DynamicRGBA(vec![(1, 2), (3, 4)]));
    assert_eq!(
        texture_requests(&t),
        vec![TexRequest::Color { width: 1, height: 2 }, TexRequest::Color { width: 3, height: 4 }]
    );
    let t = Some(EntityTexture::Resource(vec!["a.png".to_string(), "b.png".to_string()]));
    assert_eq!(texture_requests(&t), vec![TexRequest::Resource(0), TexRequest::Resource(1)]);
    assert_eq!(texture_requests(&None), vec![]);
}

#[test]
fn create_allocates_textures_and_geometry() {
    let mut r: EntityRenderer<u32> = EntityRenderer::new(100, 8);
    let t = Some(EntityTexture::RenderTarget { width: 2, height: 2, ty: RenderTargetType::RGBA32Depth, post_enabled: false });
    let imgs = images(&t);
    let id = r.create_render(t, Some(EntityModel::InitialSize(12)), imgs, Some(12)).unwrap();
    assert_eq!(id, 0);
    assert_eq!(r.textures().len(), 2);
    assert_eq!(r.mesh_range(id), Some(0..12));
    let id2 = r.create_render(None, None, vec![], None).unwrap();
    assert_eq!(id2, 1);
    assert_eq!(r.mesh_range(id2), None);
}

#[test]
fn delete_releases_everything() {
    let mut r: EntityRenderer<u32> = EntityRenderer::new(10, 4);
    let t = Some(EntityTexture::DynamicRGBA(vec![(1, 1), (2, 2)]));
    let imgs = images(&t);
    let id = r.create_render(t, Some(EntityModel::InitialSize(10)), imgs, Some(10)).unwrap();
    assert_eq!(r.textures().len(), 2);
    assert!(r.delete_render(id));
    assert_eq!(r.textures().len(), 0);
    assert_eq!(r.mesh_range(id), None);
    // The whole buffer can be had again.
    let again = r.create_render(None, Some(EntityModel::InitialSize(10)), vec![], Some(10)).unwrap();
    assert_eq!(r.mesh_range(again), Some(0..10));
    assert!(!r.delete_render(99));
}

#[test]
fn create_fails_without_change_when_texture_array_is_full() {
    let mut r: EntityRenderer<u32> = EntityRenderer::new(10, 1);
    let t = Some(EntityTexture::DynamicRGBA(vec![(1, 1), (2, 2)]));
    let imgs = images(&t);
    let e = r.create_render(t, Some(EntityModel::InitialSize(4)), imgs, Some(4)).unwrap_err();
    assert_eq!(e, RenderError::Texture(TextureError::TextureArrayFull));
    assert_eq!(r.textures().len(), 0);
    let id = r.create_render(None, Some(EntityModel::InitialSize(10)), vec![], Some(10)).unwrap();
    assert_eq!(r.mesh_range(id), Some(0..10));
}

#[test]
fn create_fails_without_change_when_geometry_is_short() {
    let mut r: EntityRenderer<u32> = EntityRenderer::new(10, 4);
    let t = Some(EntityTexture::DynamicRGBA(vec![(1, 1)]));
    let imgs = images(&t);
    let e = r.create_render(t, Some(EntityModel::InitialSize(11)), imgs, Some(11)).unwrap_err();
    assert_eq!(e, RenderError::Geometry(GeometryError::OutOfGeometrySpace));
    assert_eq!(r.textures().len(), 0);
}

#[test]
fn replace_round_trip() {
    let mut r: EntityRenderer<u32> = EntityRenderer::new(100, 4);
    let id = r.create_render(None, Some(EntityModel::InitialSize(5)), vec![], Some(5)).unwrap();
    let w = r.set_vertices(id, SetVerticesData::Replace(7)).unwrap();
    assert_eq!(w.end - w.start, 7);
    let range = r.mesh_range(id).unwrap();
    assert_eq!(range.end - range.start, 7);
    let w2 = r.set_vertices(id, SetVerticesData::Replace(7)).unwrap();
    assert_eq!(w2, w);
    assert_eq!(r.mesh_range(id).unwrap(), range);
}

#[test]
fn modify_in_place_must_fit() {
    let mut r: EntityRenderer<u32> = EntityRenderer::new(100, 4);
    let _pad = r.create_render(None, Some(EntityModel::InitialSize(3)), vec![], Some(3)).unwrap();
    let id = r.create_render(None, Some(EntityModel::InitialSize(8)), vec![], Some(8)).unwrap();
    assert_eq!(r.set_vertices(id, SetVerticesData::ModifyAt(2, 6)), Ok(5..11));
    assert_eq!(
        r.set_vertices(id, SetVerticesData::ModifyAt(3, 6)),
        Err(RenderError::Geometry(GeometryError::RegionTooSmall))
    );
    assert_eq!(r.mesh_range(id), Some(3..11));
}

#[test]
fn vertices_of_unknown_or_meshless_render() {
    let mut r: EntityRenderer<u32> = EntityRenderer::new(10, 4);
    assert_eq!(r.set_vertices(3, SetVerticesData::Replace(1)), Err(RenderError::UnknownRender));
    let id = r.create_render(None, Some(EntityModel::Alias(0)), vec![], None).unwrap();
    assert_eq!(r.set_vertices(id, SetVerticesData::Replace(1)), Err(RenderError::NoGeometry));
}

#[test]
fn replace_that_cannot_grow_drops_geometry() {
    let mut r: EntityRenderer<u32> = EntityRenderer::new(10, 4);
    let id = r.create_render(None, Some(EntityModel::InitialSize(4)), vec![], Some(4)).unwrap();
    assert_eq!(
        r.set_vertices(id, SetVerticesData::Replace(11)),
        Err(RenderError::Geometry(GeometryError::OutOfGeometrySpace))
    );
    assert_eq!(r.mesh_range(id), None);
}

#[test]
fn texture_rebuild_is_tracked_through_registry() {
    let mut r: EntityRenderer<u32> = EntityRenderer::new(10, 4);
    let t = Some(EntityTexture::DynamicRGBA(vec![(1, 1)]));
    let imgs = images(&t);
    let id = r.create_render(t, None, imgs, None).unwrap();
    assert!(r.textures().needs_rebuild());
    r.mark_textures_rebuilt();
    assert!(!r.textures().needs_rebuild());
    r.delete_render(id);
    assert!(r.textures().needs_rebuild());
}

#[test]
fn images_of_a_render_in_order() {
    let mut r: EntityRenderer<u32> = EntityRenderer::new(10, 8);
    let _first = r.create_render(Some(EntityTexture::DynamicRGBA(vec![(1, 1)])), None, vec![10], None).unwrap();
    let t = Some(EntityTexture::RenderTarget { width: 2, height: 2, ty: RenderTargetType::RGBA32Depth, post_enabled: true });
    let id = r.create_render(t, None, vec![20, 21, 22], None).unwrap();
    assert_eq!(r.render_texture(id, 0), Some(&20));
    assert_eq!(r.render_texture(id, 1), Some(&21));
    assert_eq!(r.render_texture(id, 2), Some(&22));
    assert_eq!(r.render_texture(id, 3), None);
    assert_eq!(r.render_texture(id + 1, 0), None);
}
