use std::rc::Rc;

use rgraphics::entity_renderer::{EntityModel, EntityTexture};
use rgraphics::loadable::{Loadable, ResourceBox};
use rgraphics::resources::{classify, ResourceError, ResourceKind, ResourceManager};
use rgraphics::texture::TextureData;

#[derive(Debug)]
struct Echo(String);

impl Loadable<Echo> for Echo {
    fn load(path: &str) -> Result<Echo, std::io::Error> {
        if path.contains("broken") {
            Err(std::io::Error::new(std::io::ErrorKind::InvalidData, "malformed"))
        } else {
            Ok(Echo(path.to_string()))
        }
    }
}

#[test]
fn classify_by_extension() {
    assert_eq!(classify("res/ship.obj"), Some(ResourceKind::Model));
    assert_eq!(classify("res/ship.png"), Some(ResourceKind::Texture));
    assert_eq!(classify("res/ship.jpg"), None);
    assert_eq!(classify("res/.png"), None);
    assert_eq!(classify("png"), None);
}

#[test]
fn box_loads_once_and_shares() {
    let mut b: ResourceBox<Echo> = ResourceBox::new("a.obj");
    assert!(!b.is_loaded());
    let first = b.load().unwrap();
    let second = b.load().unwrap();
    assert!(Rc::ptr_eq(&first, &second));
    assert_eq!(first.0, "a.obj");
    b.unload();
    assert!(!b.is_loaded());
    let third = b.load().unwrap();
    assert!(!Rc::ptr_eq(&first, &third));
}

#[test]
fn box_propagates_decode_failure() {
    let mut b: ResourceBox<Echo> = ResourceBox::new("broken.png");
    assert!(b.load().is_err());
    assert!(!b.is_loaded());
}

#[test]
fn register_under_relative_path() {
    let mut m: ResourceManager<Echo, Echo> = ResourceManager::new();
    assert_eq!(m.register("./res", "./res/models/ship.obj"), Some(ResourceKind::Model));
    assert_eq!(m.register("./res", "./res/tex/ship.png"), Some(ResourceKind::Texture));
    assert_eq!(m.register("./res", "./res/readme.txt"), None);
    let ship = m.load_model("models/ship.obj").unwrap();
    assert_eq!(ship.0, "./res/models/ship.obj");
    let again = m.load_model("models/ship.obj").unwrap();
    assert!(Rc::ptr_eq(&ship, &again));
    let tex = m.load_texture("tex/ship.png").unwrap();
    assert_eq!(tex.0, "./res/tex/ship.png");
    assert!(matches!(m.load_model("tex/ship.png"), Err(ResourceError::NotFound)));
    assert!(matches!(m.load_texture("nothing.png"), Err(ResourceError::NotFound)));
}

#[test]
fn load_failure_is_reported() {
    let mut m: ResourceManager<Echo, Echo> = ResourceManager::new();
    assert_eq!(m.register("/r", "/r/broken.obj"), Some(ResourceKind::Model));
    assert!(matches!(m.load_model("broken.obj"), Err(ResourceError::Io(_))));
}

#[test]
fn absolute_path_against_relative_root_is_skipped() {
    let mut m: ResourceManager<Echo, Echo> = ResourceManager::new();
    assert_eq!(m.register("res", "/abs/ship.obj"), Some(ResourceKind::Model));
    assert!(m.load_model("/abs/ship.obj").is_ok());
    assert_eq!(m.register("/abs", "rel/ship.obj"), None);
}

#[test]
fn texture_data_size_is_checked() {
    assert!(TextureData::new(2, 1, vec![0; 8]).is_some());
    assert!(TextureData::new(2, 1, vec![0; 7]).is_none());
    assert!(TextureData::new(0, 0, vec![]).is_some());
}

#[test]
fn png_decodes_to_rgba() {
    let img = image::RgbaImage::from_raw(2, 1, vec![1, 2, 3, 4, 5, 6, 7, 8]).unwrap();
    let mut bytes: Vec<u8> = Vec::new();
    image::DynamicImage::ImageRgba8(img)
        .write_to(&mut std::io::Cursor::new(&mut bytes), image::ImageOutputFormat::Png)
        .unwrap();
    let t = TextureData::decode_png(&bytes).unwrap();
    assert_eq!((t.width, t.height), (2, 1));
    assert_eq!(t.data, vec![1, 2, 3, 4, 5, 6, 7, 8]);
    assert!(TextureData::decode_png(&[1, 2, 3]).is_none());
}

#[test]
fn render_paths_are_resolved_before_loading() {
    let mut m: ResourceManager<Echo, Echo> = ResourceManager::new();
    m.register("res", "res/ship.obj");
    m.register("res", "res/hull.png");
    let known_tex = Some(EntityTexture::Resource(vec!["hull.png".to_string()]));
    let known_model = Some(EntityModel::Resource("ship.obj".to_string()));
    assert!(m.resolve_render(&known_tex, &known_model).is_ok());
    assert!(m.resolve_render(&None, &Some(EntityModel::InitialSize(3))).is_ok());
    let missing_tex = Some(EntityTexture::Resource(vec!["hull.png".to_string(), "sail.png".to_string()]));
    assert!(matches!(m.resolve_render(&missing_tex, &known_model), Err(ResourceError::NotFound)));
    let missing_model = Some(EntityModel::Resource("boat.obj".to_string()));
    assert!(matches!(m.resolve_render(&known_tex, &missing_model), Err(ResourceError::NotFound)));
    // A model key is not a texture key.
    let wrong_kind = Some(EntityTexture::Resource(vec!["ship.obj".to_string()]));
    assert!(matches!(m.resolve_render(&wrong_kind, &None), Err(ResourceError::NotFound)));
}

#[test]
fn registered_resources_start_unloaded() {
    let mut m: ResourceManager<Echo, Echo> = ResourceManager::new();
    assert_eq!(m.register("res", "res/broken.obj"), Some(ResourceKind::Model));
    // Registration decodes nothing: the failing decode only shows on first use.
    assert!(matches!(m.load_model("broken.obj"), Err(ResourceError::Io(_))));
}
