use std::cell::Cell;
use miau::assets::{AssetError, Assets, Handle};
use std::rc::Rc;

#[test]
fn asset_loads_once_and_is_shared() {
    let calls = Cell::new(0u32);
    let mut a: Assets<&str, String> = Assets::new();
    a.register_loader(1, "meshes");
    let fetch = |l: &&str, p: &str| -> Result<String, String> {
        calls.set(calls.get() + 1);
        Ok(format!("{}:{}", l, p))
    };
    let h1 = a.load(1, "cube.obj", fetch).unwrap();
    let h2 = a.load(1, "cube.obj", fetch).unwrap();
    let h3 = a.load(1, "cat.obj", fetch).unwrap();
    assert_eq!(calls.get(), 2);
    assert_eq!(h1.path(), "cube.obj");
    assert_eq!(h1.data(), "meshes:cube.obj");
    assert_eq!(h2.data(), "meshes:cube.obj");
    assert_eq!(h3.data(), "meshes:cat.obj");
}

#[test]
fn asset_without_loader_or_failing_is_an_error() {
    let mut a: Assets<(), u8> = Assets::new();
    let ok = |_: &(), _: &str| -> Result<u8, String> { Ok(1) };
    let bad = |_: &(), p: &str| -> Result<u8, String> { Err(format!("missing {}", p)) };
    assert_eq!(a.load(2, "x", ok).err(), Some(AssetError::NoLoader(2)));
    a.register_loader(2, ());
    assert_eq!(a.load(2, "x", bad).err(), Some(AssetError::Load("missing x".to_string())));
    assert_eq!(*a.load(2, "x", ok).unwrap().data(), 1);
    assert_eq!(*a.load(2, "x", bad).unwrap().data(), 1);
}

#[test]
fn handle_share_keeps_path_and_value() {
    let h = Handle::new("tex.png", Rc::new(vec![1u8, 2]));
    let s = h.share();
    assert_eq!(s.path(), "tex.png");
    assert_eq!(s.data(), &vec![1u8, 2]);
}
