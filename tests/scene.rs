use std::any::{Any, TypeId};
use std::cell::RefCell;
use std::collections::hash_map::DefaultHasher;
use std::hash::{Hash, Hasher};
use std::rc::Rc;

use glam::{Quat, Vec3};
use miau::assets::{Assets, Handle};
use miau::registry::Registry;
use miau::scene::{load, save, LoadError, Scene, Snapshot};
use miau::storage::Storage;
use miau::world::{Entity, World};
use serde_json::Value;

type Comp = Box<dyn Any>;
type Enc = Rc<dyn Fn(&dyn Any) -> Value>;
type Dec = Rc<dyn Fn(&Value) -> Option<Comp>>;

struct Codec {
    enc: Enc,
    dec: Dec,
}

fn key_of<T: 'static>() -> u64 {
    let mut h = DefaultHasher::new();
    TypeId::of::<T>().hash(&mut h);
    h.finish()
}

fn encode(c: &Codec, v: &Comp) -> Value {
    (c.enc)(v.as_ref())
}

fn decode(c: &Codec, v: &Value) -> Option<Comp> {
    (c.dec)(v)
}

#[derive(Debug, PartialEq)]
struct Health(u32);

#[derive(Debug, PartialEq)]
struct Name(String);

struct Spin;

fn health_codec() -> Codec {
    Codec {
        enc: Rc::new(|c: &dyn Any| Value::from(c.downcast_ref::<Health>().unwrap().0)),
        dec: Rc::new(|v: &Value| v.as_u64().map(|n| Box::new(Health(n as u32)) as Comp)),
    }
}

fn name_codec() -> Codec {
    Codec {
        enc: Rc::new(|c: &dyn Any| Value::from(c.downcast_ref::<Name>().unwrap().0.clone())),
        dec: Rc::new(|v: &Value| v.as_str().map(|s| Box::new(Name(s.to_string())) as Comp)),
    }
}

fn value_of<T: 'static>(s: &Storage<Comp>, t: usize, i: usize) -> &T {
    s.table_rows(t)[i].value.downcast_ref::<T>().unwrap()
}

#[test]
fn registered_types_round_trip() {
    let mut w: World<Comp, (), ()> = World::new();
    let mut reg: Registry<Codec> = Registry::new();
    reg.register(key_of::<Health>(), health_codec());
    reg.register(key_of::<Name>(), name_codec());
    let a = Entity::new(10);
    let b = Entity::new(20);
    a.insert(&mut w, key_of::<Health>(), Box::new(Health(3)));
    b.insert(&mut w, key_of::<Name>(), Box::new(Name("bee".to_string())));
    b.insert(&mut w, key_of::<Health>(), Box::new(Health(7)));
    a.insert(&mut w, key_of::<Health>(), Box::new(Health(4)));

    let scene = save(&w.components, &reg, encode);
    assert!(scene.skipped.is_empty());
    let back = load(&scene.snapshot, &reg, decode).unwrap();
    assert_eq!(back.table_count(), 2);
    assert_eq!(back.table_key(0), key_of::<Health>());
    assert_eq!(back.table_key(1), key_of::<Name>());
    let rows = back.table_rows(0);
    let ids: Vec<u64> = rows.iter().map(|r| r.entity).collect();
    assert_eq!(ids, vec![10, 20, 10]);
    assert_eq!(value_of::<Health>(&back, 0, 0), &Health(3));
    assert_eq!(value_of::<Health>(&back, 0, 1), &Health(7));
    assert_eq!(value_of::<Health>(&back, 0, 2), &Health(4));
    assert_eq!(back.table_rows(1)[0].entity, 20);
    assert_eq!(value_of::<Name>(&back, 1, 0), &Name("bee".to_string()));
}

#[test]
fn empty_storage_round_trips() {
    let s: Storage<Comp> = Storage::new();
    let reg: Registry<Codec> = Registry::new();
    let scene = save(&s, &reg, encode);
    assert_eq!(scene.snapshot.len(), 0);
    assert_eq!(load(&scene.snapshot, &reg, decode).unwrap().table_count(), 0);
}

#[test]
fn unregistered_type_is_dropped_on_save() {
    let mut w: World<Comp, (), ()> = World::new();
    let mut reg: Registry<Codec> = Registry::new();
    reg.register(key_of::<Health>(), health_codec());
    let a = Entity::new(1);
    a.insert(&mut w, key_of::<Spin>(), Box::new(Spin));
    a.insert(&mut w, key_of::<Health>(), Box::new(Health(9)));
    let scene = Scene::from_world(&w, &reg, encode);
    assert_eq!(scene.skipped, vec![key_of::<Spin>()]);
    assert_eq!(scene.snapshot.len(), 1);
    assert_eq!(scene.snapshot.key_at(0), key_of::<Health>());
    let mut fresh: World<Comp, (), ()> = World::new();
    scene.set_world(&mut fresh, &reg, decode).unwrap();
    assert_eq!(fresh.components.table_count(), 1);
    assert_eq!(value_of::<Health>(&fresh.components, 0, 0), &Health(9));
    assert!(fresh.get(key_of::<Spin>()).unwrap().is_empty());
}

#[test]
fn unknown_type_in_snapshot_is_refused() {
    let reg: Registry<Codec> = Registry::new();
    let mut snap: Snapshot<Value> = Snapshot::new();
    snap.insert(77, vec![(1, Value::from(1))]);
    assert_eq!(load(&snap, &reg, decode).err(), Some(LoadError::UnknownComponent(77)));
    let mut w: World<Comp, (), ()> = World::new();
    Entity::new(5).insert(&mut w, 3, Box::new(Health(1)));
    let scene = Scene { snapshot: snap, skipped: vec![] };
    assert_eq!(scene.set_world(&mut w, &reg, decode), Err(LoadError::UnknownComponent(77)));
    assert_eq!(w.components.table_key(0), 3);
}

#[test]
fn unreadable_payload_is_refused() {
    let mut reg: Registry<Codec> = Registry::new();
    reg.register(key_of::<Health>(), health_codec());
    let mut snap: Snapshot<Value> = Snapshot::new();
    snap.insert(
        key_of::<Health>(),
        vec![(1, Value::from(5)), (2, Value::from("five"))],
    );
    assert_eq!(
        load(&snap, &reg, decode).err(),
        Some(LoadError::BadPayload { key: key_of::<Health>(), index: 1 })
    );
}

#[derive(Debug, Clone, Copy, PartialEq)]
struct Transform {
    position: Vec3,
    rotation: Quat,
    scale: Vec3,
}

impl Transform {
    fn new() -> Self {
        Transform { position: Vec3::ZERO, rotation: Quat::IDENTITY, scale: Vec3::ONE }
    }
}

struct Model {
    mesh: Handle<String>,
    tex: Handle<String>,
}

fn transform_codec() -> Codec {
    Codec {
        enc: Rc::new(|c: &dyn Any| {
            let t = c.downcast_ref::<Transform>().unwrap();
            Value::Array(vec![
                serde_json::to_value(t.position).unwrap(),
                serde_json::to_value(t.rotation).unwrap(),
                serde_json::to_value(t.scale).unwrap(),
            ])
        }),
        dec: Rc::new(|v: &Value| {
            let a = v.as_array()?;
            Some(Box::new(Transform {
                position: serde_json::from_value(a.first()?.clone()).ok()?,
                rotation: serde_json::from_value(a.get(1)?.clone()).ok()?,
                scale: serde_json::from_value(a.get(2)?.clone()).ok()?,
            }) as Comp)
        }),
    }
}

fn model_codec(assets: Rc<RefCell<Assets<(), String>>>) -> Codec {
    let fetch = |_: &(), p: &str| -> Result<String, String> { Ok(format!("contents of {}", p)) };
    Codec {
        enc: Rc::new(|c: &dyn Any| {
            let m = c.downcast_ref::<Model>().unwrap();
            Value::Array(vec![Value::from(m.mesh.path()), Value::from(m.tex.path())])
        }),
        dec: Rc::new(move |v: &Value| {
            let a = v.as_array()?;
            let mut assets = assets.borrow_mut();
            let mesh = assets.load(1, a.first()?.as_str()?, fetch).ok()?;
            let tex = assets.load(2, a.get(1)?.as_str()?, fetch).ok()?;
            Some(Box::new(Model { mesh, tex }) as Comp)
        }),
    }
}

fn to_document(s: &Snapshot<Value>) -> String {
    let mut doc = serde_json::Map::new();
    for g in 0..s.len() {
        let rows: Vec<Value> = s
            .rows_at(g)
            .iter()
            .map(|(e, p)| Value::Array(vec![Value::from(*e), p.clone()]))
            .collect();
        doc.insert(s.key_at(g).to_string(), Value::Array(rows));
    }
    serde_json::to_string(&Value::Object(doc)).unwrap()
}

fn from_document(text: &str) -> Snapshot<Value> {
    let doc: Value = serde_json::from_str(text).unwrap();
    let mut s = Snapshot::new();
    for (k, rows) in doc.as_object().unwrap() {
        let rows = rows
            .as_array()
            .unwrap()
            .iter()
            .map(|r| (r[0].as_u64().unwrap(), r[1].clone()))
            .collect();
        s.insert(k.parse().unwrap(), rows);
    }
    s
}

#[test]
fn scene_survives_save_clear_and_load() {
    let assets = Rc::new(RefCell::new(Assets::new()));
    assets.borrow_mut().register_loader(1, ());
    assets.borrow_mut().register_loader(2, ());
    let mut reg: Registry<Codec> = Registry::new();
    reg.register(key_of::<Transform>(), transform_codec());
    reg.register(key_of::<Model>(), model_codec(assets.clone()));

    let mut w: World<Comp, (), ()> = World::new();
    let fetch = |_: &(), p: &str| -> Result<String, String> { Ok(format!("contents of {}", p)) };
    let e1 = w.spawn();
    let e2 = w.spawn();
    let mesh = assets.borrow_mut().load(1, "m", fetch).unwrap();
    let tex = assets.borrow_mut().load(2, "t", fetch).unwrap();
    e1.insert(&mut w, key_of::<Transform>(), Box::new(Transform::new()))
        .insert(&mut w, key_of::<Model>(), Box::new(Model { mesh, tex }));
    let t2 = Transform { position: Vec3::new(-4.0, 0.0, 2.0), scale: Vec3::splat(0.5), ..Transform::new() };
    e2.insert(&mut w, key_of::<Transform>(), Box::new(t2));

    let text = to_document(&Scene::from_world(&w, &reg, encode).snapshot);
    w.components = Storage::new();
    assert_eq!(w.components.table_count(), 0);
    let scene = Scene { snapshot: from_document(&text), skipped: vec![] };
    scene.set_world(&mut w, &reg, decode).unwrap();

    let g = e1.get_one(&mut w, key_of::<Transform>()).unwrap().unwrap();
    let t = w.components.component(&g).unwrap().downcast_ref::<Transform>().unwrap();
    assert_eq!(*t, Transform::new());
    let g = e2.get_one(&mut w, key_of::<Transform>()).unwrap().unwrap();
    let t = w.components.component(&g).unwrap().downcast_ref::<Transform>().unwrap();
    assert_eq!(t.position, Vec3::new(-4.0, 0.0, 2.0));
    assert_eq!(t.scale, Vec3::splat(0.5));
    assert_eq!(t.rotation, Quat::IDENTITY);
    let g = e1.get_one(&mut w, key_of::<Model>()).unwrap().unwrap();
    let m = w.components.component(&g).unwrap().downcast_ref::<Model>().unwrap();
    assert_eq!(m.mesh.path(), "m");
    assert_eq!(m.tex.path(), "t");
    assert_eq!(m.mesh.data(), "contents of m");
    assert!(e2.get_one(&mut w, key_of::<Model>()).unwrap().is_none());
}
