use maple_core::archive::{Archive, Node, NodeValue, ResolutionError};
use maple_core::cache::ImageCache;
use maple_core::map::chain::chain_balanced;
use maple_core::map::{footholds_from, Drawable, Foothold, GameMap, MapBackground, MapLife, Portal};
use maple_core::value::Vec2;

fn add(a: &mut Archive, p: Node, name: &str, v: NodeValue) -> Node {
    a.add_child(p, name.to_string(), v).unwrap()
}

fn ints(a: &mut Archive, p: Node, fields: &[(&str, i32)]) {
    for (name, v) in fields {
        add(a, p, name, NodeValue::Int(*v));
    }
}

fn fh(id: i32, prev: i32, next: i32) -> (i32, Foothold) {
    let z = Vec2 { x: 0, y: 0 };
    (id, Foothold { start: z, end: z, prev, next, page: 0, z_mass: 0 })
}

#[test]
fn chains_have_as_many_heads_as_tails() {
    let group = vec![fh(1, 0, 2), fh(2, 1, 3), fh(3, 2, 0), fh(4, 0, 5), fh(5, 4, 0)];
    assert!(chain_balanced(&group));
    let broken = vec![fh(1, 0, 2), fh(2, 0, 0), fh(3, 0, 0)];
    assert!(!chain_balanced(&broken));
    assert!(chain_balanced(&vec![]));
}

#[test]
fn footholds_are_read_from_three_levels() {
    let mut a = Archive::new("Map".to_string());
    let root = a.root();
    let top = add(&mut a, root, "foothold", NodeValue::Directory);
    let page = add(&mut a, top, "2", NodeValue::Directory);
    let mass = add(&mut a, page, "5", NodeValue::Directory);
    let seg = add(&mut a, mass, "17", NodeValue::Directory);
    ints(&mut a, seg, &[("x1", 1), ("x2", 9), ("y1", 3), ("y2", 4), ("next", 0), ("prev", 16)]);
    let v = footholds_from(&a, top).unwrap();
    assert_eq!(v.len(), 1);
    assert_eq!(v[0].0, 17);
    assert_eq!(v[0].1.page, 2);
    assert_eq!(v[0].1.z_mass, 5);
    assert_eq!(v[0].1.prev, 16);
    assert_eq!((v[0].1.end.x, v[0].1.end.y), (9, 4));
}

#[test]
fn foothold_with_bad_id_is_refused() {
    let mut a = Archive::new("Map".to_string());
    let root = a.root();
    let top = add(&mut a, root, "foothold", NodeValue::Directory);
    add(&mut a, top, "page", NodeValue::Directory);
    assert_eq!(footholds_from(&a, top).err(), Some(ResolutionError::BadKey));
}

#[test]
fn life_facing_defaults_to_zero() {
    let mut a = Archive::new("Map".to_string());
    let root = a.root();
    let l = add(&mut a, root, "0", NodeValue::Directory);
    ints(&mut a, l, &[("cy", 1), ("fh", 2), ("rx0", 3), ("rx1", 4), ("x", 5), ("y", 6)]);
    add(&mut a, l, "id", NodeValue::Text("9000".to_string()));
    add(&mut a, l, "type", NodeValue::Text("n".to_string()));
    let life = MapLife::from(&a, l).unwrap();
    assert_eq!(life.f, 0);
    assert_eq!(life.kind, "n");
    assert_eq!(life.id, "9000");
    assert_eq!((life.cy, life.fh, life.rx0, life.rx1, life.x, life.y), (1, 2, 3, 4, 5, 6));
}

#[test]
fn portal_reads_its_position() {
    let mut a = Archive::new("Map".to_string());
    let root = a.root();
    let p = add(&mut a, root, "0", NodeValue::Directory);
    add(&mut a, p, "pn", NodeValue::Text("sp".to_string()));
    ints(&mut a, p, &[("pt", 0), ("x", -40), ("y", 12)]);
    let portal = Portal::from(&a, p).unwrap();
    assert_eq!(portal.pn, "sp");
    assert_eq!((portal.position.x, portal.position.y), (-40, 12));
}

fn back_fields(a: &mut Archive, b: Node, ani: i32) {
    add(a, b, "bS", NodeValue::Text("grass".to_string()));
    ints(
        a,
        b,
        &[("ani", ani), ("no", 3), ("x", 10), ("y", 20), ("front", 0), ("f", 1), ("cx", 0), ("cy", 0), ("type", 3), ("rx", 0), ("ry", 0), ("a", 255)],
    );
}

#[test]
fn background_reads_its_image() {
    let mut a = Archive::new("Base".to_string());
    let root = a.root();
    let m = add(&mut a, root, "Map", NodeValue::Directory);
    let back = add(&mut a, m, "Back", NodeValue::Directory);
    let img = add(&mut a, back, "grass.img", NodeValue::Container);
    let kind = add(&mut a, img, "back", NodeValue::Directory);
    let s = add(&mut a, kind, "3", NodeValue::Image { width: 2, height: 2 });
    add(&mut a, s, "origin", NodeValue::Vector(0, 0));
    a.mark_parsed(img);
    let b = add(&mut a, root, "placement", NodeValue::Directory);
    back_fields(&mut a, b, 0);
    let mut cache = ImageCache::new();
    let bg = MapBackground::new(&a, &mut cache, root, b).unwrap();
    assert!(bg.flip);
    assert_eq!(bg.kind, 3);
    assert_eq!((bg.offset_x, bg.offset_y), (10, 20));
    match bg.sprite {
        Drawable::Sprite(s) => assert_eq!(s.path, "Base/Map/Back/grass.img/back/3"),
        Drawable::SpriteAnimation(_) => panic!("expected a still sprite"),
    }
}

#[test]
fn background_with_unknown_animation_kind_is_refused() {
    let mut a = Archive::new("Base".to_string());
    let root = a.root();
    let b = add(&mut a, root, "placement", NodeValue::Directory);
    back_fields(&mut a, b, 7);
    let mut cache = ImageCache::new();
    assert_eq!(MapBackground::new(&a, &mut cache, root, b).err(), Some(ResolutionError::BadValue));
}

#[test]
fn background_in_unparsed_container_asks_for_parse() {
    let mut a = Archive::new("Base".to_string());
    let root = a.root();
    let m = add(&mut a, root, "Map", NodeValue::Directory);
    let back = add(&mut a, m, "Back", NodeValue::Directory);
    let img = add(&mut a, back, "grass.img", NodeValue::Container);
    let b = add(&mut a, root, "placement", NodeValue::Directory);
    back_fields(&mut a, b, 0);
    let mut cache = ImageCache::new();
    assert_eq!(MapBackground::new(&a, &mut cache, root, b).err(), Some(ResolutionError::NeedsParse(img)));
}

#[test]
fn empty_map_is_assembled() {
    let mut a = Archive::new("Base".to_string());
    let root = a.root();
    let m = add(&mut a, root, "Map", NodeValue::Directory);
    let maps = add(&mut a, m, "Map", NodeValue::Directory);
    let group = add(&mut a, maps, "Map1", NodeValue::Directory);
    let img = add(&mut a, group, "100000000.img", NodeValue::Container);
    for part in ["back", "foothold", "life", "portal"] {
        add(&mut a, img, part, NodeValue::Directory);
    }
    for layer in ["0", "1", "2", "3", "4", "5", "6"] {
        add(&mut a, img, layer, NodeValue::Directory);
    }
    let info = add(&mut a, img, "info", NodeValue::Directory);
    ints(&mut a, info, &[("VRTop", -100), ("VRBottom", 100), ("VRLeft", -200), ("VRRight", 200)]);
    let helper = add(&mut a, m, "MapHelper.img", NodeValue::Container);
    let portal = add(&mut a, helper, "portal", NodeValue::Directory);
    let game = add(&mut a, portal, "game", NodeValue::Directory);
    add(&mut a, game, "pv", NodeValue::Directory);
    let mut cache = ImageCache::new();
    assert_eq!(GameMap::new(&a, &mut cache, root, "100000000").err(), Some(ResolutionError::NeedsParse(img)));
    a.mark_parsed(img);
    assert_eq!(GameMap::new(&a, &mut cache, root, "100000000").err(), Some(ResolutionError::NeedsParse(helper)));
    a.mark_parsed(helper);
    let map = GameMap::new(&a, &mut cache, root, "100000000").unwrap();
    assert_eq!(map.layers.len(), 7);
    assert_eq!(map.info.vr_left, -200);
    assert!(map.portals.is_empty());
    assert!(map.helper.pv.is_empty());
    assert!(map.portal_timer.intervals.is_empty());
}

fn object(a: &mut Archive, obj: Node, id: &str, z: i32) {
    let o = add(a, obj, id, NodeValue::Directory);
    for (name, text) in [("oS", "sheet"), ("l0", "a"), ("l1", "b"), ("l2", "c")] {
        add(a, o, name, NodeValue::Text(text.to_string()));
    }
    ints(a, o, &[("f", 0), ("x", 1), ("y", 2), ("z", z)]);
}

#[test]
fn layer_objects_are_stably_sorted_by_z() {
    let mut a = Archive::new("Base".to_string());
    let root = a.root();
    let m = add(&mut a, root, "Map", NodeValue::Directory);
    let objs = add(&mut a, m, "Obj", NodeValue::Directory);
    let sheet = add(&mut a, objs, "sheet.img", NodeValue::Container);
    let l0 = add(&mut a, sheet, "a", NodeValue::Directory);
    let l1 = add(&mut a, l0, "b", NodeValue::Directory);
    let l2 = add(&mut a, l1, "c", NodeValue::Directory);
    let frame = add(&mut a, l2, "0", NodeValue::Image { width: 3, height: 3 });
    add(&mut a, frame, "origin", NodeValue::Vector(0, 0));
    add(&mut a, frame, "delay", NodeValue::Int(120));
    a.mark_parsed(sheet);
    let layer = add(&mut a, root, "layer", NodeValue::Directory);
    let obj = add(&mut a, layer, "obj", NodeValue::Directory);
    object(&mut a, obj, "0", 5);
    object(&mut a, obj, "1", 2);
    object(&mut a, obj, "2", 5);
    let mut cache = ImageCache::new();
    let l = maple_core::map::MapLayer::from(&a, &mut cache, root, layer).unwrap();
    let ids: Vec<i32> = l.objects.iter().map(|o| o.id).collect();
    assert_eq!(ids, vec![1, 0, 2]);
    assert!(l.tiles.is_empty());
    assert_eq!(l.objects[0].sprites.len(), 1);
    assert_eq!(l.objects[0].timer.intervals, vec![120]);
    assert_eq!(cache.len(), 1);
}
