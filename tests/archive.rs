use maple_core::archive::{split_segments, Archive, Node, NodeValue, ResolutionError, ValueKind};
use maple_core::cache::ImageCache;
use maple_core::keys::{decimal_string, try_parse_index_key, try_parse_signed_key};
use maple_core::sprite::{sprites_from, Sprite, SpriteAnimation};

fn add(a: &mut Archive, p: Node, name: &str, v: NodeValue) -> Node {
    a.add_child(p, name.to_string(), v).unwrap()
}

fn sprite_node(a: &mut Archive, p: Node, name: &str, w: u32, h: u32) -> Node {
    let s = add(a, p, name, NodeValue::Image { width: w, height: h });
    add(a, s, "origin", NodeValue::Vector(1, 2));
    s
}

/// Base / A / B.img (unparsed container) whose decoded content is C.
fn sample() -> (Archive, Node, Node) {
    let mut a = Archive::new("Base".to_string());
    let root = a.root();
    let dir = add(&mut a, root, "A", NodeValue::Directory);
    let img = add(&mut a, dir, "B.img", NodeValue::Container);
    (a, root, img)
}

fn decode(a: &mut Archive, img: Node) {
    let c = add(a, img, "C", NodeValue::Int(7));
    add(a, c, "D", NodeValue::Text("deep".to_string()));
    a.mark_parsed(img);
}

#[test]
fn crossing_an_unparsed_container_asks_for_a_parse() {
    let (a, root, img) = sample();
    assert_eq!(root.at_path(&a, "A/B.img/C"), Err(ResolutionError::NeedsParse(img)));
    assert_eq!(root.at_path(&a, "A/B.img"), Err(ResolutionError::NeedsParse(img)));
    assert!(img.children(&a).is_empty());
}

#[test]
fn path_resolves_after_parse_and_composes() {
    let (mut a, root, img) = sample();
    decode(&mut a, img);
    let whole = root.at_path(&a, "A/B.img/C").unwrap();
    let step = root
        .at_path(&a, "A")
        .unwrap()
        .at_path(&a, "B.img")
        .unwrap()
        .at_path(&a, "C")
        .unwrap();
    assert_eq!(whole, step);
    assert_eq!(whole.as_int(&a), Ok(7));
    assert_eq!(whole.path(&a), "Base/A/B.img/C");
    let deep = root.at_path(&a, "A/B.img/C/D").unwrap();
    assert_eq!(deep.as_text(&a), Ok("deep".to_string()));
}

#[test]
fn missing_segments_and_empty_paths_are_not_found() {
    let (mut a, root, img) = sample();
    decode(&mut a, img);
    assert_eq!(root.at_path(&a, ""), Err(ResolutionError::NotFound));
    assert_eq!(root.at_path(&a, "A/X"), Err(ResolutionError::NotFound));
    assert_eq!(root.at_path(&a, "Nope"), Err(ResolutionError::NotFound));
    assert_eq!(root.at_path(&a, "A/"), Err(ResolutionError::NotFound));
}

#[test]
fn lookups_and_type_mismatch() {
    let (mut a, root, img) = sample();
    decode(&mut a, img);
    let dir = root.get(&a, "A");
    assert!(dir.has(&a, "B.img"));
    assert!(!dir.has(&a, "C"));
    assert_eq!(dir.try_get(&a, "zzz"), None);
    let c = img.get(&a, "C");
    assert_eq!(
        c.as_text(&a),
        Err(ResolutionError::TypeMismatch(ValueKind::Text, ValueKind::Int))
    );
    assert_eq!(c.as_bool(&a), Ok(true));
    assert_eq!(img.parse(&a), Ok(img));
    let names: Vec<String> = img.children(&a).iter().map(|(n, _)| n.to_string()).collect();
    assert_eq!(names, vec!["C".to_string()]);
}

#[test]
fn duplicate_child_names_are_refused() {
    let (mut a, root, _) = sample();
    assert!(a.add_child(root, "A".to_string(), NodeValue::Directory).is_none());
}

#[test]
fn split_keeps_empty_segments() {
    let s = split_segments("a//b.img/");
    assert_eq!(s, vec!["a".to_string(), "".to_string(), "b.img".to_string(), "".to_string()]);
}

#[test]
fn index_keys() {
    assert_eq!(try_parse_index_key("0"), Some(0));
    assert_eq!(try_parse_index_key("42"), Some(42));
    assert_eq!(try_parse_index_key("+7"), Some(7));
    assert_eq!(try_parse_index_key("4294967295"), Some(4294967295));
    assert_eq!(try_parse_index_key("4294967296"), None);
    assert_eq!(try_parse_index_key("info"), None);
    assert_eq!(try_parse_index_key(""), None);
    assert_eq!(try_parse_index_key("-1"), None);
    assert_eq!(try_parse_signed_key("-12"), Some(-12));
    assert_eq!(try_parse_signed_key("-2147483648"), Some(i32::MIN));
    assert_eq!(try_parse_signed_key("2147483648"), None);
    assert_eq!(try_parse_signed_key("-"), None);
}

#[test]
fn decimal_names() {
    assert_eq!(decimal_string(0), "0");
    assert_eq!(decimal_string(305), "305");
    assert_eq!(decimal_string(-45), "-45");
    assert_eq!(decimal_string(i32::MIN), "-2147483648");
}

#[test]
fn numbered_children_drop_named_ones() {
    let mut a = Archive::new("Base".to_string());
    let root = a.root();
    let dir = add(&mut a, root, "ani", NodeValue::Directory);
    sprite_node(&mut a, dir, "0", 4, 3);
    add(&mut a, dir, "info", NodeValue::Directory);
    sprite_node(&mut a, dir, "1", 5, 6);
    let mut cache = ImageCache::new();
    let v = sprites_from(&a, &mut cache, dir).unwrap();
    assert_eq!(v.len(), 2);
    assert_eq!(v[0].path, "Base/ani/0");
    assert_eq!(v[1].path, "Base/ani/1");
    assert_eq!(dir.numbered_children(&a).len(), 2);
}

#[test]
fn numbered_children_keep_archive_order() {
    let mut a = Archive::new("Base".to_string());
    let root = a.root();
    let dir = add(&mut a, root, "ani", NodeValue::Directory);
    sprite_node(&mut a, dir, "1", 4, 3);
    sprite_node(&mut a, dir, "0", 5, 6);
    let mut cache = ImageCache::new();
    let v = sprites_from(&a, &mut cache, dir).unwrap();
    assert_eq!(v[0].path, "Base/ani/1");
    assert_eq!(v[1].path, "Base/ani/0");
}

#[test]
fn sprite_defaults_and_fields() {
    let mut a = Archive::new("Base".to_string());
    let root = a.root();
    let s = sprite_node(&mut a, root, "s", 8, 9);
    add(&mut a, s, "z", NodeValue::Int(3));
    let mut cache = ImageCache::new();
    let sp = Sprite::from(&a, &mut cache, s).unwrap();
    assert_eq!((sp.size.x, sp.size.y), (8, 9));
    assert_eq!((sp.origin.x, sp.origin.y), (1, 2));
    assert_eq!(sp.z, 3);
    assert_eq!(sp.delay, 100);
    assert_eq!((sp.a0, sp.a1, sp.alpha), (0, 0, 255));
}

#[test]
fn sprite_without_origin_is_not_found() {
    let mut a = Archive::new("Base".to_string());
    let root = a.root();
    let s = add(&mut a, root, "s", NodeValue::Image { width: 1, height: 1 });
    let mut cache = ImageCache::new();
    assert_eq!(Sprite::from(&a, &mut cache, s).err(), Some(ResolutionError::NotFound));
    assert_eq!(cache.len(), 0);
}

#[test]
fn same_path_shares_one_image() {
    let mut a = Archive::new("Base".to_string());
    let root = a.root();
    let s = sprite_node(&mut a, root, "s", 8, 9);
    let t = sprite_node(&mut a, root, "t", 8, 9);
    let mut cache = ImageCache::new();
    let first = Sprite::from(&a, &mut cache, s).unwrap();
    let other = Sprite::from(&a, &mut cache, t).unwrap();
    let again = Sprite::from(&a, &mut cache, s).unwrap();
    assert_eq!(first.image, again.image);
    assert_ne!(first.image, other.image);
    assert_eq!(cache.len(), 2);
}

#[test]
fn cache_reports_new_paths_once() {
    let mut cache = ImageCache::new();
    let (h1, new1) = cache.image_for("a".to_string());
    let (h2, new2) = cache.image_for("b".to_string());
    let (h3, new3) = cache.image_for("a".to_string());
    assert!(new1 && new2 && !new3);
    assert_eq!(h1, h3);
    assert_ne!(h1, h2);
}

#[test]
fn animation_blends_alpha_over_a_frame() {
    let mut a = Archive::new("Base".to_string());
    let root = a.root();
    let dir = add(&mut a, root, "ani", NodeValue::Directory);
    let f0 = sprite_node(&mut a, dir, "0", 4, 3);
    add(&mut a, f0, "delay", NodeValue::Int(100));
    add(&mut a, f0, "a0", NodeValue::Int(255));
    add(&mut a, f0, "a1", NodeValue::Int(0));
    let f1 = sprite_node(&mut a, dir, "1", 4, 3);
    add(&mut a, f1, "delay", NodeValue::Int(200));
    let mut cache = ImageCache::new();
    let mut an = SpriteAnimation::from(&a, &mut cache, dir).unwrap();
    assert_eq!(an.tick(25), 0);
    assert_eq!(an.frames[0].alpha, 191);
    assert_eq!(an.tick(100), 1);
    assert_eq!(an.frames[1].alpha, 0);
}

#[test]
fn type_of_names_the_type() {
    let v: i32 = 5;
    assert_eq!(maple_core::inspect::type_of(&v), "i32");
    assert_eq!(maple_core::inspect::type_of(&"x".to_string()), "alloc::string::String");
    assert_eq!(maple_core::inspect::type_of(&7i16), "i16");
}
