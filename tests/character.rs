use maple_core::archive::{Archive, Node, NodeValue, ResolutionError};
use maple_core::cache::ImageCache;
use maple_core::character::{AvatarPart, Character, ZMap};
use maple_core::order::{items_of, sort_by_key};

fn add(a: &mut Archive, p: Node, name: &str, v: NodeValue) -> Node {
    a.add_child(p, name.to_string(), v).unwrap()
}

fn text(s: &str) -> NodeValue {
    NodeValue::Text(s.to_string())
}

/// An item for `slot` whose `stand1` frame 0 holds one image `part`.
fn item(
    a: &mut Archive,
    parent: Node,
    slot: &str,
    part: &str,
    layer: &str,
    origin: (i32, i32),
    anchors: &[(&str, i32, i32)],
) -> Node {
    let root = add(a, parent, slot, NodeValue::Directory);
    let info = add(a, root, "info", NodeValue::Directory);
    add(a, info, "islot", text(slot));
    add(a, info, "cash", NodeValue::Int(0));
    let action = add(a, root, "stand1", NodeValue::Directory);
    let frame = add(a, action, "0", NodeValue::Directory);
    add(a, frame, "delay", NodeValue::Int(150));
    let img = add(a, frame, part, NodeValue::Image { width: 10, height: 12 });
    add(a, img, "origin", NodeValue::Vector(origin.0, origin.1));
    add(a, img, "z", text(layer));
    let map = add(a, img, "map", NodeValue::Directory);
    for (name, x, y) in anchors {
        add(a, map, name, NodeValue::Vector(*x, *y));
    }
    root
}

fn avatar(coat_origin: (i32, i32)) -> (Archive, Character) {
    let mut a = Archive::new("Character".to_string());
    let root = a.root();
    let order = add(&mut a, root, "zmap", NodeValue::Directory);
    for layer in ["mailChest", "head", "body"] {
        add(&mut a, order, layer, NodeValue::Directory);
    }
    let bd = item(&mut a, root, "Bd", "body", "body", (0, 0), &[("navel", 10, 20), ("neck", 10, 5)]);
    let hd = item(&mut a, root, "Hd", "head", "head", (0, 0), &[("neck", 3, 4), ("brow", 1, 1)]);
    let ma = item(&mut a, root, "Ma", "mail", "mailChest", coat_origin, &[("navel", 12, 22)]);
    let z_map = ZMap::from(&a, order);
    let mut cache = ImageCache::new();
    let c = Character::new(&a, &mut cache, vec![bd, hd, ma], z_map).unwrap();
    (a, c)
}

#[test]
fn layer_ranks_reverse_the_archive_order() {
    let mut a = Archive::new("Base".to_string());
    let root = a.root();
    let order = add(&mut a, root, "zmap", NodeValue::Directory);
    for layer in ["front", "middle", "back"] {
        add(&mut a, order, layer, NodeValue::Directory);
    }
    let z = ZMap::from(&a, order);
    assert_eq!(z.layers, vec![("back".to_string(), 0), ("middle".to_string(), 1), ("front".to_string(), 2)]);
}

#[test]
fn coat_is_placed_by_the_navel() {
    let (_, c) = avatar((0, 0));
    let frame = c.frame().unwrap();
    assert_eq!(frame.len(), 3);
    let coat = frame.iter().find(|s| s.z == 2).unwrap();
    assert_eq!((coat.origin.x, coat.origin.y), (2, 2));
}

#[test]
fn coat_origin_adds_to_the_offset() {
    let (_, c) = avatar((3, -1));
    let frame = c.frame().unwrap();
    let coat = frame.iter().find(|s| s.z == 2).unwrap();
    assert_eq!((coat.origin.x, coat.origin.y), (5, 1));
}

#[test]
fn frame_is_sorted_by_layer() {
    let (_, c) = avatar((0, 0));
    let frame = c.frame().unwrap();
    let zs: Vec<i32> = frame.iter().map(|s| s.z).collect();
    assert_eq!(zs, vec![0, 1, 2]);
    assert_eq!((frame[0].origin.x, frame[0].origin.y), (0, 0));
    assert_eq!((frame[1].origin.x, frame[1].origin.y), (-7, -1));
    assert_eq!(frame[0].alpha, 255);
    assert_eq!((frame[0].size.x, frame[0].size.y), (10, 12));
}

#[test]
fn unknown_action_is_refused() {
    let (_, mut c) = avatar((0, 0));
    assert_eq!(c.set_action("walk1"), Err(ResolutionError::NotFound));
    assert_eq!(c.action, "stand1");
    assert_eq!(c.set_action("stand1"), Ok(()));
}

#[test]
fn character_starts_standing() {
    let (_, mut c) = avatar((0, 0));
    assert_eq!(c.action, "stand1");
    assert_eq!(c.emotion, "default");
    assert_eq!(c.timer.intervals, vec![150]);
    assert!(!c.tick(100));
    assert_eq!(c.slots.len(), 3);
}

#[test]
fn missing_body_action_fails_construction() {
    let mut a = Archive::new("Character".to_string());
    let root = a.root();
    let order = add(&mut a, root, "zmap", NodeValue::Directory);
    let hd = item(&mut a, root, "Hd", "head", "head", (0, 0), &[("neck", 3, 4)]);
    let z_map = ZMap::from(&a, order);
    let mut cache = ImageCache::new();
    assert_eq!(Character::new(&a, &mut cache, vec![hd], z_map).err(), Some(ResolutionError::NotFound));
}

#[test]
fn item_variants_skip_info_and_action_frames() {
    let mut a = Archive::new("Character".to_string());
    let root = a.root();
    let bd = item(&mut a, root, "Bd", "body", "body", (0, 0), &[("navel", 1, 1)]);
    let walk = add(&mut a, bd, "walk1", NodeValue::Directory);
    let f0 = add(&mut a, walk, "0", NodeValue::Directory);
    add(&mut a, f0, "delay", NodeValue::Int(90));
    let f1 = add(&mut a, walk, "1", NodeValue::Directory);
    add(&mut a, f1, "action", text("stand1"));
    let pose = add(&mut a, bd, "pose", NodeValue::Directory);
    add(&mut a, pose, "delay", NodeValue::Int(10));
    let mut cache = ImageCache::new();
    let part = AvatarPart::from(&a, &mut cache, bd).unwrap();
    let names: Vec<&str> = part.variant.iter().map(|(n, _)| n.as_str()).collect();
    assert_eq!(names, vec!["stand1", "walk1", "pose"]);
    assert_eq!(part.variant[1].1.len(), 1);
    assert_eq!(part.variant[1].1[0].delay, Some(90));
    assert_eq!(part.variant[2].1.len(), 1);
    assert_eq!(part.info.slot, "Bd");
    assert!(!part.info.cash);
}

#[test]
fn equal_keys_keep_their_order() {
    let sorted = sort_by_key(vec![(1, 'a'), (0, 'b'), (1, 'c'), (0, 'd'), (-3, 'e')]);
    assert_eq!(sorted, vec![(-3, 'e'), (0, 'b'), (0, 'd'), (1, 'a'), (1, 'c')]);
    assert_eq!(items_of(sorted), vec!['e', 'b', 'd', 'a', 'c']);
}

#[test]
fn wearing_an_item_replaces_the_slot() {
    let mut a = Archive::new("Character".to_string());
    let root = a.root();
    let order = add(&mut a, root, "zmap", NodeValue::Directory);
    for layer in ["mailChest", "head", "body"] {
        add(&mut a, order, layer, NodeValue::Directory);
    }
    let bd = item(&mut a, root, "Bd", "body", "body", (0, 0), &[("navel", 10, 20), ("neck", 10, 5)]);
    let hd = item(&mut a, root, "Hd", "head", "head", (0, 0), &[("neck", 3, 4), ("brow", 1, 1)]);
    let ma = item(&mut a, root, "Ma", "mail", "mailChest", (0, 0), &[("navel", 12, 22)]);
    let other = add(&mut a, root, "other", NodeValue::Directory);
    let ma2 = item(&mut a, other, "Ma", "mail", "mailChest", (0, 0), &[("navel", 15, 25)]);
    let z_map = ZMap::from(&a, order);
    let mut cache = ImageCache::new();
    let mut c = Character::new(&a, &mut cache, vec![bd, hd, ma], z_map).unwrap();
    c.insert(&a, &mut cache, ma2).unwrap();
    assert_eq!(c.slots.len(), 3);
    let frame = c.frame().unwrap();
    let coat = frame.iter().find(|s| s.z == 2).unwrap();
    assert_eq!((coat.origin.x, coat.origin.y), (5, 5));
}
