use vstd::prelude::*;
use crate::archive::{Archive, Node, ResolutionError};
use crate::cache::ImageCache;
use crate::sprite::{sprite_error, sprite_of, Sprite};
use crate::value::{int_field, int_of, text_field, text_of, vector_field, Vec2};

verus! {

/// A spot on the world map and the maps it stands for.
pub struct Item {
    pub kind: i32,
    pub map_no: Vec<(String, i32)>,
    pub spot: Vec2,
    pub title: Option<String>,
    pub desc: Option<String>,
    pub path: Option<Sprite>,
}

/// A link to another world map.
pub struct Link {
    pub tool_tip: Option<String>,
    pub link_map: String,
    pub link_img: Sprite,
}

pub struct WorldMap {
    pub base_img: Sprite,
    pub map_list: Vec<(String, Item)>,
    pub map_link: Vec<(String, Link)>,
}

/// An optional text child agrees with what was read.
pub open spec fn optional_text(a: Archive, n: int, name: Seq<char>, v: Option<String>) -> bool {
    match a.child(n, name) {
        Some(c) => text_of(a, c as int) is Ok && v is Some && v->Some_0@ == text_of(a, c as int)->Ok_0,
        None => v is None,
    }
}

fn optional_text_field(a: &Archive, n: Node, name: &str) -> (r: Result<Option<String>, ResolutionError>)
    requires
        a.wf(),
        a.valid(n),
    ensures
        r is Ok <==> (a.child(n.id as int, name@) matches Some(c) ==> text_of(*a, c as int) is Ok),
        r matches Ok(v) ==> optional_text(*a, n.id as int, name@, v),
{
    match n.try_get(a, name) {
        Some(c) => match c.as_text(a) {
            Ok(t) => Ok(Some(t)),
            Err(e) => Err(e),
        },
        None => Ok(None),
    }
}

/// Every child of `n` is an integer.
pub open spec fn ints_ok(a: Archive, n: int) -> bool {
    forall|i: int| 0 <= i < a.visible(n).len() ==> (#[trigger] int_of(a, a.visible(n)[i] as int)) is Ok
}

pub open spec fn map_no_node(a: Archive, n: int) -> int {
    a.child(n, "mapNo"@)->Some_0 as int
}

/// What a world-map spot needs.
pub open spec fn item_ok(a: Archive, n: int) -> bool {
    &&& int_field(a, n, "type"@) is Ok
    &&& a.child(n, "mapNo"@) is Some
    &&& ints_ok(a, map_no_node(a, n))
    &&& vector_field(a, n, "spot"@) is Ok
    &&& (a.child(n, "title"@) matches Some(c) ==> text_of(a, c as int) is Ok)
    &&& (a.child(n, "desc"@) matches Some(c) ==> text_of(a, c as int) is Ok)
    &&& (a.child(n, "path"@) matches Some(c) ==> sprite_error(a, c as int) is None)
}

/// The spot that node `n` describes.
pub open spec fn item_of(item: Item, a: Archive, n: int, cache: ImageCache) -> bool {
    &&& int_field(a, n, "type"@) == Ok::<_, ResolutionError>(item.kind)
    &&& vector_field(a, n, "spot"@) == Ok::<_, ResolutionError>(item.spot)
    &&& a.child(n, "mapNo"@) is Some
    &&& item.map_no@.len() == a.visible(map_no_node(a, n)).len()
    &&& forall|i: int|
        0 <= i < item.map_no@.len() ==> (#[trigger] item.map_no@[i]).0@ == a.name_of(a.visible(map_no_node(a, n))[i] as int)
            && int_of(a, a.visible(map_no_node(a, n))[i] as int) == Ok::<_, ResolutionError>(item.map_no@[i].1)
    &&& optional_text(a, n, "title"@, item.title)
    &&& optional_text(a, n, "desc"@, item.desc)
    &&& match a.child(n, "path"@) {
        Some(c) => item.path matches Some(s) && sprite_of(s, a, c as int, cache),
        None => item.path is None,
    }
}

/// What a link needs.
pub open spec fn link_ok(a: Archive, n: int) -> bool {
    &&& (a.child(n, "toolTip"@) matches Some(c) ==> text_of(a, c as int) is Ok)
    &&& a.at_path_spec(n, "link/linkMap"@) matches Ok(m) && text_of(a, m.id as int) is Ok
    &&& a.at_path_spec(n, "link/linkImg"@) matches Ok(m) && sprite_error(a, m.id as int) is None
}

pub open spec fn link_of(l: Link, a: Archive, n: int, cache: ImageCache) -> bool {
    &&& optional_text(a, n, "toolTip"@, l.tool_tip)
    &&& a.at_path_spec(n, "link/linkMap"@) matches Ok(m) && text_of(a, m.id as int) == Ok::<_, ResolutionError>(l.link_map@)
    &&& a.at_path_spec(n, "link/linkImg"@) matches Ok(m) && sprite_of(l.link_img, a, m.id as int, cache)
}

pub open spec fn list_node(a: Archive, n: int) -> int {
    a.child(n, "MapList"@)->Some_0 as int
}

pub open spec fn link_node(a: Archive, n: int) -> int {
    a.child(n, "MapLink"@)->Some_0 as int
}

/// What a world map needs: its base image, and readable spots and links.
pub open spec fn world_ok(a: Archive, n: int) -> bool {
    &&& a.at_path_spec(n, "BaseImg/0"@) matches Ok(m) && sprite_error(a, m.id as int) is None
    &&& a.child(n, "MapList"@) is Some
    &&& (forall|i: int| 0 <= i < a.visible(list_node(a, n)).len() ==> item_ok(a, #[trigger] a.visible(list_node(a, n))[i] as int))
    &&& a.child(n, "MapLink"@) is Some
    &&& (forall|i: int| 0 <= i < a.visible(link_node(a, n)).len() ==> link_ok(a, #[trigger] a.visible(link_node(a, n))[i] as int))
}

pub proof fn lemma_item_grow(item: Item, a: Archive, n: int, c1: ImageCache, c2: ImageCache)
    requires
        item_of(item, a, n, c1),
        c1.keys().is_prefix_of(c2.keys()),
    ensures
        item_of(item, a, n, c2),
{
    if let Some(c) = a.child(n, "path"@) {
        crate::sprite::lemma_sprite_of_grow(item.path->Some_0, a, c as int, c1, c2);
    }
}

pub proof fn lemma_link_grow(l: Link, a: Archive, n: int, c1: ImageCache, c2: ImageCache)
    requires
        link_of(l, a, n, c1),
        c1.keys().is_prefix_of(c2.keys()),
    ensures
        link_of(l, a, n, c2),
{
    crate::sprite::lemma_sprite_of_grow(l.link_img, a, a.at_path_spec(n, "link/linkImg"@)->Ok_0.id as int, c1, c2);
}

/// Reads every child of `n` as a named integer.
fn int_entries(a: &Archive, n: Node) -> (r: Result<Vec<(String, i32)>, ResolutionError>)
    requires
        a.wf(),
        a.valid(n),
    ensures
        r is Ok <==> ints_ok(*a, n.id as int),
        r matches Ok(v) ==> v@.len() == a.visible(n.id as int).len() && forall|i: int|
            0 <= i < v@.len() ==> (#[trigger] v@[i]).0@ == a.name_of(a.visible(n.id as int)[i] as int) && int_of(
                *a,
                a.visible(n.id as int)[i] as int,
            ) == Ok::<_, ResolutionError>(v@[i].1),
{
    let kids = n.children(a);
    let ghost vis = a.visible(n.id as int);
    let mut out: Vec<(String, i32)> = Vec::new();
    let mut k: usize = 0;
    while k < kids.len()
        invariant
            a.wf(),
            vis == a.visible(n.id as int),
            kids@.len() == vis.len(),
            forall|i: int|
                0 <= i < kids@.len() ==> (#[trigger] kids@[i]).1.id == vis[i] && kids@[i].0.name@ == a.name_of(
                    kids@[i].1.id as int,
                ) && a.valid(kids@[i].1),
            k <= kids@.len(),
            out@.len() == k,
            forall|i: int|
                0 <= i < k ==> (#[trigger] out@[i]).0@ == a.name_of(vis[i] as int) && int_of(*a, vis[i] as int)
                    == Ok::<_, ResolutionError>(out@[i].1),
        decreases kids@.len() - k,
    {
        let v = match kids[k].1.as_int(a) {
            Ok(v) => v,
            Err(e) => {
                assert(int_of(*a, vis[k as int] as int) is Err);
                return Err(e);
            },
        };
        out.push((kids[k].0.to_string(), v));
        k = k + 1;
    }
    assert forall|i: int| 0 <= i < a.visible(n.id as int).len() implies (#[trigger] int_of(
        *a,
        a.visible(n.id as int)[i] as int,
    )) is Ok by {
        assert(out@[i].0@ == a.name_of(vis[i] as int));
    }
    Ok(out)
}

impl Item {
    /// Reads a world-map spot: `type`, the maps under `mapNo`, `spot`, and
    /// the optional `title`, `desc` and `path` image.
    pub fn from(a: &Archive, cache: &mut ImageCache, n: Node) -> (r: Result<Item, ResolutionError>)
        requires
            a.wf(),
            a.valid(n),
        ensures
            old(cache).keys().is_prefix_of(final(cache).keys()),
            r is Ok <==> item_ok(*a, n.id as int),
            r matches Ok(item) ==> item_of(item, *a, n.id as int, *final(cache)),
    {
        let kind = match n.int_field(a, "type") {
            Ok(v) => v,
            Err(e) => return Err(e),
        };
        let map_no = match n.try_get(a, "mapNo") {
            Some(m) => match int_entries(a, m) {
                Ok(v) => v,
                Err(e) => return Err(e),
            },
            None => return Err(ResolutionError::NotFound),
        };
        let spot = match n.vector_field(a, "spot") {
            Ok(v) => v,
            Err(e) => return Err(e),
        };
        let title = match optional_text_field(a, n, "title") {
            Ok(v) => v,
            Err(e) => return Err(e),
        };
        let desc = match optional_text_field(a, n, "desc") {
            Ok(v) => v,
            Err(e) => return Err(e),
        };
        let path = match n.try_get(a, "path") {
            Some(c) => match Sprite::from(a, cache, c) {
                Ok(s) => Some(s),
                Err(e) => return Err(e),
            },
            None => None,
        };
        Ok(Item { kind, map_no, spot, title, desc, path })
    }
}

impl Link {
    /// Reads a link: optional `toolTip`, the target `link/linkMap` and its
    /// image `link/linkImg`.
    pub fn from(a: &Archive, cache: &mut ImageCache, n: Node) -> (r: Result<Link, ResolutionError>)
        requires
            a.wf(),
            a.valid(n),
        ensures
            old(cache).keys().is_prefix_of(final(cache).keys()),
            r is Ok <==> link_ok(*a, n.id as int),
            r matches Ok(l) ==> link_of(l, *a, n.id as int, *final(cache)),
    {
        let tool_tip = match optional_text_field(a, n, "toolTip") {
            Ok(v) => v,
            Err(e) => return Err(e),
        };
        let link_map = match n.at_path(a, "link/linkMap") {
            Ok(m) => match m.as_text(a) {
                Ok(t) => t,
                Err(e) => return Err(e),
            },
            Err(e) => return Err(e),
        };
        let img = match n.at_path(a, "link/linkImg") {
            Ok(m) => m,
            Err(e) => return Err(e),
        };
        let link_img = match Sprite::from(a, cache, img) {
            Ok(s) => s,
            Err(e) => return Err(e),
        };
        Ok(Link { tool_tip, link_map, link_img })
    }
}

impl WorldMap {
    /// Reads a world map: the base image `BaseImg/0`, the spots under
    /// `MapList` and the links under `MapLink`, by name in archive order.
    pub fn from(a: &Archive, cache: &mut ImageCache, n: Node) -> (r: Result<WorldMap, ResolutionError>)
        requires
            a.wf(),
            a.valid(n),
        ensures
            old(cache).keys().is_prefix_of(final(cache).keys()),
            r is Ok <==> world_ok(*a, n.id as int),
            r matches Ok(w) ==> {
                &&& a.at_path_spec(n.id as int, "BaseImg/0"@) matches Ok(m) && sprite_of(w.base_img, *a, m.id as int, *final(cache))
                &&& w.map_list@.len() == a.visible(list_node(*a, n.id as int)).len()
                &&& forall|i: int| 0 <= i < w.map_list@.len() ==> (#[trigger] w.map_list@[i]).0@ == a.name_of(
                    a.visible(list_node(*a, n.id as int))[i] as int,
                ) && item_of(w.map_list@[i].1, *a, a.visible(list_node(*a, n.id as int))[i] as int, *final(cache))
                &&& w.map_link@.len() == a.visible(link_node(*a, n.id as int)).len()
                &&& forall|i: int| 0 <= i < w.map_link@.len() ==> (#[trigger] w.map_link@[i]).0@ == a.name_of(
                    a.visible(link_node(*a, n.id as int))[i] as int,
                ) && link_of(w.map_link@[i].1, *a, a.visible(link_node(*a, n.id as int))[i] as int, *final(cache))
            },
    {
        let ghost start = cache.keys();
        let base = match n.at_path(a, "BaseImg/0") {
            Ok(m) => m,
            Err(e) => return Err(e),
        };
        let base_img = match Sprite::from(a, cache, base) {
            Ok(s) => s,
            Err(e) => return Err(e),
        };
        let list_node = match n.try_get(a, "MapList") {
            Some(l) => l,
            None => return Err(ResolutionError::NotFound),
        };
        let kids = list_node.children(a);
        let mut map_list: Vec<(String, Item)> = Vec::new();
        let mut k: usize = 0;
        while k < kids.len()
            invariant
                a.wf(),
                kids@.len() == a.visible(list_node.id as int).len(),
                forall|i: int|
                    0 <= i < kids@.len() ==> (#[trigger] kids@[i]).1.id == a.visible(list_node.id as int)[i]
                        && kids@[i].0.name@ == a.name_of(kids@[i].1.id as int) && a.valid(kids@[i].1),
                k <= kids@.len(),
                map_list@.len() == k,
                forall|i: int| 0 <= i < k ==> (#[trigger] map_list@[i]).0@ == a.name_of(a.visible(list_node.id as int)[i] as int)
                    && item_of(map_list@[i].1, *a, a.visible(list_node.id as int)[i] as int, *cache),
                forall|i: int| 0 <= i < k ==> item_ok(*a, #[trigger] a.visible(list_node.id as int)[i] as int),
                a.child(n.id as int, "MapList"@) == Some(list_node.id),
                start == old(cache).keys(),
                start.is_prefix_of(cache.keys()),
                a.at_path_spec(n.id as int, "BaseImg/0"@) == Ok::<Node, ResolutionError>(base),
                sprite_of(base_img, *a, base.id as int, *cache),
                sprite_error(*a, base.id as int) is None,
            decreases kids@.len() - k,
        {
            let ghost before = *cache;
            match Item::from(a, cache, kids[k].1) {
                Ok(item) => {
                    proof {
                        assert forall|i: int| 0 <= i < k implies item_of((#[trigger] map_list@[i]).1, *a, a.visible(list_node.id as int)[i] as int, *cache) by {
                            lemma_item_grow(map_list@[i].1, *a, a.visible(list_node.id as int)[i] as int, before, *cache);
                        }
                    }
                    map_list.push((kids[k].0.to_string(), item));
                },
                Err(e) => {
                    assert(!item_ok(*a, a.visible(list_node.id as int)[k as int] as int));
                    assert(crate::map::world_map::list_node(*a, n.id as int) == list_node.id);
                    assert(!world_ok(*a, n.id as int));
                    return Err(e);
                },
            }
            proof {
                crate::sprite::lemma_sprite_of_grow(base_img, *a, base.id as int, before, *cache);
            }
            k = k + 1;
        }
        let link_node = match n.try_get(a, "MapLink") {
            Some(l) => l,
            None => return Err(ResolutionError::NotFound),
        };
        let kids = link_node.children(a);
        let mut map_link: Vec<(String, Link)> = Vec::new();
        let mut k: usize = 0;
        while k < kids.len()
            invariant
                a.wf(),
                kids@.len() == a.visible(link_node.id as int).len(),
                forall|i: int|
                    0 <= i < kids@.len() ==> (#[trigger] kids@[i]).1.id == a.visible(link_node.id as int)[i]
                        && kids@[i].0.name@ == a.name_of(kids@[i].1.id as int) && a.valid(kids@[i].1),
                k <= kids@.len(),
                map_link@.len() == k,
                forall|i: int| 0 <= i < k ==> (#[trigger] map_link@[i]).0@ == a.name_of(a.visible(link_node.id as int)[i] as int)
                    && link_of(map_link@[i].1, *a, a.visible(link_node.id as int)[i] as int, *cache),
                forall|i: int| 0 <= i < k ==> link_ok(*a, #[trigger] a.visible(link_node.id as int)[i] as int),
                a.child(n.id as int, "MapLink"@) == Some(link_node.id),
                start == old(cache).keys(),
                start.is_prefix_of(cache.keys()),
                a.at_path_spec(n.id as int, "BaseImg/0"@) == Ok::<Node, ResolutionError>(base),
                sprite_of(base_img, *a, base.id as int, *cache),
                sprite_error(*a, base.id as int) is None,
                a.child(n.id as int, "MapList"@) == Some(list_node.id),
                map_list@.len() == a.visible(list_node.id as int).len(),
                forall|i: int| 0 <= i < map_list@.len() ==> (#[trigger] map_list@[i]).0@ == a.name_of(a.visible(list_node.id as int)[i] as int)
                    && item_of(map_list@[i].1, *a, a.visible(list_node.id as int)[i] as int, *cache),
                forall|i: int| 0 <= i < map_list@.len() ==> item_ok(*a, #[trigger] a.visible(list_node.id as int)[i] as int),
            decreases kids@.len() - k,
        {
            let ghost before = *cache;
            match Link::from(a, cache, kids[k].1) {
                Ok(link) => {
                    proof {
                        assert forall|i: int| 0 <= i < k implies link_of((#[trigger] map_link@[i]).1, *a, a.visible(link_node.id as int)[i] as int, *cache) by {
                            lemma_link_grow(map_link@[i].1, *a, a.visible(link_node.id as int)[i] as int, before, *cache);
                        }
                        assert forall|i: int| 0 <= i < map_list@.len() implies item_of((#[trigger] map_list@[i]).1, *a, a.visible(list_node.id as int)[i] as int, *cache) by {
                            lemma_item_grow(map_list@[i].1, *a, a.visible(list_node.id as int)[i] as int, before, *cache);
                        }
                    }
                    map_link.push((kids[k].0.to_string(), link));
                },
                Err(e) => {
                    assert(!link_ok(*a, a.visible(link_node.id as int)[k as int] as int));
                    assert(crate::map::world_map::link_node(*a, n.id as int) == link_node.id);
                    assert(!world_ok(*a, n.id as int));
                    return Err(e);
                },
            }
            proof {
                crate::sprite::lemma_sprite_of_grow(base_img, *a, base.id as int, before, *cache);
            }
            k = k + 1;
        }
        Ok(WorldMap { base_img, map_list, map_link })
    }
}

} // verus!
