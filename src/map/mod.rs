use vstd::prelude::*;
use crate::archive::{Archive, Node, ResolutionError};
use crate::cache::ImageCache;
use crate::keys::{decimal_string, signed_decimal, signed_key, try_parse_signed_key};
use crate::order::{items_of, lemma_sort_is_stable, lemma_sort_len, lemma_sort_member, sort_by_key, stable_sort};
use crate::sprite::{intervals_of, sprites_from};
use crate::npc::{npc_of, npc_ok, Npc};
use crate::sprite::{numbered, sprite_error, sprite_of, Sprite, SpriteAnimation};
use crate::timer::Timer;
use crate::value::{bool_field, int_field, int_field_or, text_field, Vec2};

pub mod chain;
pub mod world_map;

verus! {

#[derive(Debug)]
pub struct Portal {
    pub pn: String,
    pub pt: i32,
    pub position: Vec2,
}

pub open spec fn portal_ok(a: Archive, n: int) -> bool {
    &&& text_field(a, n, "pn"@) is Ok
    &&& int_field(a, n, "pt"@) is Ok
    &&& int_field(a, n, "x"@) is Ok
    &&& int_field(a, n, "y"@) is Ok
}

pub open spec fn portal_of(p: Portal, a: Archive, n: int) -> bool {
    &&& text_field(a, n, "pn"@) == Ok::<_, ResolutionError>(p.pn@)
    &&& int_field(a, n, "pt"@) == Ok::<_, ResolutionError>(p.pt)
    &&& int_field(a, n, "x"@) == Ok::<_, ResolutionError>(p.position.x as i32)
    &&& int_field(a, n, "y"@) == Ok::<_, ResolutionError>(p.position.y as i32)
    &&& p.position.fits_i32()
}

impl Portal {
    /// Reads a portal: its name `pn`, type `pt` and position `x`, `y`.
    pub fn from(a: &Archive, n: Node) -> (r: Result<Portal, ResolutionError>)
        requires
            a.wf(),
            a.valid(n),
        ensures
            r is Ok <==> portal_ok(*a, n.id as int),
            r matches Ok(p) ==> portal_of(p, *a, n.id as int),
    {
        let pn = match n.text_field(a, "pn") {
            Ok(v) => v,
            Err(e) => return Err(e),
        };
        let pt = match n.int_field(a, "pt") {
            Ok(v) => v,
            Err(e) => return Err(e),
        };
        let x = match n.int_field(a, "x") {
            Ok(v) => v,
            Err(e) => return Err(e),
        };
        let y = match n.int_field(a, "y") {
            Ok(v) => v,
            Err(e) => return Err(e),
        };
        Ok(Portal { pn, pt, position: Vec2 { x: x as i64, y: y as i64 } })
    }
}

/// A walkable segment; `prev` and `next` link to neighbours, 0 for none.
#[derive(Clone, Copy, Debug, PartialEq, Eq, Structural)]
pub struct Foothold {
    pub start: Vec2,
    pub end: Vec2,
    pub prev: i32,
    pub next: i32,
    pub page: i32,
    pub z_mass: i32,
}

/// The visible range of a map.
pub struct MapInfo {
    pub vr_top: i32,
    pub vr_bottom: i32,
    pub vr_left: i32,
    pub vr_right: i32,
}

pub open spec fn info_ok(a: Archive, n: int) -> bool {
    &&& int_field(a, n, "VRTop"@) is Ok
    &&& int_field(a, n, "VRBottom"@) is Ok
    &&& int_field(a, n, "VRLeft"@) is Ok
    &&& int_field(a, n, "VRRight"@) is Ok
}

impl MapInfo {
    pub fn from(a: &Archive, n: Node) -> (r: Result<MapInfo, ResolutionError>)
        requires
            a.wf(),
            a.valid(n),
        ensures
            r is Ok <==> info_ok(*a, n.id as int),
            r matches Ok(i) ==> {
                &&& int_field(*a, n.id as int, "VRTop"@) == Ok::<_, ResolutionError>(i.vr_top)
                &&& int_field(*a, n.id as int, "VRBottom"@) == Ok::<_, ResolutionError>(i.vr_bottom)
                &&& int_field(*a, n.id as int, "VRLeft"@) == Ok::<_, ResolutionError>(i.vr_left)
                &&& int_field(*a, n.id as int, "VRRight"@) == Ok::<_, ResolutionError>(i.vr_right)
            },
    {
        let vr_top = match n.int_field(a, "VRTop") {
            Ok(v) => v,
            Err(e) => return Err(e),
        };
        let vr_bottom = match n.int_field(a, "VRBottom") {
            Ok(v) => v,
            Err(e) => return Err(e),
        };
        let vr_left = match n.int_field(a, "VRLeft") {
            Ok(v) => v,
            Err(e) => return Err(e),
        };
        let vr_right = match n.int_field(a, "VRRight") {
            Ok(v) => v,
            Err(e) => return Err(e),
        };
        Ok(MapInfo { vr_top, vr_bottom, vr_left, vr_right })
    }
}

/// A placed life (an NPC or a mob).
pub struct MapLife {
    pub cy: i32,
    pub f: i32,
    pub fh: i32,
    pub id: String,
    pub rx0: i32,
    pub rx1: i32,
    pub kind: String,
    pub x: i32,
    pub y: i32,
}

pub open spec fn life_ok(a: Archive, n: int) -> bool {
    &&& int_field(a, n, "cy"@) is Ok
    &&& int_field_or(a, n, "f"@, 0) is Ok
    &&& int_field(a, n, "fh"@) is Ok
    &&& text_field(a, n, "id"@) is Ok
    &&& int_field(a, n, "rx0"@) is Ok
    &&& int_field(a, n, "rx1"@) is Ok
    &&& text_field(a, n, "type"@) is Ok
    &&& int_field(a, n, "x"@) is Ok
    &&& int_field(a, n, "y"@) is Ok
}

pub open spec fn life_of(l: MapLife, a: Archive, n: int) -> bool {
    &&& int_field(a, n, "cy"@) == Ok::<_, ResolutionError>(l.cy)
    &&& int_field_or(a, n, "f"@, 0) == Ok::<_, ResolutionError>(l.f)
    &&& int_field(a, n, "fh"@) == Ok::<_, ResolutionError>(l.fh)
    &&& text_field(a, n, "id"@) == Ok::<_, ResolutionError>(l.id@)
    &&& int_field(a, n, "rx0"@) == Ok::<_, ResolutionError>(l.rx0)
    &&& int_field(a, n, "rx1"@) == Ok::<_, ResolutionError>(l.rx1)
    &&& text_field(a, n, "type"@) == Ok::<_, ResolutionError>(l.kind@)
    &&& int_field(a, n, "x"@) == Ok::<_, ResolutionError>(l.x)
    &&& int_field(a, n, "y"@) == Ok::<_, ResolutionError>(l.y)
}

impl MapLife {
    /// Reads a life placement; `f` (facing) defaults to 0.
    pub fn from(a: &Archive, n: Node) -> (r: Result<MapLife, ResolutionError>)
        requires
            a.wf(),
            a.valid(n),
        ensures
            r is Ok <==> life_ok(*a, n.id as int),
            r matches Ok(l) ==> life_of(l, *a, n.id as int),
    {
        let cy = match n.int_field(a, "cy") {
            Ok(v) => v,
            Err(e) => return Err(e),
        };
        let f = match n.int_field_or(a, "f", 0) {
            Ok(v) => v,
            Err(e) => return Err(e),
        };
        let fh = match n.int_field(a, "fh") {
            Ok(v) => v,
            Err(e) => return Err(e),
        };
        let id = match n.text_field(a, "id") {
            Ok(v) => v,
            Err(e) => return Err(e),
        };
        let rx0 = match n.int_field(a, "rx0") {
            Ok(v) => v,
            Err(e) => return Err(e),
        };
        let rx1 = match n.int_field(a, "rx1") {
            Ok(v) => v,
            Err(e) => return Err(e),
        };
        let kind = match n.text_field(a, "type") {
            Ok(v) => v,
            Err(e) => return Err(e),
        };
        let x = match n.int_field(a, "x") {
            Ok(v) => v,
            Err(e) => return Err(e),
        };
        let y = match n.int_field(a, "y") {
            Ok(v) => v,
            Err(e) => return Err(e),
        };
        Ok(MapLife { cy, f, fh, id, rx0, rx1, kind, x, y })
    }
}

/// What a background draws: a still sprite or an animation.
pub enum Drawable {
    Sprite(Sprite),
    SpriteAnimation(SpriteAnimation),
}

/// A background layer. `kind` selects the tiling: 0 none, 1 horizontal,
/// 2 vertical, 3 both, 4 horizontal with horizontal scrolling, 5 vertical
/// with vertical scrolling, 6 both with horizontal scrolling, 7 both with
/// vertical scrolling; `rx`, `ry` give the parallax.
pub struct MapBackground {
    pub bs: String,
    pub front: bool,
    pub ani: i32,
    pub no: i32,
    pub flip: bool,
    pub x: i32,
    pub y: i32,
    pub rx: i32,
    pub ry: i32,
    pub kind: i32,
    pub cx: i32,
    pub cy: i32,
    pub a: i32,
    pub sprite: Drawable,
    pub offset_x: i32,
    pub offset_y: i32,
}

pub open spec fn back_kind(ani: i32) -> Seq<char> {
    if ani == 0 {
        "back"@
    } else if ani == 1 {
        "ani"@
    } else {
        "spine"@
    }
}

/// Where the image of a background lives.
pub open spec fn back_path(bs: Seq<char>, ani: i32, no: i32) -> Seq<char> {
    "Map/Back/"@ + bs + ".img/"@ + back_kind(ani) + "/"@ + signed_decimal(no as int)
}

/// Every numbered frame of `n` reads as a sprite.
pub open spec fn frames_ok(a: Archive, n: int) -> bool {
    forall|i: int| 0 <= i < numbered(a, n).len() ==> sprite_error(a, #[trigger] numbered(a, n)[i] as int) is None
}

pub open spec fn back_node(a: Archive, root: int, n: int) -> int {
    a.at_path_spec(
        root,
        back_path(text_field(a, n, "bS"@)->Ok_0, int_field(a, n, "ani"@)->Ok_0, int_field(a, n, "no"@)->Ok_0),
    )->Ok_0.id as int
}

pub open spec fn background_ok(a: Archive, root: int, n: int) -> bool {
    &&& text_field(a, n, "bS"@) is Ok
    &&& int_field(a, n, "ani"@) is Ok
    &&& 0 <= int_field(a, n, "ani"@)->Ok_0 <= 2
    &&& int_field(a, n, "no"@) is Ok
    &&& a.at_path_spec(
        root,
        back_path(text_field(a, n, "bS"@)->Ok_0, int_field(a, n, "ani"@)->Ok_0, int_field(a, n, "no"@)->Ok_0),
    ) is Ok
    &&& int_field(a, n, "x"@) is Ok
    &&& int_field(a, n, "y"@) is Ok
    &&& if int_field(a, n, "ani"@)->Ok_0 == 0 {
        sprite_error(a, back_node(a, root, n)) is None
    } else {
        frames_ok(a, back_node(a, root, n))
    }
    &&& bool_field(a, n, "front"@) is Ok
    &&& bool_field(a, n, "f"@) is Ok
    &&& int_field(a, n, "cx"@) is Ok
    &&& int_field(a, n, "cy"@) is Ok
    &&& int_field(a, n, "type"@) is Ok
    &&& int_field(a, n, "rx"@) is Ok
    &&& int_field(a, n, "ry"@) is Ok
    &&& int_field(a, n, "a"@) is Ok
}

pub open spec fn background_of(b: MapBackground, a: Archive, root: int, n: int, cache: ImageCache) -> bool {
    &&& text_field(a, n, "bS"@) == Ok::<_, ResolutionError>(b.bs@)
    &&& int_field(a, n, "ani"@) == Ok::<_, ResolutionError>(b.ani)
    &&& int_field(a, n, "no"@) == Ok::<_, ResolutionError>(b.no)
    &&& int_field(a, n, "x"@) == Ok::<_, ResolutionError>(b.x)
    &&& int_field(a, n, "y"@) == Ok::<_, ResolutionError>(b.y)
    &&& b.offset_x == b.x && b.offset_y == b.y
    &&& bool_field(a, n, "front"@) == Ok::<_, ResolutionError>(b.front)
    &&& bool_field(a, n, "f"@) == Ok::<_, ResolutionError>(b.flip)
    &&& int_field(a, n, "cx"@) == Ok::<_, ResolutionError>(b.cx)
    &&& int_field(a, n, "cy"@) == Ok::<_, ResolutionError>(b.cy)
    &&& int_field(a, n, "type"@) == Ok::<_, ResolutionError>(b.kind)
    &&& int_field(a, n, "rx"@) == Ok::<_, ResolutionError>(b.rx)
    &&& int_field(a, n, "ry"@) == Ok::<_, ResolutionError>(b.ry)
    &&& int_field(a, n, "a"@) == Ok::<_, ResolutionError>(b.a)
    &&& match b.sprite {
        Drawable::Sprite(s) => b.ani == 0 && sprite_of(s, a, back_node(a, root, n), cache),
        Drawable::SpriteAnimation(an) => b.ani != 0 && an.wf() && an.frames@.len() == numbered(
            a,
            back_node(a, root, n),
        ).len() && forall|i: int|
            0 <= i < an.frames@.len() ==> sprite_of(
                #[trigger] an.frames@[i],
                a,
                numbered(a, back_node(a, root, n))[i] as int,
                cache,
            ),
    }
}

fn back_path_string(bs: &String, ani: i32, no: i32) -> (r: String)
    requires
        0 <= ani <= 2,
    ensures
        r@ == back_path(bs@, ani, no),
{
    let mut p = String::from_str("Map/Back/");
    p.append(bs.as_str());
    p.append(".img/");
    if ani == 0 {
        p.append("back");
    } else if ani == 1 {
        p.append("ani");
    } else {
        p.append("spine");
    }
    p.append("/");
    let d = decimal_string(no);
    p.append(d.as_str());
    p
}

impl MapBackground {
    /// Reads a background placement and the image it names under
    /// `Map/Back/<bS>.img/<back|ani|spine>/<no>` from `root`: a sprite for
    /// `ani` 0, an animation otherwise.
    pub fn new(a: &Archive, cache: &mut ImageCache, root: Node, n: Node) -> (r: Result<MapBackground, ResolutionError>)
        requires
            a.wf(),
            a.valid(root),
            a.valid(n),
        ensures
            old(cache).keys().is_prefix_of(final(cache).keys()),
            r is Ok <==> background_ok(*a, root.id as int, n.id as int),
            r matches Ok(b) ==> background_of(b, *a, root.id as int, n.id as int, *final(cache)),
    {
        let bs = match n.text_field(a, "bS") {
            Ok(v) => v,
            Err(e) => return Err(e),
        };
        let ani = match n.int_field(a, "ani") {
            Ok(v) => v,
            Err(e) => return Err(e),
        };
        let no = match n.int_field(a, "no") {
            Ok(v) => v,
            Err(e) => return Err(e),
        };
        if ani < 0 || ani > 2 {
            return Err(ResolutionError::BadValue);
        }
        let path = back_path_string(&bs, ani, no);
        let back = match root.at_path(a, path.as_str()) {
            Ok(m) => m,
            Err(e) => return Err(e),
        };
        let x = match n.int_field(a, "x") {
            Ok(v) => v,
            Err(e) => return Err(e),
        };
        let y = match n.int_field(a, "y") {
            Ok(v) => v,
            Err(e) => return Err(e),
        };
        let ghost start = *cache;
        let front = match n.bool_field(a, "front") {
            Ok(v) => v,
            Err(e) => return Err(e),
        };
        let flip = match n.bool_field(a, "f") {
            Ok(v) => v,
            Err(e) => return Err(e),
        };
        let cx = match n.int_field(a, "cx") {
            Ok(v) => v,
            Err(e) => return Err(e),
        };
        let cy = match n.int_field(a, "cy") {
            Ok(v) => v,
            Err(e) => return Err(e),
        };
        let kind = match n.int_field(a, "type") {
            Ok(v) => v,
            Err(e) => return Err(e),
        };
        let rx = match n.int_field(a, "rx") {
            Ok(v) => v,
            Err(e) => return Err(e),
        };
        let ry = match n.int_field(a, "ry") {
            Ok(v) => v,
            Err(e) => return Err(e),
        };
        let alpha = match n.int_field(a, "a") {
            Ok(v) => v,
            Err(e) => return Err(e),
        };
        let sprite = if ani == 0 {
            match Sprite::from(a, cache, back) {
                Ok(s) => Drawable::Sprite(s),
                Err(e) => return Err(e),
            }
        } else {
            match SpriteAnimation::from(a, cache, back) {
                Ok(an) => Drawable::SpriteAnimation(an),
                Err(e) => return Err(e),
            }
        };
        Ok(MapBackground {
            bs,
            front,
            ani,
            no,
            flip,
            x,
            y,
            rx,
            ry,
            kind,
            cx,
            cy,
            a: alpha,
            sprite,
            offset_x: x,
            offset_y: y,
        })
    }
}

pub struct MapTile {
    pub id: i32,
    pub tile: Sprite,
    pub position: Vec2,
}

pub struct MapObject {
    pub id: i32,
    pub timer: Timer,
    pub flip: bool,
    pub sprites: Vec<Sprite>,
    pub position: Vec2,
    pub z: i32,
}

pub enum MapItem {
    Tile(MapTile),
    Object(MapObject),
}

impl MapItem {
    /// The draw order of an item: a tile's sprite layer, an object's own.
    pub fn z(&self) -> (r: i32)
        ensures
            r == match self {
                MapItem::Tile(t) => t.tile.z,
                MapItem::Object(o) => o.z,
            },
    {
        match self {
            MapItem::Tile(item) => item.tile.z,
            MapItem::Object(item) => item.z,
        }
    }
}

pub struct MapLayer {
    pub tiles: Vec<MapTile>,
    pub objects: Vec<MapObject>,
}

/// The drawing order of a list of tiles or objects.
pub open spec fn zs_sorted(zs: Seq<i32>) -> bool {
    forall|i: int, j: int| 0 <= i < j < zs.len() ==> zs[i] <= zs[j]
}

fn key_of(name: &String) -> (r: Result<i32, ResolutionError>)
    ensures
        match r {
            Ok(v) => signed_key(name@) == Some(v),
            Err(e) => signed_key(name@) is None && e == ResolutionError::BadKey,
        },
{
    match try_parse_signed_key(name.as_str()) {
        Some(v) => Ok(v),
        None => Err(ResolutionError::BadKey),
    }
}

fn obj_path(item: Node, a: &Archive) -> (r: Result<String, ResolutionError>)
    requires
        a.wf(),
        a.valid(item),
    ensures
        r is Ok <==> obj_texts_ok(*a, item.id as int),
        r matches Ok(p) ==> p@ == obj_path_of(*a, item.id as int),
{
    let os = match item.text_field(a, "oS") {
        Ok(v) => v,
        Err(e) => return Err(e),
    };
    let l0 = match item.text_field(a, "l0") {
        Ok(v) => v,
        Err(e) => return Err(e),
    };
    let l1 = match item.text_field(a, "l1") {
        Ok(v) => v,
        Err(e) => return Err(e),
    };
    let l2 = match item.text_field(a, "l2") {
        Ok(v) => v,
        Err(e) => return Err(e),
    };
    let mut p = String::from_str("Map/Obj/");
    p.append(os.as_str());
    p.append(".img/");
    p.append(l0.as_str());
    p.append("/");
    p.append(l1.as_str());
    p.append("/");
    p.append(l2.as_str());
    Ok(p)
}

fn tile_path(ts: &String, u: &String, no: i32) -> (r: String)
    ensures
        r@ == "Map/Tile/"@ + ts@ + ".img/"@ + u@ + "/"@ + signed_decimal(no as int),
{
    let mut p = String::from_str("Map/Tile/");
    p.append(ts.as_str());
    p.append(".img/");
    p.append(u.as_str());
    p.append("/");
    let d = decimal_string(no);
    p.append(d.as_str());
    p
}

/// The sprite sheet an object names.
pub open spec fn obj_path_of(a: Archive, item: int) -> Seq<char> {
    "Map/Obj/"@ + text_field(a, item, "oS"@)->Ok_0 + ".img/"@ + text_field(a, item, "l0"@)->Ok_0 + "/"@
        + text_field(a, item, "l1"@)->Ok_0 + "/"@ + text_field(a, item, "l2"@)->Ok_0
}

pub open spec fn obj_texts_ok(a: Archive, item: int) -> bool {
    &&& text_field(a, item, "oS"@) is Ok
    &&& text_field(a, item, "l0"@) is Ok
    &&& text_field(a, item, "l1"@) is Ok
    &&& text_field(a, item, "l2"@) is Ok
}

/// What an object node needs: a numeric name, `f`, `x`, `y`, `z`, the four
/// names of its sheet, and readable frames there.
pub open spec fn object_ok(a: Archive, root: int, item: int) -> bool {
    &&& signed_key(a.name_of(item)) is Some
    &&& bool_field(a, item, "f"@) is Ok
    &&& int_field(a, item, "x"@) is Ok
    &&& int_field(a, item, "y"@) is Ok
    &&& int_field(a, item, "z"@) is Ok
    &&& obj_texts_ok(a, item)
    &&& a.at_path_spec(root, obj_path_of(a, item)) matches Ok(m) && frames_ok(a, m.id as int)
}

/// The object that node `item` describes, its frames read from its sheet.
pub open spec fn object_of(o: MapObject, a: Archive, root: int, item: int, cache: ImageCache) -> bool {
    &&& signed_key(a.name_of(item)) == Some(o.id)
    &&& bool_field(a, item, "f"@) == Ok::<_, ResolutionError>(o.flip)
    &&& int_field(a, item, "x"@) == Ok::<_, ResolutionError>(o.position.x as i32)
    &&& int_field(a, item, "y"@) == Ok::<_, ResolutionError>(o.position.y as i32)
    &&& o.position.fits_i32()
    &&& int_field(a, item, "z"@) == Ok::<_, ResolutionError>(o.z)
    &&& a.at_path_spec(root, obj_path_of(a, item)) matches Ok(m) && o.sprites@.len() == numbered(a, m.id as int).len()
        && forall|i: int|
        0 <= i < o.sprites@.len() ==> sprite_of(#[trigger] o.sprites@[i], a, numbered(a, m.id as int)[i] as int, cache)
    &&& o.timer.wf()
    &&& o.timer.state() == crate::timer::fresh(o.sprites@.map_values(|s: Sprite| crate::sprite::interval_of(s.delay)))
}

pub open spec fn tile_path_of(a: Archive, ts: Seq<char>, t: int) -> Seq<char> {
    "Map/Tile/"@ + ts + ".img/"@ + text_field(a, t, "u"@)->Ok_0 + "/"@ + signed_decimal(int_field(a, t, "no"@)->Ok_0 as int)
}

/// What a tile node needs, with tile set `ts`.
pub open spec fn tile_ok(a: Archive, root: int, ts: Seq<char>, t: int) -> bool {
    &&& signed_key(a.name_of(t)) is Some
    &&& int_field(a, t, "x"@) is Ok
    &&& int_field(a, t, "y"@) is Ok
    &&& int_field(a, t, "no"@) is Ok
    &&& text_field(a, t, "u"@) is Ok
    &&& int_field(a, t, "zM"@) is Ok
    &&& a.at_path_spec(root, tile_path_of(a, ts, t)) matches Ok(m) && sprite_error(a, m.id as int) is None
}

pub open spec fn tile_of(tl: MapTile, a: Archive, root: int, ts: Seq<char>, t: int, cache: ImageCache) -> bool {
    &&& signed_key(a.name_of(t)) == Some(tl.id)
    &&& int_field(a, t, "x"@) == Ok::<_, ResolutionError>(tl.position.x as i32)
    &&& int_field(a, t, "y"@) == Ok::<_, ResolutionError>(tl.position.y as i32)
    &&& tl.position.fits_i32()
    &&& a.at_path_spec(root, tile_path_of(a, ts, t)) matches Ok(m) && sprite_of(tl.tile, a, m.id as int, cache)
}

/// The tile set a layer names in `info/tS`, if it names one.
pub open spec fn tile_set(a: Archive, n: int) -> Option<Seq<char>> {
    match a.child(n, "info"@) {
        Some(i) => if a.child(i as int, "tS"@) is Some {
            Some(text_field(a, i as int, "tS"@)->Ok_0)
        } else {
            None
        },
        None => None,
    }
}

pub open spec fn obj_node(a: Archive, n: int) -> int {
    a.child(n, "obj"@)->Some_0 as int
}

pub open spec fn tile_node(a: Archive, n: int) -> int {
    a.child(n, "tile"@)->Some_0 as int
}

/// What a layer node needs: readable objects, and, when it names a tile set,
/// that name as text and readable tiles.
pub open spec fn layer_ok(a: Archive, root: int, n: int) -> bool {
    &&& a.child(n, "obj"@) is Some ==> forall|i: int|
        0 <= i < a.visible(obj_node(a, n)).len() ==> object_ok(a, root, #[trigger] a.visible(obj_node(a, n))[i] as int)
    &&& (a.child(n, "info"@) matches Some(i) && a.child(i as int, "tS"@) is Some) ==> {
        &&& text_field(a, a.child(n, "info"@)->Some_0 as int, "tS"@) is Ok
        &&& a.child(n, "tile"@) is Some
        &&& forall|i: int|
            0 <= i < a.visible(tile_node(a, n)).len() ==> tile_ok(
                a,
                root,
                tile_set(a, n)->Some_0,
                #[trigger] a.visible(tile_node(a, n))[i] as int,
            )
    }
}

/// The layer that node `n` describes: its objects and tiles read in archive
/// order, each list then stably sorted by z.
pub open spec fn layer_of(l: MapLayer, a: Archive, root: int, n: int, cache: ImageCache) -> bool {
    &&& exists|objs: Seq<(i32, MapObject)>|
        #![trigger stable_sort(objs)]
        objs.len() == (if a.child(n, "obj"@) is Some { a.visible(obj_node(a, n)).len() } else { 0 }) && (forall|i: int|
            0 <= i < objs.len() ==> (#[trigger] objs[i]).0 == objs[i].1.z && object_of(
                objs[i].1,
                a,
                root,
                a.visible(obj_node(a, n))[i] as int,
                cache,
            )) && l.objects@ == stable_sort(objs).map_values(|x: (i32, MapObject)| x.1)
    &&& exists|tiles: Seq<(i32, MapTile)>|
        #![trigger stable_sort(tiles)]
        tiles.len() == (if tile_set(a, n) is Some { a.visible(tile_node(a, n)).len() } else { 0 }) && (forall|i: int|
            0 <= i < tiles.len() ==> (#[trigger] tiles[i]).0 == tiles[i].1.tile.z && tile_of(
                tiles[i].1,
                a,
                root,
                tile_set(a, n)->Some_0,
                a.visible(tile_node(a, n))[i] as int,
                cache,
            )) && l.tiles@ == stable_sort(tiles).map_values(|x: (i32, MapTile)| x.1)
    &&& zs_sorted(l.objects@.map_values(|o: MapObject| o.z))
    &&& zs_sorted(l.tiles@.map_values(|t: MapTile| t.tile.z))
}

pub proof fn lemma_object_grow(o: MapObject, a: Archive, root: int, item: int, c1: ImageCache, c2: ImageCache)
    requires
        object_of(o, a, root, item, c1),
        c1.keys().is_prefix_of(c2.keys()),
    ensures
        object_of(o, a, root, item, c2),
{
    let m = a.at_path_spec(root, obj_path_of(a, item))->Ok_0;
    assert forall|i: int| 0 <= i < o.sprites@.len() implies sprite_of(
        #[trigger] o.sprites@[i],
        a,
        numbered(a, m.id as int)[i] as int,
        c2,
    ) by {
        crate::sprite::lemma_sprite_of_grow(o.sprites@[i], a, numbered(a, m.id as int)[i] as int, c1, c2);
    }
}

fn read_object(a: &Archive, cache: &mut ImageCache, root: Node, item: Node, name: &String) -> (r: Result<
    MapObject,
    ResolutionError,
>)
    requires
        a.wf(),
        a.valid(root),
        a.valid(item),
        name@ == a.name_of(item.id as int),
    ensures
        old(cache).keys().is_prefix_of(final(cache).keys()),
        r is Ok <==> object_ok(*a, root.id as int, item.id as int),
        r matches Ok(o) ==> object_of(o, *a, root.id as int, item.id as int, *final(cache)),
{
    let id = match key_of(name) {
        Ok(v) => v,
        Err(e) => return Err(e),
    };
    let flip = match item.bool_field(a, "f") {
        Ok(v) => v,
        Err(e) => return Err(e),
    };
    let x = match item.int_field(a, "x") {
        Ok(v) => v,
        Err(e) => return Err(e),
    };
    let y = match item.int_field(a, "y") {
        Ok(v) => v,
        Err(e) => return Err(e),
    };
    let z = match item.int_field(a, "z") {
        Ok(v) => v,
        Err(e) => return Err(e),
    };
    let path = match obj_path(item, a) {
        Ok(p) => p,
        Err(e) => return Err(e),
    };
    let target = match root.at_path(a, path.as_str()) {
        Ok(m) => m,
        Err(e) => return Err(e),
    };
    let sprites = match sprites_from(a, cache, target) {
        Ok(v) => v,
        Err(e) => return Err(e),
    };
    let timer = Timer::new(intervals_of(&sprites));
    Ok(MapObject { id, timer, flip, sprites, position: Vec2 { x: x as i64, y: y as i64 }, z })
}

fn read_tile(a: &Archive, cache: &mut ImageCache, root: Node, ts: &String, t: Node, name: &String) -> (r: Result<
    MapTile,
    ResolutionError,
>)
    requires
        a.wf(),
        a.valid(root),
        a.valid(t),
        name@ == a.name_of(t.id as int),
    ensures
        old(cache).keys().is_prefix_of(final(cache).keys()),
        r is Ok <==> tile_ok(*a, root.id as int, ts@, t.id as int),
        r matches Ok(tl) ==> tile_of(tl, *a, root.id as int, ts@, t.id as int, *final(cache)),
{
    let id = match key_of(name) {
        Ok(v) => v,
        Err(e) => return Err(e),
    };
    let x = match t.int_field(a, "x") {
        Ok(v) => v,
        Err(e) => return Err(e),
    };
    let y = match t.int_field(a, "y") {
        Ok(v) => v,
        Err(e) => return Err(e),
    };
    let no = match t.int_field(a, "no") {
        Ok(v) => v,
        Err(e) => return Err(e),
    };
    let u = match t.text_field(a, "u") {
        Ok(v) => v,
        Err(e) => return Err(e),
    };
    match t.int_field(a, "zM") {
        Ok(_) => {},
        Err(e) => return Err(e),
    }
    let path = tile_path(ts, &u, no);
    let target = match root.at_path(a, path.as_str()) {
        Ok(m) => m,
        Err(e) => return Err(e),
    };
    let sprite = match Sprite::from(a, cache, target) {
        Ok(s) => s,
        Err(e) => return Err(e),
    };
    Ok(MapTile { id, tile: sprite, position: Vec2 { x: x as i64, y: y as i64 } })
}

impl MapLayer {
    /// Reads one layer: its objects (`obj`), each drawn from
    /// `Map/Obj/<oS>.img/<l0>/<l1>/<l2>`, and, when its `info` names a tile
    /// set `tS`, its tiles from `Map/Tile/<tS>.img/<u>/<no>`. Both lists are
    /// sorted by z, equal z in archive order.
    pub fn from(a: &Archive, cache: &mut ImageCache, root: Node, n: Node) -> (r: Result<MapLayer, ResolutionError>)
        requires
            a.wf(),
            a.valid(root),
            a.valid(n),
        ensures
            old(cache).keys().is_prefix_of(final(cache).keys()),
            r is Ok <==> layer_ok(*a, root.id as int, n.id as int),
            r matches Ok(l) ==> layer_of(l, *a, root.id as int, n.id as int, *final(cache)),
    {
        let ghost start = cache.keys();
        let ghost rid = root.id as int;
        let mut objects: Vec<(i32, MapObject)> = Vec::new();
        let ghost vo: Seq<usize> = if a.child(n.id as int, "obj"@) is Some {
            a.visible(obj_node(*a, n.id as int))
        } else {
            Seq::empty()
        };
        if let Some(obj) = n.try_get(a, "obj") {
            let kids = obj.children(a);
            let mut k: usize = 0;
            while k < kids.len()
                invariant
                    a.wf(),
                    a.valid(root),
                    rid == root.id,
                    vo == a.visible(obj.id as int),
                    a.child(n.id as int, "obj"@) == Some(obj.id),
                    kids@.len() == vo.len(),
                    forall|i: int|
                        0 <= i < kids@.len() ==> (#[trigger] kids@[i]).1.id == vo[i] && kids@[i].0.name@
                            == a.name_of(kids@[i].1.id as int) && a.valid(kids@[i].1),
                    k <= kids@.len(),
                    objects@.len() == k,
                    forall|i: int| 0 <= i < k ==> (#[trigger] objects@[i]).0 == objects@[i].1.z && object_of(
                        objects@[i].1,
                        *a,
                        rid,
                        vo[i] as int,
                        *cache,
                    ),
                    forall|i: int| 0 <= i < k ==> object_ok(*a, rid, #[trigger] vo[i] as int),
                    start == old(cache).keys(),
                    start.is_prefix_of(cache.keys()),
                decreases kids@.len() - k,
            {
                let ghost before = *cache;
                let o = match read_object(a, cache, root, kids[k].1, &kids[k].0.name) {
                    Ok(o) => o,
                    Err(e) => {
                        assert(!object_ok(*a, rid, vo[k as int] as int));
                        assert(obj_node(*a, n.id as int) == obj.id);
                        assert(a.visible(obj_node(*a, n.id as int))[k as int] == vo[k as int]);
                        assert(!layer_ok(*a, rid, n.id as int));
                        return Err(e);
                    },
                };
                proof {
                    assert forall|i: int| 0 <= i < k implies object_of((#[trigger] objects@[i]).1, *a, rid, vo[i] as int, *cache) by {
                        lemma_object_grow(objects@[i].1, *a, rid, vo[i] as int, before, *cache);
                    }
                }
                let z = o.z;
                objects.push((z, o));
                k = k + 1;
            }
        }
        let ghost objects_in = objects@;
        let ghost after_objects = *cache;
        let mut tiles: Vec<(i32, MapTile)> = Vec::new();
        let mut ts_opt: Option<String> = None;
        if let Some(info) = n.try_get(a, "info") {
            if info.has(a, "tS") {
                ts_opt = match info.text_field(a, "tS") {
                    Ok(v) => Some(v),
                    Err(e) => return Err(e),
                };
            }
        }
        assert(ts_opt is Some <==> tile_set(*a, n.id as int) is Some);
        assert(ts_opt matches Some(t) ==> t@ == tile_set(*a, n.id as int)->Some_0);
        let ghost vt: Seq<usize> = if tile_set(*a, n.id as int) is Some && a.child(n.id as int, "tile"@) is Some {
            a.visible(tile_node(*a, n.id as int))
        } else {
            Seq::empty()
        };
        if let Some(ts) = ts_opt {
            let tile = match n.try_get(a, "tile") {
                Some(t) => t,
                None => return Err(ResolutionError::NotFound),
            };
            let kids = tile.children(a);
            let mut k: usize = 0;
            while k < kids.len()
                invariant
                    a.wf(),
                    a.valid(root),
                    rid == root.id,
                    vt == a.visible(tile.id as int),
                    a.child(n.id as int, "tile"@) == Some(tile.id),
                    tile_set(*a, n.id as int) is Some,
                    (a.child(n.id as int, "info"@) matches Some(i) && a.child(i as int, "tS"@) is Some),
                    text_field(*a, a.child(n.id as int, "info"@)->Some_0 as int, "tS"@) is Ok,
                    ts@ == tile_set(*a, n.id as int)->Some_0,
                    kids@.len() == vt.len(),
                    forall|i: int|
                        0 <= i < kids@.len() ==> (#[trigger] kids@[i]).1.id == vt[i] && kids@[i].0.name@
                            == a.name_of(kids@[i].1.id as int) && a.valid(kids@[i].1),
                    k <= kids@.len(),
                    tiles@.len() == k,
                    forall|i: int| 0 <= i < k ==> (#[trigger] tiles@[i]).0 == tiles@[i].1.tile.z && tile_of(
                        tiles@[i].1,
                        *a,
                        rid,
                        ts@,
                        vt[i] as int,
                        *cache,
                    ),
                    forall|i: int| 0 <= i < k ==> tile_ok(*a, rid, ts@, #[trigger] vt[i] as int),
                    start == old(cache).keys(),
                    after_objects.keys().is_prefix_of(cache.keys()),
                    start.is_prefix_of(cache.keys()),
                decreases kids@.len() - k,
            {
                let ghost before = *cache;
                let tl = match read_tile(a, cache, root, &ts, kids[k].1, &kids[k].0.name) {
                    Ok(t) => t,
                    Err(e) => {
                        assert(!tile_ok(*a, rid, ts@, vt[k as int] as int));
                        assert(tile_node(*a, n.id as int) == tile.id);
                        assert(a.visible(tile_node(*a, n.id as int))[k as int] == vt[k as int]);
                        assert(!layer_ok(*a, rid, n.id as int));
                        return Err(e);
                    },
                };
                proof {
                    assert forall|i: int| 0 <= i < k implies tile_of((#[trigger] tiles@[i]).1, *a, rid, ts@, vt[i] as int, *cache) by {
                        crate::sprite::lemma_sprite_of_grow(
                            tiles@[i].1.tile,
                            *a,
                            a.at_path_spec(rid, tile_path_of(*a, ts@, vt[i] as int))->Ok_0.id as int,
                            before,
                            *cache,
                        );
                    }
                }
                let z = tl.tile.z;
                tiles.push((z, tl));
                k = k + 1;
            }
        }
        let ghost tiles_in = tiles@;
        proof {
            assert forall|i: int| 0 <= i < objects_in.len() implies object_of(
                (#[trigger] objects_in[i]).1,
                *a,
                rid,
                vo[i] as int,
                *cache,
            ) by {
                lemma_object_grow(objects_in[i].1, *a, rid, vo[i] as int, after_objects, *cache);
            }
        }
        let sorted_tiles = sort_by_key(tiles);
        let sorted_objects = sort_by_key(objects);
        proof {
            lemma_sort_is_stable(tiles_in, 0);
            lemma_sort_is_stable(objects_in, 0);
        }
        let tiles = items_of(sorted_tiles);
        let objects = items_of(sorted_objects);
        proof {
            lemma_sort_len(tiles_in);
            lemma_sort_len(objects_in);
            let so = stable_sort(objects_in);
            let st = stable_sort(tiles_in);
            assert forall|i: int| 0 <= i < so.len() implies (#[trigger] so[i]).0 == so[i].1.z by {
                lemma_sort_member(objects_in, i);
            }
            assert forall|i: int| 0 <= i < st.len() implies (#[trigger] st[i]).0 == st[i].1.tile.z by {
                lemma_sort_member(tiles_in, i);
            }
            assert(objects@.map_values(|o: MapObject| o.z) =~= so.map_values(|x: (i32, MapObject)| x.0));
            assert(tiles@.map_values(|t: MapTile| t.tile.z) =~= st.map_values(|x: (i32, MapTile)| x.0));
            assert(layer_ok(*a, rid, n.id as int));
        }
        let l = MapLayer { tiles, objects };
        assert(layer_of(l, *a, rid, n.id as int, *cache));
        Ok(l)
    }
}

pub open spec fn keys_unique(v: Seq<(i32, Foothold)>) -> bool {
    forall|i: int, j: int| 0 <= i < j < v.len() ==> v[i].0 != v[j].0
}

/// The foothold node `s` holds these ends and links.
pub open spec fn segment_of(f: Foothold, a: Archive, s: int) -> bool {
    &&& int_field(a, s, "x1"@) == Ok::<_, ResolutionError>(f.start.x as i32)
    &&& int_field(a, s, "y1"@) == Ok::<_, ResolutionError>(f.start.y as i32)
    &&& int_field(a, s, "x2"@) == Ok::<_, ResolutionError>(f.end.x as i32)
    &&& int_field(a, s, "y2"@) == Ok::<_, ResolutionError>(f.end.y as i32)
    &&& int_field(a, s, "next"@) == Ok::<_, ResolutionError>(f.next)
    &&& int_field(a, s, "prev"@) == Ok::<_, ResolutionError>(f.prev)
    &&& f.start.fits_i32() && f.end.fits_i32()
}

/// An entry read from the node at `page/z_mass/id` under `n`.
pub open spec fn located(e: (i32, Foothold), a: Archive, n: int) -> bool {
    exists|p: usize, z: usize, s: usize|
        #![trigger a.visible(n).contains(p), a.visible(p as int).contains(z), a.visible(z as int).contains(s)]
        a.visible(n).contains(p) && a.visible(p as int).contains(z) && a.visible(z as int).contains(s)
            && signed_key(a.name_of(p as int)) == Some(e.1.page) && signed_key(a.name_of(z as int)) == Some(
            e.1.z_mass,
        ) && signed_key(a.name_of(s as int)) == Some(e.0) && segment_of(e.1, a, s as int)
}

/// Records a foothold under its id, in place of an earlier one with that id.
fn put_foothold(v: &mut Vec<(i32, Foothold)>, key: i32, fh: Foothold)
    requires
        keys_unique(old(v)@),
    ensures
        keys_unique(final(v)@),
        forall|i: int| 0 <= i < final(v)@.len() ==> #[trigger] final(v)@[i] == (key, fh) || old(v)@.contains(final(v)@[i]),
        exists|i: int| 0 <= i < final(v)@.len() && final(v)@[i] == (key, fh),
        forall|i: int| 0 <= i < old(v)@.len() && old(v)@[i].0 != key ==> final(v)@.contains(#[trigger] old(v)@[i]),
{
    let mut i: usize = 0;
    while i < v.len()
        invariant
            v@ == old(v)@,
            keys_unique(old(v)@),
            i <= v@.len(),
            forall|j: int| 0 <= j < i ==> v@[j].0 != key,
        decreases v@.len() - i,
    {
        if v[i].0 == key {
            v.set(i, (key, fh));
            proof {
                assert(v@[i as int] == (key, fh));
                assert forall|j: int| 0 <= j < old(v)@.len() && old(v)@[j].0 != key implies v@.contains(#[trigger] old(v)@[j]) by {
                    assert(v@[j] == old(v)@[j]);
                }
            }
            return;
        }
        i = i + 1;
    }
    v.push((key, fh));
    proof {
        assert(v@[v@.len() - 1] == (key, fh));
        assert forall|j: int| 0 <= j < old(v)@.len() && old(v)@[j].0 != key implies v@.contains(#[trigger] old(v)@[j]) by {
            assert(v@[j] == old(v)@[j]);
        }
    }
}

/// A foothold node: a numeric name and its six ints.
pub open spec fn seg_ok(a: Archive, s: int) -> bool {
    &&& signed_key(a.name_of(s)) is Some
    &&& int_field(a, s, "x1"@) is Ok
    &&& int_field(a, s, "x2"@) is Ok
    &&& int_field(a, s, "y1"@) is Ok
    &&& int_field(a, s, "y2"@) is Ok
    &&& int_field(a, s, "next"@) is Ok
    &&& int_field(a, s, "prev"@) is Ok
}

/// A z-mass group: a numeric name and readable footholds.
pub open spec fn group_ok(a: Archive, z: int) -> bool {
    &&& signed_key(a.name_of(z)) is Some
    &&& forall|si: int| 0 <= si < a.visible(z).len() ==> seg_ok(a, #[trigger] a.visible(z)[si] as int)
}

pub open spec fn page_ok(a: Archive, p: int) -> bool {
    &&& signed_key(a.name_of(p)) is Some
    &&& forall|zi: int| 0 <= zi < a.visible(p).len() ==> group_ok(a, #[trigger] a.visible(p)[zi] as int)
}

/// Every page, z-mass and foothold under `n` reads.
pub open spec fn footholds_ok(a: Archive, n: int) -> bool {
    forall|pi: int| 0 <= pi < a.visible(n).len() ==> page_ok(a, #[trigger] a.visible(n)[pi] as int)
}

pub open spec fn has_id(v: Seq<(i32, Foothold)>, k: i32) -> bool {
    exists|i: int| 0 <= i < v.len() && v[i].0 == k
}

/// Every foothold of group `z` has an entry under its id.
pub open spec fn group_read(v: Seq<(i32, Foothold)>, a: Archive, z: int) -> bool {
    forall|si: int| 0 <= si < a.visible(z).len() ==> has_id(v, signed_key(a.name_of(#[trigger] a.visible(z)[si] as int))->Some_0)
}

pub open spec fn page_read(v: Seq<(i32, Foothold)>, a: Archive, p: int) -> bool {
    forall|zi: int| 0 <= zi < a.visible(p).len() ==> group_read(v, a, #[trigger] a.visible(p)[zi] as int)
}

/// Every foothold node under `n` has an entry under its id.
pub open spec fn footholds_read(v: Seq<(i32, Foothold)>, a: Archive, n: int) -> bool {
    forall|pi: int| 0 <= pi < a.visible(n).len() ==> page_read(v, a, #[trigger] a.visible(n)[pi] as int)
}

pub open spec fn ids_grow(v1: Seq<(i32, Foothold)>, v2: Seq<(i32, Foothold)>) -> bool {
    forall|k: i32| has_id(v1, k) ==> #[trigger] has_id(v2, k)
}

proof fn lemma_group_read_grows(v1: Seq<(i32, Foothold)>, v2: Seq<(i32, Foothold)>, a: Archive, z: int)
    requires
        group_read(v1, a, z),
        ids_grow(v1, v2),
    ensures
        group_read(v2, a, z),
{
    assert forall|si: int| 0 <= si < a.visible(z).len() implies has_id(
        v2,
        signed_key(a.name_of(#[trigger] a.visible(z)[si] as int))->Some_0,
    ) by {
        assert(has_id(v1, signed_key(a.name_of(a.visible(z)[si] as int))->Some_0));
    }
}

proof fn lemma_page_read_grows(v1: Seq<(i32, Foothold)>, v2: Seq<(i32, Foothold)>, a: Archive, p: int)
    requires
        page_read(v1, a, p),
        ids_grow(v1, v2),
    ensures
        page_read(v2, a, p),
{
    assert forall|zi: int| 0 <= zi < a.visible(p).len() implies group_read(v2, a, #[trigger] a.visible(p)[zi] as int) by {
        lemma_group_read_grows(v1, v2, a, a.visible(p)[zi] as int);
    }
}

/// Reads footholds from their three levels, page, then z-mass, then id;
/// each keeps its page and z-mass, and a later id replaces an earlier one.
pub fn footholds_from(a: &Archive, n: Node) -> (r: Result<Vec<(i32, Foothold)>, ResolutionError>)
    requires
        a.wf(),
        a.valid(n),
    ensures
        r is Ok <==> footholds_ok(*a, n.id as int),
        r matches Ok(v) ==> keys_unique(v@) && footholds_read(v@, *a, n.id as int) && forall|i: int|
            0 <= i < v@.len() ==> located(#[trigger] v@[i], *a, n.id as int),
{
    let mut out: Vec<(i32, Foothold)> = Vec::new();
    let pages = n.children(a);
    let ghost vn = a.visible(n.id as int);
    let mut p: usize = 0;
    while p < pages.len()
        invariant
            a.wf(),
            vn == a.visible(n.id as int),
            forall|i: int| 0 <= i < pages@.len() ==> a.valid(#[trigger] pages@[i].1),
            forall|i: int|
                0 <= i < pages@.len() ==> (#[trigger] pages@[i]).1.id == vn[i] && pages@[i].0.name@
                    == a.name_of(pages@[i].1.id as int),
            pages@.len() == vn.len(),
            p <= pages@.len(),
            keys_unique(out@),
            forall|i: int| 0 <= i < out@.len() ==> located(#[trigger] out@[i], *a, n.id as int),
            forall|pi: int| 0 <= pi < p ==> page_ok(*a, #[trigger] vn[pi] as int) && page_read(out@, *a, vn[pi] as int),
        decreases pages@.len() - p,
    {
        let ghost pn = vn[p as int] as int;
        let page = match key_of(&pages[p].0.name) {
            Ok(v) => v,
            Err(e) => {
                assert(!page_ok(*a, vn[p as int] as int));
                return Err(e);
            },
        };
        let masses = pages[p].1.children(a);
        let ghost vp = a.visible(pn);
        let ghost at_page = out@;
        proof {
            assert(a.visible(n.id as int)[p as int] == pages@[p as int].1.id);
            assert(a.visible(n.id as int).contains(pages@[p as int].1.id));
        }
        let mut q: usize = 0;
        while q < masses.len()
            invariant
                a.wf(),
                vn == a.visible(n.id as int),
                pages@.len() == vn.len(),
                forall|i: int|
                    0 <= i < pages@.len() ==> (#[trigger] pages@[i]).1.id == vn[i],
                pn == vn[p as int] as int,
                vp == a.visible(pn),
                forall|i: int| 0 <= i < masses@.len() ==> a.valid(#[trigger] masses@[i].1),
                forall|i: int|
                    0 <= i < masses@.len() ==> (#[trigger] masses@[i]).1.id == vp[i]
                        && masses@[i].0.name@ == a.name_of(masses@[i].1.id as int),
                masses@.len() == vp.len(),
                p < pages@.len(),
                a.visible(n.id as int).contains(pages@[p as int].1.id),
                signed_key(a.name_of(pn)) == Some(page),
                q <= masses@.len(),
                keys_unique(out@),
                forall|i: int| 0 <= i < out@.len() ==> located(#[trigger] out@[i], *a, n.id as int),
                ids_grow(at_page, out@),
                forall|pi: int| 0 <= pi < p ==> page_ok(*a, #[trigger] vn[pi] as int) && page_read(at_page, *a, vn[pi] as int),
                forall|zi: int| 0 <= zi < q ==> group_ok(*a, #[trigger] vp[zi] as int) && group_read(out@, *a, vp[zi] as int),
            decreases masses@.len() - q,
        {
            let ghost zn = vp[q as int] as int;
            let z_mass = match key_of(&masses[q].0.name) {
                Ok(v) => v,
                Err(e) => {
                    assert(!group_ok(*a, zn));
                    assert(!page_ok(*a, pn));
                    return Err(e);
                },
            };
            let segs = masses[q].1.children(a);
            let ghost vz = a.visible(zn);
            let ghost at_group = out@;
            proof {
                assert(a.visible(pages@[p as int].1.id as int)[q as int] == masses@[q as int].1.id);
                assert(a.visible(pages@[p as int].1.id as int).contains(masses@[q as int].1.id));
            }
            let mut k: usize = 0;
            while k < segs.len()
                invariant
                    a.wf(),
                    vn == a.visible(n.id as int),
                    pages@.len() == vn.len(),
                    forall|i: int|
                        0 <= i < pages@.len() ==> (#[trigger] pages@[i]).1.id == vn[i],
                    pn == vn[p as int] as int,
                    vp == a.visible(pn),
                    masses@.len() == vp.len(),
                    forall|i: int| 0 <= i < masses@.len() ==> (#[trigger] masses@[i]).1.id == vp[i],
                    zn == vp[q as int] as int,
                    vz == a.visible(zn),
                    forall|i: int| 0 <= i < segs@.len() ==> a.valid(#[trigger] segs@[i].1),
                    forall|i: int|
                        0 <= i < segs@.len() ==> (#[trigger] segs@[i]).1.id == vz[i]
                            && segs@[i].0.name@ == a.name_of(segs@[i].1.id as int),
                    segs@.len() == vz.len(),
                    q < masses@.len(),
                    p < pages@.len(),
                    a.visible(n.id as int).contains(pages@[p as int].1.id),
                    a.visible(pages@[p as int].1.id as int).contains(masses@[q as int].1.id),
                    signed_key(a.name_of(pn)) == Some(page),
                    signed_key(a.name_of(zn)) == Some(z_mass),
                    k <= segs@.len(),
                    keys_unique(out@),
                    forall|i: int| 0 <= i < out@.len() ==> located(#[trigger] out@[i], *a, n.id as int),
                    ids_grow(at_page, at_group),
                    ids_grow(at_group, out@),
                    forall|pi: int| 0 <= pi < p ==> page_ok(*a, #[trigger] vn[pi] as int) && page_read(at_page, *a, vn[pi] as int),
                    forall|zi: int| 0 <= zi < q ==> group_ok(*a, #[trigger] vp[zi] as int) && group_read(at_group, *a, vp[zi] as int),
                    forall|si: int| 0 <= si < k ==> seg_ok(*a, #[trigger] vz[si] as int) && has_id(
                        out@,
                        signed_key(a.name_of(vz[si] as int))->Some_0,
                    ),
                decreases segs@.len() - k,
            {
                let val = segs[k].1;
                let ghost sn = vz[k as int] as int;
                let fields = read_segment(a, val);
                let (x1, x2, y1, y2, next, prev) = match fields {
                    Ok(f) => f,
                    Err(e) => {
                        assert(!seg_ok(*a, sn));
                        assert(!group_ok(*a, zn));
                        assert(!page_ok(*a, pn));
                        return Err(e);
                    },
                };
                let key = match key_of(&segs[k].0.name) {
                    Ok(v) => v,
                    Err(e) => {
                        assert(!seg_ok(*a, sn));
                        assert(!group_ok(*a, zn));
                        assert(!page_ok(*a, pn));
                        return Err(e);
                    },
                };
                let fh = Foothold {
                    start: Vec2 { x: x1 as i64, y: y1 as i64 },
                    end: Vec2 { x: x2 as i64, y: y2 as i64 },
                    prev,
                    next,
                    page,
                    z_mass,
                };
                let ghost before = out@;
                proof {
                    let pi = pages@[p as int].1.id;
                    let zi = masses@[q as int].1.id;
                    let si = segs@[k as int].1.id;
                    assert(a.visible(zi as int)[k as int] == si);
                    assert(a.visible(zi as int).contains(si));
                    assert(located((key, fh), *a, n.id as int));
                }
                put_foothold(&mut out, key, fh);
                proof {
                    assert forall|i: int| 0 <= i < out@.len() implies located(#[trigger] out@[i], *a, n.id as int) by {
                        if out@[i] != (key, fh) {
                            let j = choose|j: int| 0 <= j < before.len() && before[j] == out@[i];
                            assert(located(before[j], *a, n.id as int));
                        }
                    }
                    assert(ids_grow(at_group, out@)) by {
                        assert forall|kk: i32| has_id(at_group, kk) implies #[trigger] has_id(out@, kk) by {
                            assert(has_id(before, kk));
                        }
                    }
                    assert forall|si: int| 0 <= si < k + 1 implies seg_ok(*a, #[trigger] vz[si] as int) && has_id(
                        out@,
                        signed_key(a.name_of(vz[si] as int))->Some_0,
                    ) by {
                        if si < k {
                            assert(has_id(before, signed_key(a.name_of(vz[si] as int))->Some_0));
                        } else {
                            let w = choose|w: int| 0 <= w < out@.len() && out@[w] == (key, fh);
                            assert(out@[w].0 == key);
                        }
                    }
                }
                k = k + 1;
            }
            proof {
                assert(group_ok(*a, zn));
                assert(group_read(out@, *a, zn));
                assert forall|zi: int| 0 <= zi < q + 1 implies group_ok(*a, #[trigger] vp[zi] as int) && group_read(
                    out@,
                    *a,
                    vp[zi] as int,
                ) by {
                    if zi < q {
                        lemma_group_read_grows(at_group, out@, *a, vp[zi] as int);
                    }
                }
                assert(ids_grow(at_page, out@)) by {
                    assert forall|kk: i32| has_id(at_page, kk) implies #[trigger] has_id(out@, kk) by {
                        assert(has_id(at_group, kk));
                    }
                }
            }
            q = q + 1;
        }
        proof {
            assert(page_ok(*a, pn));
            assert(page_read(out@, *a, pn));
            assert forall|pi: int| 0 <= pi < p + 1 implies page_ok(*a, #[trigger] vn[pi] as int) && page_read(
                out@,
                *a,
                vn[pi] as int,
            ) by {
                if pi < p {
                    lemma_page_read_grows(at_page, out@, *a, vn[pi] as int);
                }
            }
        }
        p = p + 1;
    }
    Ok(out)
}

fn read_segment(a: &Archive, val: Node) -> (r: Result<(i32, i32, i32, i32, i32, i32), ResolutionError>)
    requires
        a.wf(),
        a.valid(val),
    ensures
        r is Ok <==> (int_field(*a, val.id as int, "x1"@) is Ok && int_field(*a, val.id as int, "x2"@) is Ok
            && int_field(*a, val.id as int, "y1"@) is Ok && int_field(*a, val.id as int, "y2"@) is Ok
            && int_field(*a, val.id as int, "next"@) is Ok && int_field(*a, val.id as int, "prev"@) is Ok),
        r matches Ok(f) ==> int_field(*a, val.id as int, "x1"@) == Ok::<_, ResolutionError>(f.0)
            && int_field(*a, val.id as int, "x2"@) == Ok::<_, ResolutionError>(f.1)
            && int_field(*a, val.id as int, "y1"@) == Ok::<_, ResolutionError>(f.2)
            && int_field(*a, val.id as int, "y2"@) == Ok::<_, ResolutionError>(f.3)
            && int_field(*a, val.id as int, "next"@) == Ok::<_, ResolutionError>(f.4)
            && int_field(*a, val.id as int, "prev"@) == Ok::<_, ResolutionError>(f.5),
{
    let x1 = match val.int_field(a, "x1") {
        Ok(v) => v,
        Err(e) => return Err(e),
    };
    let x2 = match val.int_field(a, "x2") {
        Ok(v) => v,
        Err(e) => return Err(e),
    };
    let y1 = match val.int_field(a, "y1") {
        Ok(v) => v,
        Err(e) => return Err(e),
    };
    let y2 = match val.int_field(a, "y2") {
        Ok(v) => v,
        Err(e) => return Err(e),
    };
    let next = match val.int_field(a, "next") {
        Ok(v) => v,
        Err(e) => return Err(e),
    };
    let prev = match val.int_field(a, "prev") {
        Ok(v) => v,
        Err(e) => return Err(e),
    };
    Ok((x1, x2, y1, y2, next, prev))
}

/// Reads the numbered children of `n` as portals.
pub fn portals_from(a: &Archive, n: Node) -> (r: Result<Vec<Portal>, ResolutionError>)
    requires
        a.wf(),
        a.valid(n),
    ensures
        r is Ok <==> forall|i: int| 0 <= i < numbered(*a, n.id as int).len() ==> portal_ok(*a, #[trigger] numbered(*a, n.id as int)[i] as int),
        r matches Ok(v) ==> v@.len() == numbered(*a, n.id as int).len() && forall|i: int|
            0 <= i < v@.len() ==> portal_of(#[trigger] v@[i], *a, numbered(*a, n.id as int)[i] as int),
{
    let nodes = n.numbered_children(a);
    let ghost ids = numbered(*a, n.id as int);
    let mut out: Vec<Portal> = Vec::new();
    let mut k: usize = 0;
    while k < nodes.len()
        invariant
            a.wf(),
            ids == numbered(*a, n.id as int),
            nodes@.map_values(|m: Node| m.id) == ids,
            forall|i: int| 0 <= i < nodes@.len() ==> a.valid(#[trigger] nodes@[i]),
            k <= nodes@.len(),
            out@.len() == k,
            forall|i: int| 0 <= i < k ==> portal_of(#[trigger] out@[i], *a, ids[i] as int),
            forall|i: int| 0 <= i < k ==> portal_ok(*a, #[trigger] ids[i] as int),
        decreases nodes@.len() - k,
    {
        assert(nodes@[k as int].id == ids[k as int]);
        match Portal::from(a, nodes[k]) {
            Ok(p) => out.push(p),
            Err(e) => return Err(e),
        }
        k = k + 1;
    }
    Ok(out)
}

/// Reads the numbered children of `n` as life placements.
pub fn lives_from(a: &Archive, n: Node) -> (r: Result<Vec<MapLife>, ResolutionError>)
    requires
        a.wf(),
        a.valid(n),
    ensures
        r is Ok <==> forall|i: int| 0 <= i < numbered(*a, n.id as int).len() ==> life_ok(*a, #[trigger] numbered(*a, n.id as int)[i] as int),
        r matches Ok(v) ==> v@.len() == numbered(*a, n.id as int).len() && forall|i: int|
            0 <= i < v@.len() ==> life_of(#[trigger] v@[i], *a, numbered(*a, n.id as int)[i] as int),
{
    let nodes = n.numbered_children(a);
    let ghost ids = numbered(*a, n.id as int);
    let mut out: Vec<MapLife> = Vec::new();
    let mut k: usize = 0;
    while k < nodes.len()
        invariant
            a.wf(),
            ids == numbered(*a, n.id as int),
            nodes@.map_values(|m: Node| m.id) == ids,
            forall|i: int| 0 <= i < nodes@.len() ==> a.valid(#[trigger] nodes@[i]),
            k <= nodes@.len(),
            out@.len() == k,
            forall|i: int| 0 <= i < k ==> life_of(#[trigger] out@[i], *a, ids[i] as int),
            forall|i: int| 0 <= i < k ==> life_ok(*a, #[trigger] ids[i] as int),
        decreases nodes@.len() - k,
    {
        assert(nodes@[k as int].id == ids[k as int]);
        match MapLife::from(a, nodes[k]) {
            Ok(l) => out.push(l),
            Err(e) => return Err(e),
        }
        k = k + 1;
    }
    Ok(out)
}

/// Shared map sprites: the portal animation frames.
pub struct MapHelper {
    pub pv: Vec<Sprite>,
}

impl MapHelper {
    /// Reads the frames under `portal/game/pv`.
    pub fn from(a: &Archive, cache: &mut ImageCache, n: Node) -> (r: Result<MapHelper, ResolutionError>)
        requires
            a.wf(),
            a.valid(n),
        ensures
            old(cache).keys().is_prefix_of(final(cache).keys()),
            r is Ok <==> (a.at_path_spec(n.id as int, "portal/game/pv"@) matches Ok(m) && frames_ok(*a, m.id as int)),
            r matches Ok(h) ==> a.at_path_spec(n.id as int, "portal/game/pv"@) matches Ok(m) && h.pv@.len()
                == numbered(*a, m.id as int).len() && forall|i: int|
                0 <= i < h.pv@.len() ==> sprite_of(#[trigger] h.pv@[i], *a, numbered(*a, m.id as int)[i] as int, *final(cache)),
    {
        let m = match n.at_path(a, "portal/game/pv") {
            Ok(m) => m,
            Err(e) => return Err(e),
        };
        match sprites_from(a, cache, m) {
            Ok(pv) => Ok(MapHelper { pv }),
            Err(e) => Err(e),
        }
    }
}

/// A playable map.
pub struct GameMap {
    pub npc: Vec<(String, Npc)>,
    pub life: Vec<MapLife>,
    pub backgrounds: Vec<MapBackground>,
    pub layers: Vec<MapLayer>,
    pub footholds: Vec<(i32, Foothold)>,
    pub portals: Vec<Portal>,
    pub helper: MapHelper,
    pub portal_timer: Timer,
    pub info: MapInfo,
}

/// Where a map lives: `Map/Map/Map<first digit>/<name>.img`.
pub open spec fn map_path(name: Seq<char>) -> Seq<char> {
    "Map/Map/Map"@ + name.take(1) + "/"@ + name + ".img"@
}

/// The portal timer: one 100 ms interval per portal frame after the first.
pub open spec fn portal_intervals(frames: nat) -> Seq<u32> {
    Seq::new(if frames > 0 { (frames - 1) as nat } else { 0 }, |i: int| 100u32)
}

fn map_path_string(name: &str) -> (r: String)
    requires
        name@.len() > 0,
    ensures
        r@ == map_path(name@),
{
    let mut p = String::from_str("Map/Map/Map");
    p.append(name.substring_char(0, 1));
    p.append("/");
    p.append(name);
    p.append(".img");
    p
}

fn npc_path(id: &String) -> (r: String)
    ensures
        r@ == "Npc/"@ + id@ + ".img"@,
{
    let mut p = String::from_str("Npc/");
    p.append(id.as_str());
    p.append(".img");
    p
}

pub open spec fn has_npc(v: Seq<(String, Npc)>, id: Seq<char>) -> bool {
    exists|i: int| 0 <= i < v.len() && v[i].0@ == id
}

pub open spec fn npc_keys_distinct(v: Seq<(String, Npc)>) -> bool {
    forall|i: int, j: int| 0 <= i < j < v.len() ==> v[i].0@ != v[j].0@
}

/// Records an NPC under its id, in place of an earlier one with that id.
fn put_npc(v: &mut Vec<(String, Npc)>, key: String, npc: Npc)
    requires
        npc_keys_distinct(old(v)@),
    ensures
        npc_keys_distinct(final(v)@),
        has_npc(final(v)@, key@),
        forall|k: Seq<char>| has_npc(old(v)@, k) ==> #[trigger] has_npc(final(v)@, k),
        forall|i: int|
            0 <= i < final(v)@.len() ==> ((#[trigger] final(v)@[i]).0@ == key@ && final(v)@[i].1 == npc) || old(
                v,
            )@.contains(final(v)@[i]),
{
    let mut i: usize = 0;
    while i < v.len()
        invariant
            v@ == old(v)@,
            npc_keys_distinct(old(v)@),
            i <= v@.len(),
            forall|j: int| 0 <= j < i ==> v@[j].0@ != key@,
        decreases v@.len() - i,
    {
        if v[i].0 == key {
            let (k, _) = v.remove(i);
            v.insert(i, (k, npc));
            proof {
                assert forall|j: int| 0 <= j < v@.len() implies v@[j].0@ == old(v)@[j].0@ by {}
                assert forall|j: int| 0 <= j < v@.len() && j != i implies v@[j] == old(v)@[j] by {}
                assert(v@[i as int].0@ == key@);
                assert forall|kk: Seq<char>| has_npc(old(v)@, kk) implies #[trigger] has_npc(v@, kk) by {
                    let j = choose|j: int| 0 <= j < old(v)@.len() && old(v)@[j].0@ == kk;
                    assert(v@[j].0@ == kk);
                }
                assert forall|j: int| 0 <= j < v@.len() implies ((#[trigger] v@[j]).0@ == key@ && v@[j].1 == npc) || old(
                    v,
                )@.contains(v@[j]) by {
                    if j != i {
                        assert(old(v)@[j] == v@[j]);
                    }
                }
            }
            return;
        }
        i = i + 1;
    }
    v.push((key, npc));
    proof {
        let n = old(v)@.len() as int;
        assert(v@[n].0@ == key@);
        assert forall|kk: Seq<char>| has_npc(old(v)@, kk) implies #[trigger] has_npc(v@, kk) by {
            let j = choose|j: int| 0 <= j < old(v)@.len() && old(v)@[j].0@ == kk;
            assert(v@[j] == old(v)@[j]);
        }
        assert forall|j: int| 0 <= j < v@.len() implies ((#[trigger] v@[j]).0@ == key@ && v@[j].1 == npc) || old(
            v,
        )@.contains(v@[j]) by {
            if j < n {
                assert(old(v)@[j] == v@[j]);
            }
        }
    }
}

/// Some life placement of type `n` has this id.
pub open spec fn is_npc_of(life: Seq<MapLife>, id: Seq<char>) -> bool {
    exists|j: int| 0 <= j < life.len() && life[j].kind@ == "n"@ && life[j].id@ == id
}

pub open spec fn npc_path_of(id: Seq<char>) -> Seq<char> {
    "Npc/"@ + id + ".img"@
}

/// The NPC with this id resolves and reads.
pub open spec fn npc_source_ok(a: Archive, root: int, id: Seq<char>) -> bool {
    a.at_path_spec(root, npc_path_of(id)) matches Ok(m) && npc_ok(a, m.id as int)
}

/// An entry holds the NPC read for its id, which a life of type `n` names.
pub open spec fn npc_entry(e: (String, Npc), life: Seq<MapLife>, a: Archive, root: int) -> bool {
    &&& is_npc_of(life, e.0@)
    &&& a.at_path_spec(root, npc_path_of(e.0@)) matches Ok(m) && npc_of(e.1, a, m.id as int)
}

/// Reads the NPC of each life placement of type `n` from `Npc/<id>.img`,
/// one per id.
pub fn npcs_from(a: &Archive, cache: &mut ImageCache, root: Node, life: &Vec<MapLife>) -> (r: Result<
    Vec<(String, Npc)>,
    ResolutionError,
>)
    requires
        a.wf(),
        a.valid(root),
    ensures
        old(cache).keys().is_prefix_of(final(cache).keys()),
        r is Ok <==> forall|j: int|
            0 <= j < life@.len() && (#[trigger] life@[j]).kind@ == "n"@ ==> npc_source_ok(*a, root.id as int, life@[j].id@),
        r matches Ok(v) ==> {
            &&& npc_keys_distinct(v@)
            &&& forall|j: int| 0 <= j < life@.len() && (#[trigger] life@[j]).kind@ == "n"@ ==> has_npc(v@, life@[j].id@)
            &&& forall|i: int| 0 <= i < v@.len() ==> npc_entry(#[trigger] v@[i], life@, *a, root.id as int)
        },
{
    let ghost start = cache.keys();
    let mut npc: Vec<(String, Npc)> = Vec::new();
    let npc_kind = String::from_str("n");
    let mut k: usize = 0;
    while k < life.len()
        invariant
            a.wf(),
            a.valid(root),
            npc_kind@ == "n"@,
            k <= life@.len(),
            npc_keys_distinct(npc@),
            forall|j: int| 0 <= j < k && (#[trigger] life@[j]).kind@ == "n"@ ==> has_npc(npc@, life@[j].id@)
                && npc_source_ok(*a, root.id as int, life@[j].id@),
            forall|i: int| 0 <= i < npc@.len() ==> npc_entry(#[trigger] npc@[i], life@, *a, root.id as int),
            start == old(cache).keys(),
            start.is_prefix_of(cache.keys()),
        decreases life@.len() - k,
    {
        if life[k].kind == npc_kind {
            let p = npc_path(&life[k].id);
            let target = match root.at_path(a, p.as_str()) {
                Ok(t) => t,
                Err(e) => return Err(e),
            };
            let found = match Npc::from(a, cache, target) {
                Ok(n) => n,
                Err(e) => return Err(e),
            };
            let ghost before = npc@;
            let key = life[k].id.clone();
            proof {
                assert(life@[k as int].kind@ == "n"@);
                assert(is_npc_of(life@, key@));
                assert(npc_entry((key, found), life@, *a, root.id as int));
            }
            put_npc(&mut npc, key, found);
            proof {
                assert forall|i: int| 0 <= i < npc@.len() implies npc_entry(#[trigger] npc@[i], life@, *a, root.id as int) by {
                    if !(npc@[i].0@ == key@ && npc@[i].1 == found) {
                        let j = choose|j: int| 0 <= j < before.len() && before[j] == npc@[i];
                        assert(npc_entry(before[j], life@, *a, root.id as int));
                    }
                }
                assert forall|j: int| 0 <= j < k + 1 && (#[trigger] life@[j]).kind@ == "n"@ implies has_npc(
                    npc@,
                    life@[j].id@,
                ) && npc_source_ok(*a, root.id as int, life@[j].id@) by {
                    if j < k {
                        assert(has_npc(before, life@[j].id@));
                    }
                }
            }
        }
        k = k + 1;
    }
    Ok(npc)
}

fn portal_timer_intervals(frames: usize) -> (r: Vec<u32>)
    ensures
        r@ == portal_intervals(frames as nat),
{
    let n: usize = if frames > 0 { frames - 1 } else { 0 };
    let mut out: Vec<u32> = Vec::new();
    let mut k: usize = 0;
    while k < n
        invariant
            k <= n,
            out@.len() == k,
            forall|i: int| 0 <= i < out@.len() ==> out@[i] == 100u32,
        decreases n - k,
    {
        out.push(100);
        k = k + 1;
    }
    assert(out@ =~= portal_intervals(frames as nat));
    out
}

/// The child of `n` named by the decimal form of `k`.
pub open spec fn numbered_child(a: Archive, n: int, k: int) -> Option<usize> {
    a.child(n, signed_decimal((k as i32) as int))
}

/// Each background placement `0`, `1`, ... under `b` reads.
pub open spec fn backs_ok(a: Archive, root: int, b: int) -> bool {
    forall|k: int|
        0 <= k < a.visible(b).len() ==> ((#[trigger] numbered_child(a, b, k)) matches Some(c) && background_ok(a, root, c as int))
}

pub open spec fn backs_of(v: Seq<MapBackground>, a: Archive, root: int, b: int, cache: ImageCache) -> bool {
    &&& v.len() == a.visible(b).len()
    &&& forall|k: int|
        0 <= k < v.len() ==> (numbered_child(a, b, k) matches Some(c) && background_of(#[trigger] v[k], a, root, c as int, cache))
}

/// The seven layers `0` to `6` under the map node read.
pub open spec fn layers_ok(a: Archive, root: int, img: int) -> bool {
    forall|k: int| 0 <= k < 7 ==> ((#[trigger] numbered_child(a, img, k)) matches Some(c) && layer_ok(a, root, c as int))
}

pub open spec fn layers_of(v: Seq<MapLayer>, a: Archive, root: int, img: int, cache: ImageCache) -> bool {
    &&& v.len() == 7
    &&& forall|k: int| 0 <= k < 7 ==> (numbered_child(a, img, k) matches Some(c) && layer_of(#[trigger] v[k], a, root, c as int, cache))
}

/// Each life of type `n` names an NPC that resolves and reads.
pub open spec fn npcs_ok(a: Archive, root: int, l: int) -> bool {
    forall|j: int|
        0 <= j < numbered(a, l).len() && text_field(a, #[trigger] numbered(a, l)[j] as int, "type"@) == Ok::<_, ResolutionError>(
            "n"@,
        ) ==> npc_source_ok(a, root, text_field(a, numbered(a, l)[j] as int, "id"@)->Ok_0)
}

/// Everything that building map `name` reads is there and readable.
pub open spec fn map_ok(a: Archive, root: int, name: Seq<char>) -> bool {
    a.at_path_spec(root, map_path(name)) matches Ok(img) && {
        let i = img.id as int;
        &&& a.child(i, "back"@) matches Some(b) && backs_ok(a, root, b as int)
        &&& layers_ok(a, root, i)
        &&& a.child(i, "foothold"@) matches Some(f) && footholds_ok(a, f as int)
        &&& a.at_path_spec(root, "Map/MapHelper.img"@) matches Ok(h) && a.at_path_spec(h.id as int, "portal/game/pv"@) matches Ok(
            pv,
        ) && frames_ok(a, pv.id as int)
        &&& a.child(i, "life"@) matches Some(l) && (forall|j: int|
            0 <= j < numbered(a, l as int).len() ==> life_ok(a, #[trigger] numbered(a, l as int)[j] as int)) && npcs_ok(
            a,
            root,
            l as int,
        )
        &&& a.child(i, "portal"@) matches Some(p) && (forall|j: int|
            0 <= j < numbered(a, p as int).len() ==> portal_ok(a, #[trigger] numbered(a, p as int)[j] as int))
        &&& a.child(i, "info"@) matches Some(f) && info_ok(a, f as int)
    }
}

pub proof fn lemma_background_grow(b: MapBackground, a: Archive, root: int, n: int, c1: ImageCache, c2: ImageCache)
    requires
        background_of(b, a, root, n, c1),
        c1.keys().is_prefix_of(c2.keys()),
    ensures
        background_of(b, a, root, n, c2),
{
    let m = back_node(a, root, n);
    match b.sprite {
        Drawable::Sprite(s) => {
            crate::sprite::lemma_sprite_of_grow(s, a, m, c1, c2);
        },
        Drawable::SpriteAnimation(an) => {
            assert forall|i: int| 0 <= i < an.frames@.len() implies sprite_of(
                #[trigger] an.frames@[i],
                a,
                numbered(a, m)[i] as int,
                c2,
            ) by {
                crate::sprite::lemma_sprite_of_grow(an.frames@[i], a, numbered(a, m)[i] as int, c1, c2);
            }
        },
    }
}

pub proof fn lemma_layer_grow(l: MapLayer, a: Archive, root: int, n: int, c1: ImageCache, c2: ImageCache)
    requires
        layer_of(l, a, root, n, c1),
        c1.keys().is_prefix_of(c2.keys()),
    ensures
        layer_of(l, a, root, n, c2),
{
    let objs = choose|objs: Seq<(i32, MapObject)>|
        #![trigger stable_sort(objs)]
        objs.len() == (if a.child(n, "obj"@) is Some { a.visible(obj_node(a, n)).len() } else { 0 }) && (forall|i: int|
            0 <= i < objs.len() ==> (#[trigger] objs[i]).0 == objs[i].1.z && object_of(
                objs[i].1,
                a,
                root,
                a.visible(obj_node(a, n))[i] as int,
                c1,
            )) && l.objects@ == stable_sort(objs).map_values(|x: (i32, MapObject)| x.1);
    assert forall|i: int| 0 <= i < objs.len() implies (#[trigger] objs[i]).0 == objs[i].1.z && object_of(
        objs[i].1,
        a,
        root,
        a.visible(obj_node(a, n))[i] as int,
        c2,
    ) by {
        lemma_object_grow(objs[i].1, a, root, a.visible(obj_node(a, n))[i] as int, c1, c2);
    }
    let tiles = choose|tiles: Seq<(i32, MapTile)>|
        #![trigger stable_sort(tiles)]
        tiles.len() == (if tile_set(a, n) is Some { a.visible(tile_node(a, n)).len() } else { 0 }) && (forall|i: int|
            0 <= i < tiles.len() ==> (#[trigger] tiles[i]).0 == tiles[i].1.tile.z && tile_of(
                tiles[i].1,
                a,
                root,
                tile_set(a, n)->Some_0,
                a.visible(tile_node(a, n))[i] as int,
                c1,
            )) && l.tiles@ == stable_sort(tiles).map_values(|x: (i32, MapTile)| x.1);
    assert forall|i: int| 0 <= i < tiles.len() implies (#[trigger] tiles[i]).0 == tiles[i].1.tile.z && tile_of(
        tiles[i].1,
        a,
        root,
        tile_set(a, n)->Some_0,
        a.visible(tile_node(a, n))[i] as int,
        c2,
    ) by {
        let t = a.visible(tile_node(a, n))[i] as int;
        crate::sprite::lemma_sprite_of_grow(
            tiles[i].1.tile,
            a,
            a.at_path_spec(root, tile_path_of(a, tile_set(a, n)->Some_0, t))->Ok_0.id as int,
            c1,
            c2,
        );
    }
}

proof fn lemma_npcs_bridge(life: Seq<MapLife>, a: Archive, root: int, l: int)
    requires
        life.len() == numbered(a, l).len(),
        forall|j: int| 0 <= j < life.len() ==> life_of(#[trigger] life[j], a, numbered(a, l)[j] as int),
    ensures
        npcs_ok(a, root, l) <==> forall|j: int|
            0 <= j < life.len() && (#[trigger] life[j]).kind@ == "n"@ ==> npc_source_ok(a, root, life[j].id@),
{
    if npcs_ok(a, root, l) {
        assert forall|j: int| 0 <= j < life.len() && (#[trigger] life[j]).kind@ == "n"@ implies npc_source_ok(
            a,
            root,
            life[j].id@,
        ) by {
            assert(life_of(life[j], a, numbered(a, l)[j] as int));
        }
    }
    if forall|j: int| 0 <= j < life.len() && (#[trigger] life[j]).kind@ == "n"@ ==> npc_source_ok(a, root, life[j].id@) {
        assert forall|j: int|
            0 <= j < numbered(a, l).len() && text_field(a, #[trigger] numbered(a, l)[j] as int, "type"@) == Ok::<
                _,
                ResolutionError,
            >("n"@) implies npc_source_ok(a, root, text_field(a, numbered(a, l)[j] as int, "id"@)->Ok_0) by {
            assert(life_of(life[j], a, numbered(a, l)[j] as int));
        }
    }
}

impl GameMap {
    /// Builds the map `name` (its digits, e.g. `100000000`) from the archive
    /// under `root`: backgrounds, seven layers of tiles and objects, footholds,
    /// portals, life and the NPCs among it, the map's info and the shared
    /// portal frames.
    pub fn new(a: &Archive, cache: &mut ImageCache, root: Node, name: &str) -> (r: Result<GameMap, ResolutionError>)
        requires
            a.wf(),
            a.valid(root),
            name@.len() > 0,
        ensures
            old(cache).keys().is_prefix_of(final(cache).keys()),
            a.at_path_spec(root.id as int, map_path(name@)) matches Err(e) ==> r == Err::<GameMap, ResolutionError>(e),
            r is Ok <==> map_ok(*a, root.id as int, name@),
            r matches Ok(m) ==> {
                &&& a.at_path_spec(root.id as int, map_path(name@)) matches Ok(img) && {
                    let i = img.id as int;
                    let portal = a.child(i, "portal"@)->Some_0 as int;
                    let life = a.child(i, "life"@)->Some_0 as int;
                    let f = a.child(i, "foothold"@)->Some_0 as int;
                    let info = a.child(i, "info"@)->Some_0 as int;
                    &&& backs_of(m.backgrounds@, *a, root.id as int, a.child(i, "back"@)->Some_0 as int, *final(cache))
                    &&& layers_of(m.layers@, *a, root.id as int, i, *final(cache))
                    &&& keys_unique(m.footholds@)
                    &&& footholds_read(m.footholds@, *a, f)
                    &&& forall|k: int| 0 <= k < m.footholds@.len() ==> located(#[trigger] m.footholds@[k], *a, f)
                    &&& m.portals@.len() == numbered(*a, portal).len()
                    &&& forall|k: int| 0 <= k < m.portals@.len() ==> portal_of(#[trigger] m.portals@[k], *a, numbered(*a, portal)[k] as int)
                    &&& m.life@.len() == numbered(*a, life).len()
                    &&& forall|k: int| 0 <= k < m.life@.len() ==> life_of(#[trigger] m.life@[k], *a, numbered(*a, life)[k] as int)
                    &&& int_field(*a, info, "VRTop"@) == Ok::<_, ResolutionError>(m.info.vr_top)
                    &&& int_field(*a, info, "VRBottom"@) == Ok::<_, ResolutionError>(m.info.vr_bottom)
                    &&& int_field(*a, info, "VRLeft"@) == Ok::<_, ResolutionError>(m.info.vr_left)
                    &&& int_field(*a, info, "VRRight"@) == Ok::<_, ResolutionError>(m.info.vr_right)
                }
                &&& a.at_path_spec(root.id as int, "Map/MapHelper.img"@) matches Ok(h) && a.at_path_spec(
                    h.id as int,
                    "portal/game/pv"@,
                ) matches Ok(pv) && m.helper.pv@.len() == numbered(*a, pv.id as int).len() && forall|k: int|
                    0 <= k < m.helper.pv@.len() ==> sprite_of(
                        #[trigger] m.helper.pv@[k],
                        *a,
                        numbered(*a, pv.id as int)[k] as int,
                        *final(cache),
                    )
                &&& m.portal_timer.wf()
                &&& m.portal_timer.state() == crate::timer::fresh(portal_intervals(m.helper.pv@.len()))
                &&& npc_keys_distinct(m.npc@)
                &&& forall|k: int| 0 <= k < m.life@.len() && (#[trigger] m.life@[k]).kind@ == "n"@ ==> has_npc(m.npc@, m.life@[k].id@)
                &&& forall|k: int| 0 <= k < m.npc@.len() ==> npc_entry(#[trigger] m.npc@[k], m.life@, *a, root.id as int)
            },
    {
        let ghost rid = root.id as int;
        let path = map_path_string(name);
        let map_img = match root.at_path(a, path.as_str()) {
            Ok(m) => m,
            Err(e) => return Err(e),
        };
        let ghost img = map_img.id as int;
        let ghost start = cache.keys();
        let back = match map_img.try_get(a, "back") {
            Some(b) => b,
            None => return Err(ResolutionError::NotFound),
        };
        let kids = back.children(a);
        let count = kids.len();
        let mut backgrounds: Vec<MapBackground> = Vec::new();
        let mut i: usize = 0;
        while i < count
            invariant
                a.wf(),
                a.valid(root),
                a.valid(back),
                a.valid(map_img),
                rid == root.id,
                img == map_img.id,
                a.at_path_spec(rid, map_path(name@)) == Ok::<Node, ResolutionError>(map_img),
                a.child(img, "back"@) == Some(back.id),
                count == a.visible(back.id as int).len(),
                i <= count,
                backgrounds@.len() == i,
                forall|k: int| 0 <= k < i ==> ((#[trigger] numbered_child(*a, back.id as int, k)) matches Some(c) && background_ok(
                    *a,
                    rid,
                    c as int,
                ) && background_of(backgrounds@[k], *a, rid, c as int, *cache)),
                start == old(cache).keys(),
                start.is_prefix_of(cache.keys()),
            decreases count - i,
        {
            let key = decimal_string(i as i32);
            let node = match back.try_get(a, key.as_str()) {
                Some(c) => c,
                None => {
                    assert(numbered_child(*a, back.id as int, i as int) is None);
                    return Err(ResolutionError::NotFound);
                },
            };
            let ghost before = *cache;
            match MapBackground::new(a, cache, root, node) {
                Ok(b) => {
                    proof {
                        assert forall|k: int| 0 <= k < i implies (#[trigger] numbered_child(*a, back.id as int, k)) matches Some(c)
                            && background_of(backgrounds@[k], *a, rid, c as int, *cache) by {
                            let c = numbered_child(*a, back.id as int, k)->Some_0;
                            lemma_background_grow(backgrounds@[k], *a, rid, c as int, before, *cache);
                        }
                    }
                    backgrounds.push(b);
                    proof {
                        assert(numbered_child(*a, back.id as int, i as int) == Some(node.id));
                    }
                },
                Err(e) => {
                    assert(numbered_child(*a, back.id as int, i as int) == Some(node.id));
                    return Err(e);
                },
            }
            i = i + 1;
        }
        let ghost after_backs = *cache;
        let mut layers: Vec<MapLayer> = Vec::new();
        let mut li: usize = 0;
        while li < 7
            invariant
                a.wf(),
                a.valid(root),
                a.valid(map_img),
                rid == root.id,
                img == map_img.id,
                a.at_path_spec(rid, map_path(name@)) == Ok::<Node, ResolutionError>(map_img),
                a.child(img, "back"@) == Some(back.id),
                backs_ok(*a, rid, back.id as int),
                backs_of(backgrounds@, *a, rid, back.id as int, after_backs),
                li <= 7,
                layers@.len() == li,
                forall|k: int| 0 <= k < li ==> ((#[trigger] numbered_child(*a, img, k)) matches Some(c) && layer_ok(*a, rid, c as int)
                    && layer_of(layers@[k], *a, rid, c as int, *cache)),
                start == old(cache).keys(),
                after_backs.keys().is_prefix_of(cache.keys()),
                start.is_prefix_of(cache.keys()),
            decreases 7 - li,
        {
            let key = decimal_string(li as i32);
            let node = match map_img.try_get(a, key.as_str()) {
                Some(c) => c,
                None => {
                    assert(numbered_child(*a, img, li as int) is None);
                    return Err(ResolutionError::NotFound);
                },
            };
            let ghost before = *cache;
            match MapLayer::from(a, cache, root, node) {
                Ok(l) => {
                    proof {
                        assert forall|k: int| 0 <= k < li implies (#[trigger] numbered_child(*a, img, k)) matches Some(c)
                            && layer_of(layers@[k], *a, rid, c as int, *cache) by {
                            let c = numbered_child(*a, img, k)->Some_0;
                            lemma_layer_grow(layers@[k], *a, rid, c as int, before, *cache);
                        }
                    }
                    layers.push(l);
                    proof {
                        assert(numbered_child(*a, img, li as int) == Some(node.id));
                    }
                },
                Err(e) => {
                    assert(numbered_child(*a, img, li as int) == Some(node.id));
                    return Err(e);
                },
            }
            li = li + 1;
        }
        let ghost after_layers = *cache;
        let fh_node = match map_img.try_get(a, "foothold") {
            Some(f) => f,
            None => return Err(ResolutionError::NotFound),
        };
        let footholds = match footholds_from(a, fh_node) {
            Ok(v) => v,
            Err(e) => return Err(e),
        };
        let helper_node = match root.at_path(a, "Map/MapHelper.img") {
            Ok(h) => h,
            Err(e) => return Err(e),
        };
        let helper = match MapHelper::from(a, cache, helper_node) {
            Ok(h) => h,
            Err(e) => return Err(e),
        };
        let ghost after_helper = *cache;
        let life_node = match map_img.try_get(a, "life") {
            Some(l) => l,
            None => return Err(ResolutionError::NotFound),
        };
        let life = match lives_from(a, life_node) {
            Ok(v) => v,
            Err(e) => return Err(e),
        };
        proof {
            lemma_npcs_bridge(life@, *a, rid, life_node.id as int);
        }
        let npc = match npcs_from(a, cache, root, &life) {
            Ok(v) => v,
            Err(e) => return Err(e),
        };
        let portal_node = match map_img.try_get(a, "portal") {
            Some(p) => p,
            None => return Err(ResolutionError::NotFound),
        };
        let portals = match portals_from(a, portal_node) {
            Ok(v) => v,
            Err(e) => {
                assert(a.child(img, "portal"@) == Some(portal_node.id));
                assert(a.at_path_spec(rid, map_path(name@)) == Ok::<Node, ResolutionError>(map_img));
                assert(img == map_img.id as int);
                assert(!(forall|j: int|
                    0 <= j < numbered(*a, portal_node.id as int).len() ==> portal_ok(
                        *a,
                        #[trigger] numbered(*a, portal_node.id as int)[j] as int,
                    )));
                assert(!map_ok(*a, rid, name@)) by {
                if map_ok(*a, rid, name@) {
                    assert(a.child(img, "portal"@) matches Some(p) && (forall|j: int|
                        0 <= j < numbered(*a, p as int).len() ==> portal_ok(*a, #[trigger] numbered(*a, p as int)[j] as int)));
                    assert(false);
                }
                }
                return Err(e);
            },
        };
        let info_node = match map_img.try_get(a, "info") {
            Some(i) => i,
            None => return Err(ResolutionError::NotFound),
        };
        let info = match MapInfo::from(a, info_node) {
            Ok(i) => i,
            Err(e) => return Err(e),
        };
        let portal_timer = Timer::new(portal_timer_intervals(helper.pv.len()));
        proof {
            assert forall|k: int| 0 <= k < backgrounds@.len() implies numbered_child(*a, back.id as int, k) matches Some(c)
                && background_of(#[trigger] backgrounds@[k], *a, rid, c as int, *cache) by {
                let c = numbered_child(*a, back.id as int, k)->Some_0;
                lemma_background_grow(backgrounds@[k], *a, rid, c as int, after_backs, *cache);
            }
            assert forall|k: int| 0 <= k < 7 implies numbered_child(*a, img, k) matches Some(c)
                && layer_of(#[trigger] layers@[k], *a, rid, c as int, *cache) by {
                let c = numbered_child(*a, img, k)->Some_0;
                lemma_layer_grow(layers@[k], *a, rid, c as int, after_layers, *cache);
            }
            let pv = a.at_path_spec(helper_node.id as int, "portal/game/pv"@)->Ok_0;
            assert forall|k: int| 0 <= k < helper.pv@.len() implies sprite_of(
                #[trigger] helper.pv@[k],
                *a,
                numbered(*a, pv.id as int)[k] as int,
                *cache,
            ) by {
                crate::sprite::lemma_sprite_of_grow(helper.pv@[k], *a, numbered(*a, pv.id as int)[k] as int, after_helper, *cache);
            }
            assert(map_ok(*a, rid, name@));
        }
        Ok(GameMap { npc, life, backgrounds, layers, footholds, portals, helper, portal_timer, info })
    }
}

} // verus!
