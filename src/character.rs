use vstd::prelude::*;
use crate::archive::{Archive, Node, NodeValue, ResolutionError};
use crate::cache::{ImageCache, ImageHandle};
use crate::order::{items_of, lemma_sort_map, map_items, sort_by_key, stable_sort};
use crate::sprite::{interval_of, Sprite, SpriteView};
use crate::table::{find_key, key_index, lookup};
use crate::timer::{fresh, tick_spec, Timer};
use crate::value::{bool_field, image_of, int_of, text_field, vector_field, vector_of, Vec2};

verus! {

/// One image of an equipment frame, with its anchors.
pub struct AvatarFramePart {
    pub origin: Vec2,
    pub map: Vec<(String, Vec2)>,
    pub image: ImageHandle,
    pub size: Vec2,
    pub z: String,
}

/// Layer name to draw rank.
pub struct ZMap {
    pub layers: Vec<(String, i32)>,
}

/// The named images of one frame, and its delay if it has one.
pub struct AvatarFrame {
    pub parts: Vec<(String, AvatarFramePart)>,
    pub delay: Option<i32>,
}

/// An equipment item: its slot and, per action or pose, its frames.
pub struct AvatarPart {
    pub info: AvatarPartInfo,
    pub variant: Vec<(String, Vec<AvatarFrame>)>,
}

pub struct AvatarPartInfo {
    pub slot: String,
    pub cash: bool,
}

pub open spec fn map_node(a: Archive, n: int) -> int {
    a.child(n, "map"@)->Some_0 as int
}

/// What a frame-part node needs: an origin, a layer name, anchors that are
/// all vectors, and an image.
pub open spec fn frame_part_ok(a: Archive, n: int) -> bool {
    &&& vector_field(a, n, "origin"@) is Ok
    &&& text_field(a, n, "z"@) is Ok
    &&& a.child(n, "map"@) is Some
    &&& forall|i: int|
        0 <= i < a.visible(map_node(a, n)).len() ==> (#[trigger] vector_of(a, a.visible(map_node(a, n))[i] as int)) is Ok
    &&& image_of(a, n) is Ok
}

pub open spec fn frame_part_of(p: AvatarFramePart, a: Archive, n: int, cache: ImageCache) -> bool {
    let m = map_node(a, n);
    &&& vector_field(a, n, "origin"@) == Ok::<_, ResolutionError>(p.origin)
    &&& p.origin.fits_i32()
    &&& text_field(a, n, "z"@) == Ok::<_, ResolutionError>(p.z@)
    &&& p.map@.len() == a.visible(m).len()
    &&& forall|i: int|
        0 <= i < p.map@.len() ==> (#[trigger] p.map@[i]).0@ == a.name_of(a.visible(m)[i] as int)
            && vector_of(a, a.visible(m)[i] as int) == Ok::<_, ResolutionError>(p.map@[i].1)
            && p.map@[i].1.fits_i32()
    &&& image_of(a, n) == Ok::<_, ResolutionError>((p.size.x as u32, p.size.y as u32))
    &&& 0 <= p.size.x <= u32::MAX && 0 <= p.size.y <= u32::MAX
    &&& cache.lookup(a.full_path(n)) == Some(p.image.id)
}

pub open spec fn is_image_node(a: Archive) -> spec_fn(usize) -> bool {
    |c: usize| a.value_of(c as int) is Image
}

/// The children of a frame that are images.
pub open spec fn image_kids(a: Archive, n: int) -> Seq<usize> {
    a.visible(n).filter(is_image_node(a))
}

pub open spec fn frame_ok(a: Archive, n: int) -> bool {
    &&& forall|i: int| 0 <= i < image_kids(a, n).len() ==> frame_part_ok(a, #[trigger] image_kids(a, n)[i] as int)
    &&& a.child(n, "delay"@) matches Some(c) ==> int_of(a, c as int) is Ok
}

pub open spec fn frame_of(f: AvatarFrame, a: Archive, n: int, cache: ImageCache) -> bool {
    &&& f.parts@.len() == image_kids(a, n).len()
    &&& forall|i: int|
        0 <= i < f.parts@.len() ==> (#[trigger] f.parts@[i]).0@ == a.name_of(image_kids(a, n)[i] as int)
            && frame_part_of(f.parts@[i].1, a, image_kids(a, n)[i] as int, cache)
    &&& f.delay == match a.child(n, "delay"@) {
        Some(c) => Some(int_of(a, c as int)->Ok_0),
        None => None,
    }
}

pub open spec fn info_ok(a: Archive, n: int) -> bool {
    text_field(a, n, "islot"@) is Ok && bool_field(a, n, "cash"@) is Ok
}

pub open spec fn info_of(p: AvatarPartInfo, a: Archive, n: int) -> bool {
    text_field(a, n, "islot"@) == Ok::<_, ResolutionError>(p.slot@) && bool_field(a, n, "cash"@) == Ok::<
        _,
        ResolutionError,
    >(p.cash)
}

pub open spec fn not_info(a: Archive) -> spec_fn(usize) -> bool {
    |c: usize| a.name_of(c as int) != "info"@
}

pub open spec fn no_action(a: Archive) -> spec_fn(usize) -> bool {
    |c: usize| a.child(c as int, "action"@) is None
}

/// The variants of an item: its children but `info`.
pub open spec fn variant_nodes(a: Archive, n: int) -> Seq<usize> {
    a.visible(n).filter(not_info(a))
}

/// The frames of a variant: with a child `0` it is a sequence, whose
/// children that mark an `action` are left out; otherwise a single pose.
pub open spec fn frame_nodes(a: Archive, v: int) -> Seq<usize> {
    if a.child(v, "0"@) is Some {
        a.visible(v).filter(no_action(a))
    } else {
        seq![v as usize]
    }
}

pub open spec fn part_ok(a: Archive, n: int) -> bool {
    &&& a.child(n, "info"@) is Some
    &&& info_ok(a, a.child(n, "info"@)->Some_0 as int)
    &&& forall|i: int, j: int|
        0 <= i < variant_nodes(a, n).len() && 0 <= j < frame_nodes(a, variant_nodes(a, n)[i] as int).len()
            ==> frame_ok(a, #[trigger] frame_nodes(a, variant_nodes(a, n)[i] as int)[j] as int)
}

pub open spec fn part_of(p: AvatarPart, a: Archive, n: int, cache: ImageCache) -> bool {
    &&& info_of(p.info, a, a.child(n, "info"@)->Some_0 as int)
    &&& p.variant@.len() == variant_nodes(a, n).len()
    &&& forall|i: int|
        0 <= i < p.variant@.len() ==> {
            let v = variant_nodes(a, n)[i] as int;
            &&& (#[trigger] p.variant@[i]).0@ == a.name_of(v)
            &&& p.variant@[i].1@.len() == frame_nodes(a, v).len()
            &&& forall|j: int|
                0 <= j < p.variant@[i].1@.len() ==> frame_of(#[trigger] p.variant@[i].1@[j], a, frame_nodes(a, v)[j] as int, cache)
        }
}

pub proof fn lemma_frame_part_grow(p: AvatarFramePart, a: Archive, n: int, c1: ImageCache, c2: ImageCache)
    requires
        frame_part_of(p, a, n, c1),
        c1.keys().is_prefix_of(c2.keys()),
    ensures
        frame_part_of(p, a, n, c2),
{
    crate::cache::lemma_cache_identity(c1, c2, a.full_path(n));
}

pub proof fn lemma_frame_grow(f: AvatarFrame, a: Archive, n: int, c1: ImageCache, c2: ImageCache)
    requires
        frame_of(f, a, n, c1),
        c1.keys().is_prefix_of(c2.keys()),
    ensures
        frame_of(f, a, n, c2),
{
    assert forall|i: int| 0 <= i < f.parts@.len() implies frame_part_of(
        (#[trigger] f.parts@[i]).1,
        a,
        image_kids(a, n)[i] as int,
        c2,
    ) by {
        lemma_frame_part_grow(f.parts@[i].1, a, image_kids(a, n)[i] as int, c1, c2);
    }
}

pub proof fn lemma_frames_grow(fs: Seq<AvatarFrame>, a: Archive, ns: Seq<usize>, c1: ImageCache, c2: ImageCache)
    requires
        fs.len() <= ns.len(),
        forall|j: int| 0 <= j < fs.len() ==> frame_of(#[trigger] fs[j], a, ns[j] as int, c1),
        c1.keys().is_prefix_of(c2.keys()),
    ensures
        forall|j: int| 0 <= j < fs.len() ==> frame_of(#[trigger] fs[j], a, ns[j] as int, c2),
{
    assert forall|j: int| 0 <= j < fs.len() implies frame_of(#[trigger] fs[j], a, ns[j] as int, c2) by {
        lemma_frame_grow(fs[j], a, ns[j] as int, c1, c2);
    }
}

impl AvatarPartInfo {
    /// Reads `islot` (text) and `cash` (a flag).
    pub fn from(a: &Archive, n: Node) -> (r: Result<AvatarPartInfo, ResolutionError>)
        requires
            a.wf(),
            a.valid(n),
        ensures
            r is Ok <==> info_ok(*a, n.id as int),
            r matches Ok(p) ==> info_of(p, *a, n.id as int),
    {
        let slot = match n.text_field(a, "islot") {
            Ok(s) => s,
            Err(e) => return Err(e),
        };
        let cash = match n.bool_field(a, "cash") {
            Ok(b) => b,
            Err(e) => return Err(e),
        };
        Ok(AvatarPartInfo { slot, cash })
    }
}

impl ZMap {
    /// Layer ranks from a layer-order node: its last child gets rank 0, its
    /// first the highest rank.
    pub fn from(a: &Archive, n: Node) -> (r: ZMap)
        requires
            a.wf(),
            a.valid(n),
            a.visible(n.id as int).len() <= i32::MAX,
        ensures
            r.layers@.len() == a.visible(n.id as int).len(),
            forall|i: int|
                0 <= i < r.layers@.len() ==> (#[trigger] r.layers@[i]).0@ == a.name_of(
                    a.visible(n.id as int)[r.layers@.len() - 1 - i] as int,
                ) && r.layers@[i].1 == i,
    {
        let kids = n.children(a);
        let len = kids.len();
        let mut layers: Vec<(String, i32)> = Vec::new();
        let mut i: usize = 0;
        while i < len
            invariant
                len == kids@.len(),
                len == a.visible(n.id as int).len(),
                len <= i32::MAX,
                forall|j: int|
                    0 <= j < kids@.len() ==> (#[trigger] kids@[j]).1.id == a.visible(n.id as int)[j]
                        && kids@[j].0.name@ == a.name_of(kids@[j].1.id as int),
                i <= len,
                layers@.len() == i,
                forall|j: int|
                    0 <= j < i ==> (#[trigger] layers@[j]).0@ == a.name_of(
                        a.visible(n.id as int)[len - 1 - j] as int,
                    ) && layers@[j].1 == j,
            decreases len - i,
        {
            let name = kids[len - 1 - i].0.to_string();
            layers.push((name, i as i32));
            i = i + 1;
        }
        ZMap { layers }
    }
}

impl AvatarFramePart {
    /// Reads `origin`, `z` and the anchors under `map`; the node itself is
    /// the image.
    pub fn from(a: &Archive, cache: &mut ImageCache, n: Node) -> (r: Result<AvatarFramePart, ResolutionError>)
        requires
            a.wf(),
            a.valid(n),
        ensures
            old(cache).keys().is_prefix_of(final(cache).keys()),
            r is Ok <==> frame_part_ok(*a, n.id as int),
            r matches Ok(p) ==> frame_part_of(p, *a, n.id as int, *final(cache)),
    {
        let origin = match n.vector_field(a, "origin") {
            Ok(v) => v,
            Err(e) => return Err(e),
        };
        let z = match n.text_field(a, "z") {
            Ok(s) => s,
            Err(e) => return Err(e),
        };
        let m = match n.try_get(a, "map") {
            Some(m) => m,
            None => return Err(ResolutionError::NotFound),
        };
        let kids = m.children(a);
        let mut map: Vec<(String, Vec2)> = Vec::new();
        let mut i: usize = 0;
        while i < kids.len()
            invariant
                a.wf(),
                m.id == map_node(*a, n.id as int),
                kids@.len() == a.visible(m.id as int).len(),
                forall|j: int|
                    0 <= j < kids@.len() ==> (#[trigger] kids@[j]).1.id == a.visible(m.id as int)[j]
                        && kids@[j].0.name@ == a.name_of(kids@[j].1.id as int) && a.valid(kids@[j].1),
                i <= kids@.len(),
                map@.len() == i,
                forall|j: int|
                    0 <= j < i ==> (#[trigger] map@[j]).0@ == a.name_of(a.visible(m.id as int)[j] as int)
                        && vector_of(*a, a.visible(m.id as int)[j] as int) == Ok::<_, ResolutionError>(map@[j].1)
                        && map@[j].1.fits_i32(),
                forall|j: int| 0 <= j < i ==> (#[trigger] vector_of(*a, a.visible(m.id as int)[j] as int)) is Ok,
            decreases kids@.len() - i,
        {
            let v = match kids[i].1.as_vector(a) {
                Ok(v) => v,
                Err(e) => {
                    assert(vector_of(*a, a.visible(m.id as int)[i as int] as int) is Err);
                    return Err(e);
                },
            };
            map.push((kids[i].0.to_string(), v));
            i = i + 1;
        }
        let (w, h) = match n.as_image(a) {
            Ok(d) => d,
            Err(e) => return Err(e),
        };
        let path = n.path(a);
        let (image, _) = cache.image_for(path);
        Ok(AvatarFramePart { origin, map, image, size: Vec2 { x: w as i64, y: h as i64 }, z })
    }
}

fn is_image_value(v: &NodeValue) -> (r: bool)
    ensures
        r == (*v is Image),
{
    match v {
        NodeValue::Image { .. } => true,
        _ => false,
    }
}

impl AvatarFrame {
    /// Reads the image children of a frame node by name, and its optional
    /// `delay`.
    pub fn from(a: &Archive, cache: &mut ImageCache, n: Node) -> (r: Result<AvatarFrame, ResolutionError>)
        requires
            a.wf(),
            a.valid(n),
        ensures
            old(cache).keys().is_prefix_of(final(cache).keys()),
            r is Ok <==> frame_ok(*a, n.id as int),
            r matches Ok(f) ==> frame_of(f, *a, n.id as int, *final(cache)),
    {
        let kids = n.children(a);
        let ghost vis = a.visible(n.id as int);
        let ghost start = cache.keys();
        let mut parts: Vec<(String, AvatarFramePart)> = Vec::new();
        let mut k: usize = 0;
        while k < kids.len()
            invariant
                a.wf(),
                vis == a.visible(n.id as int),
                kids@.len() == vis.len(),
                forall|i: int|
                    0 <= i < kids@.len() ==> (#[trigger] kids@[i]).1.id == vis[i] && kids@[i].0.name@
                        == a.name_of(kids@[i].1.id as int) && a.valid(kids@[i].1),
                k <= kids@.len(),
                parts@.len() == vis.take(k as int).filter(is_image_node(*a)).len(),
                forall|i: int|
                    0 <= i < parts@.len() ==> (#[trigger] parts@[i]).0@ == a.name_of(
                        vis.take(k as int).filter(is_image_node(*a))[i] as int,
                    ) && frame_part_of(parts@[i].1, *a, vis.take(k as int).filter(is_image_node(*a))[i] as int, *cache),
                forall|i: int|
                    0 <= i < vis.take(k as int).filter(is_image_node(*a)).len() ==> frame_part_ok(
                        *a,
                        #[trigger] vis.take(k as int).filter(is_image_node(*a))[i] as int,
                    ),
                start == old(cache).keys(),
                start.is_prefix_of(cache.keys()),
            decreases kids@.len() - k,
        {
            let ghost pre = vis.take(k as int);
            proof {
                assert(vis.take(k + 1) == pre.push(vis[k as int]));
                pre.lemma_filter_push(vis[k as int], is_image_node(*a));
            }
            let c = kids[k].1;
            if is_image_value(&a.entries[c.id].value) {
                let ghost before = *cache;
                let part = match AvatarFramePart::from(a, cache, c) {
                    Ok(p) => p,
                    Err(e) => {
                        proof {
                            let q = vis.take(k + 1).filter(is_image_node(*a));
                            assert(q == pre.filter(is_image_node(*a)).push(c.id));
                            lemma_filter_split(vis, is_image_node(*a), k + 1);
                            assert(image_kids(*a, n.id as int)[q.len() - 1] == c.id);
                        }
                        return Err(e);
                    },
                };
                proof {
                    assert forall|i: int| 0 <= i < parts@.len() implies frame_part_of(
                        (#[trigger] parts@[i]).1,
                        *a,
                        pre.filter(is_image_node(*a))[i] as int,
                        *cache,
                    ) by {
                        lemma_frame_part_grow(parts@[i].1, *a, pre.filter(is_image_node(*a))[i] as int, before, *cache);
                    }
                }
                parts.push((kids[k].0.to_string(), part));
            }
            k = k + 1;
        }
        proof {
            assert(vis.take(k as int) == vis);
        }
        let delay = match n.try_get(a, "delay") {
            Some(d) => match d.as_int(a) {
                Ok(v) => Some(v),
                Err(e) => return Err(e),
            },
            None => None,
        };
        Ok(AvatarFrame { parts, delay })
    }
}

/// Reads the frames of one variant of an item.
fn frames_of(a: &Archive, cache: &mut ImageCache, v: Node) -> (r: Result<Vec<AvatarFrame>, ResolutionError>)
    requires
        a.wf(),
        a.valid(v),
    ensures
        old(cache).keys().is_prefix_of(final(cache).keys()),
        r is Ok <==> forall|j: int| 0 <= j < frame_nodes(*a, v.id as int).len() ==> frame_ok(*a, #[trigger] frame_nodes(*a, v.id as int)[j] as int),
        r matches Ok(fs) ==> fs@.len() == frame_nodes(*a, v.id as int).len() && forall|j: int|
            0 <= j < fs@.len() ==> frame_of(#[trigger] fs@[j], *a, frame_nodes(*a, v.id as int)[j] as int, *final(cache)),
{
    if !v.has(a, "0") {
        let f = match AvatarFrame::from(a, cache, v) {
            Ok(f) => f,
            Err(e) => {
                assert(frame_nodes(*a, v.id as int)[0] == v.id);
                return Err(e);
            },
        };
        let mut out: Vec<AvatarFrame> = Vec::new();
        out.push(f);
        return Ok(out);
    }
    let kids = v.children(a);
    let ghost vis = a.visible(v.id as int);
    let ghost pred = no_action(*a);
    let ghost start = cache.keys();
    let mut out: Vec<AvatarFrame> = Vec::new();
    let mut k: usize = 0;
    while k < kids.len()
        invariant
            a.wf(),
            vis == a.visible(v.id as int),
            pred == no_action(*a),
            frame_nodes(*a, v.id as int) == vis.filter(pred),
            kids@.len() == vis.len(),
            forall|i: int|
                0 <= i < kids@.len() ==> (#[trigger] kids@[i]).1.id == vis[i] && a.valid(kids@[i].1),
            k <= kids@.len(),
            out@.len() == vis.take(k as int).filter(pred).len(),
            forall|i: int|
                0 <= i < out@.len() ==> frame_of(#[trigger] out@[i], *a, vis.take(k as int).filter(pred)[i] as int, *cache),
            forall|i: int|
                0 <= i < vis.take(k as int).filter(pred).len() ==> frame_ok(*a, #[trigger] vis.take(k as int).filter(pred)[i] as int),
            start == old(cache).keys(),
            start.is_prefix_of(cache.keys()),
        decreases kids@.len() - k,
    {
        let ghost pre = vis.take(k as int);
        proof {
            assert(vis.take(k + 1) == pre.push(vis[k as int]));
            pre.lemma_filter_push(vis[k as int], pred);
        }
        let c = kids[k].1;
        if !c.has(a, "action") {
            let ghost before = *cache;
            let f = match AvatarFrame::from(a, cache, c) {
                Ok(f) => f,
                Err(e) => {
                    proof {
                        let q = vis.take(k + 1).filter(pred);
                        assert(q == pre.filter(pred).push(c.id));
                        lemma_filter_split(vis, pred, k + 1);
                        assert(frame_nodes(*a, v.id as int)[q.len() - 1] == c.id);
                    }
                    return Err(e);
                },
            };
            proof {
                lemma_frames_grow(out@, *a, pre.filter(pred), before, *cache);
            }
            out.push(f);
        }
        k = k + 1;
    }
    proof {
        assert(vis.take(k as int) == vis);
    }
    Ok(out)
}

impl AvatarPart {
    /// Reads an item: its `info`, and each other child as a variant.
    pub fn from(a: &Archive, cache: &mut ImageCache, n: Node) -> (r: Result<AvatarPart, ResolutionError>)
        requires
            a.wf(),
            a.valid(n),
        ensures
            old(cache).keys().is_prefix_of(final(cache).keys()),
            r is Ok <==> part_ok(*a, n.id as int),
            r matches Ok(p) ==> part_of(p, *a, n.id as int, *final(cache)),
    {
        let info_node = match n.try_get(a, "info") {
            Some(i) => i,
            None => return Err(ResolutionError::NotFound),
        };
        let info = match AvatarPartInfo::from(a, info_node) {
            Ok(i) => i,
            Err(e) => return Err(e),
        };
        let info_key = String::from_str("info");
        let kids = n.children(a);
        let ghost vis = a.visible(n.id as int);
        let ghost pred = not_info(*a);
        let ghost start = cache.keys();
        let mut variant: Vec<(String, Vec<AvatarFrame>)> = Vec::new();
        let mut k: usize = 0;
        while k < kids.len()
            invariant
                a.wf(),
                info_key@ == "info"@,
                vis == a.visible(n.id as int),
                pred == not_info(*a),
                variant_nodes(*a, n.id as int) == vis.filter(pred),
                kids@.len() == vis.len(),
                forall|i: int|
                    0 <= i < kids@.len() ==> (#[trigger] kids@[i]).1.id == vis[i] && kids@[i].0.name@
                        == a.name_of(kids@[i].1.id as int) && a.valid(kids@[i].1),
                k <= kids@.len(),
                variant@.len() == vis.take(k as int).filter(pred).len(),
                forall|i: int|
                    0 <= i < variant@.len() ==> {
                        let w = vis.take(k as int).filter(pred)[i] as int;
                        &&& (#[trigger] variant@[i]).0@ == a.name_of(w)
                        &&& variant@[i].1@.len() == frame_nodes(*a, w).len()
                        &&& forall|j: int|
                            0 <= j < variant@[i].1@.len() ==> frame_of(#[trigger] variant@[i].1@[j], *a, frame_nodes(*a, w)[j] as int, *cache)
                    },
                forall|i: int, j: int|
                    0 <= i < vis.take(k as int).filter(pred).len() && 0 <= j < frame_nodes(*a, vis.take(k as int).filter(pred)[i] as int).len()
                        ==> frame_ok(*a, #[trigger] frame_nodes(*a, vis.take(k as int).filter(pred)[i] as int)[j] as int),
                start == old(cache).keys(),
                start.is_prefix_of(cache.keys()),
            decreases kids@.len() - k,
        {
            let ghost pre = vis.take(k as int);
            proof {
                assert(vis.take(k + 1) == pre.push(vis[k as int]));
                pre.lemma_filter_push(vis[k as int], pred);
            }
            if kids[k].0.name != info_key {
                let c = kids[k].1;
                let ghost before = *cache;
                let frames = match frames_of(a, cache, c) {
                    Ok(fs) => fs,
                    Err(e) => {
                        proof {
                            let q = vis.take(k + 1).filter(pred);
                            assert(q == pre.filter(pred).push(c.id));
                            lemma_filter_split(vis, pred, k + 1);
                            assert(variant_nodes(*a, n.id as int)[q.len() - 1] == c.id);
                        }
                        return Err(e);
                    },
                };
                proof {
                    assert forall|i: int| 0 <= i < variant@.len() implies {
                        let w = pre.filter(pred)[i] as int;
                        forall|j: int|
                            0 <= j < (#[trigger] variant@[i]).1@.len() ==> frame_of(#[trigger] variant@[i].1@[j], *a, frame_nodes(*a, w)[j] as int, *cache)
                    } by {
                        let w = pre.filter(pred)[i] as int;
                        lemma_frames_grow(variant@[i].1@, *a, frame_nodes(*a, w), before, *cache);
                    }
                }
                variant.push((kids[k].0.to_string(), frames));
            }
            k = k + 1;
        }
        proof {
            assert(vis.take(k as int) == vis);
        }
        Ok(AvatarPart { info, variant })
    }
}

/// A composed avatar: equipment by slot, the current action and emotion,
/// and the timer over the frames of the body's current action.
pub struct Character {
    pub slots: Vec<(String, AvatarPart)>,
    pub action: String,
    pub emotion: String,
    pub timer: Timer,
    pub z_map: ZMap,
}

pub open spec fn fits_map(m: Seq<(String, Vec2)>) -> bool {
    forall|i: int| 0 <= i < m.len() ==> (#[trigger] m[i]).1.fits_i32()
}

pub open spec fn frame_fits(f: AvatarFrame) -> bool {
    forall|i: int|
        0 <= i < f.parts@.len() ==> (#[trigger] f.parts@[i]).1.origin.fits_i32() && fits_map(f.parts@[i].1.map@)
}

pub open spec fn part_fits(p: AvatarPart) -> bool {
    forall|i: int, j: int|
        0 <= i < p.variant@.len() && 0 <= j < p.variant@[i].1@.len() ==> frame_fits(#[trigger] p.variant@[i].1@[j])
}

/// Frame `idx` of the variant named `key`.
pub open spec fn pick_frame(p: AvatarPart, key: Seq<char>, idx: int) -> Option<AvatarFrame> {
    match lookup(p.variant@, key) {
        Some(fs) => if 0 <= idx < fs@.len() {
            Some(fs@[idx])
        } else {
            None
        },
        None => None,
    }
}

/// Intervals of the frames of the body's action: every frame needs a delay.
pub open spec fn action_intervals(slots: Seq<(String, AvatarPart)>, action: Seq<char>) -> Option<Seq<u32>> {
    match lookup(slots, "Bd"@) {
        Some(p) => match lookup(p.variant@, action) {
            Some(fs) => if forall|j: int| 0 <= j < fs@.len() ==> (#[trigger] fs@[j]).delay is Some {
                Some(fs@.map_values(|f: AvatarFrame| interval_of(f.delay->Some_0)))
            } else {
                None
            },
            None => None,
        },
        None => None,
    }
}

pub open spec fn diff(item: Seq<(String, Vec2)>, base: Seq<(String, Vec2)>, name: Seq<char>) -> Option<Vec2> {
    match (lookup(item, name), lookup(base, name)) {
        (Some(u), Some(v)) => Some(Vec2 { x: (u.x - v.x) as i64, y: (u.y - v.y) as i64 }),
        _ => None,
    }
}

/// Where a part sits relative to the body, by slot: the body itself at zero,
/// the head by the neck, face and hair by the brow on the head, anything else
/// by the navel.
pub open spec fn offset_of(
    slot: Seq<char>,
    part: Seq<char>,
    item: Seq<(String, Vec2)>,
    body: Seq<(String, Vec2)>,
    head: Seq<(String, Vec2)>,
) -> Option<Vec2> {
    if slot == "Bd"@ && part == "body"@ {
        Some(Vec2 { x: 0, y: 0 })
    } else if slot == "Hd"@ {
        diff(item, body, "neck"@)
    } else if slot == "Fc"@ || slot == "Hr"@ {
        match (diff(item, head, "brow"@), diff(head, body, "neck"@)) {
            (Some(u), Some(v)) => Some(Vec2 { x: (u.x + v.x) as i64, y: (u.y + v.y) as i64 }),
            _ => None,
        }
    } else {
        diff(item, body, "navel"@)
    }
}

impl Character {
    pub open spec fn wf(&self) -> bool {
        &&& self.timer.wf()
        &&& forall|i: int| 0 <= i < self.slots@.len() ==> part_fits(#[trigger] self.slots@[i].1)
    }

    /// The frame a slot shows: the face follows the emotion, every other
    /// slot the action at the timer's index.
    pub open spec fn slot_frame(&self, slot: Seq<char>, p: AvatarPart) -> Option<AvatarFrame> {
        if slot == "Fc"@ {
            pick_frame(p, self.emotion@, 0)
        } else {
            pick_frame(p, self.action@, self.timer.index as int)
        }
    }

    /// The anchors of part `part` of the current frame of `slot`.
    pub open spec fn anchors(&self, slot: Seq<char>, part: Seq<char>) -> Option<Seq<(String, Vec2)>> {
        match lookup(self.slots@, slot) {
            Some(p) => match pick_frame(p, self.action@, self.timer.index as int) {
                Some(f) => match lookup(f.parts@, part) {
                    Some(fp) => Some(fp.map@),
                    None => None,
                },
                None => None,
            },
            None => None,
        }
    }

    pub open spec fn drawn(
        &self,
        slot: Seq<char>,
        name: Seq<char>,
        fp: AvatarFramePart,
        body: Seq<(String, Vec2)>,
        head: Seq<(String, Vec2)>,
    ) -> Option<(i32, SpriteView)> {
        match (offset_of(slot, name, fp.map@, body, head), lookup(self.z_map.layers@, fp.z@)) {
            (Some(o), Some(z)) => Some(
                (
                    z,
                    SpriteView {
                        path: Seq::empty(),
                        image: fp.image,
                        size: fp.size,
                        origin: Vec2 { x: (fp.origin.x + o.x) as i64, y: (fp.origin.y + o.y) as i64 },
                        a0: 0,
                        a1: 0,
                        alpha: 255,
                        z,
                        delay: 0,
                    },
                ),
            ),
            _ => None,
        }
    }

    pub open spec fn parts_drawn(
        &self,
        slot: Seq<char>,
        parts: Seq<(String, AvatarFramePart)>,
        body: Seq<(String, Vec2)>,
        head: Seq<(String, Vec2)>,
        k: int,
    ) -> Option<Seq<(i32, SpriteView)>>
        decreases k,
    {
        if k <= 0 {
            Some(Seq::empty())
        } else {
            match (
                self.parts_drawn(slot, parts, body, head, k - 1),
                self.drawn(slot, parts[k - 1].0@, parts[k - 1].1, body, head),
            ) {
                (Some(s), Some(d)) => Some(s.push(d)),
                _ => None,
            }
        }
    }

    pub open spec fn slots_drawn(&self, body: Seq<(String, Vec2)>, head: Seq<(String, Vec2)>, k: int) -> Option<
        Seq<(i32, SpriteView)>,
    >
        decreases k,
    {
        if k <= 0 {
            Some(Seq::empty())
        } else {
            let slot = self.slots@[k - 1];
            match (self.slots_drawn(body, head, k - 1), self.slot_frame(slot.0@, slot.1)) {
                (Some(s), Some(f)) => match self.parts_drawn(slot.0@, f.parts@, body, head, f.parts@.len() as int) {
                    Some(t) => Some(s + t),
                    None => None,
                },
                _ => None,
            }
        }
    }

    /// Every part of every slot's current frame, keyed by its layer rank,
    /// in slot and part order; `None` when a frame, anchor or layer is missing.
    pub open spec fn drawing(&self) -> Option<Seq<(i32, SpriteView)>> {
        match (self.anchors("Bd"@, "body"@), self.anchors("Hd"@, "head"@)) {
            (Some(b), Some(h)) => self.slots_drawn(b, h, self.slots@.len() as int),
            _ => None,
        }
    }
}

pub open spec fn sprite_views() -> spec_fn(Sprite) -> SpriteView {
    |s: Sprite| s@
}

pub open spec fn with_slot(s: Seq<(String, AvatarPart)>, p: AvatarPart) -> Seq<(String, AvatarPart)> {
    match key_index(s, p.info.slot@, 0) {
        Some(i) => s.update(i, (s[i].0, p)),
        None => s.push((p.info.slot, p)),
    }
}

/// Slots after inserting items one after the other; a later item replaces
/// an earlier one of the same slot.
pub open spec fn slots_after(ps: Seq<AvatarPart>) -> Seq<(String, AvatarPart)>
    decreases ps.len(),
{
    if ps.len() == 0 {
        Seq::empty()
    } else {
        with_slot(slots_after(ps.drop_last()), ps.last())
    }
}

pub proof fn lemma_part_of_fits(p: AvatarPart, a: Archive, n: int, cache: ImageCache)
    requires
        part_of(p, a, n, cache),
    ensures
        part_fits(p),
{
    assert forall|i: int, j: int|
        0 <= i < p.variant@.len() && 0 <= j < p.variant@[i].1@.len() implies frame_fits(#[trigger] p.variant@[i].1@[j]) by {
        let v = variant_nodes(a, n)[i] as int;
        let f = p.variant@[i].1@[j];
        assert(frame_of(f, a, frame_nodes(a, v)[j] as int, cache));
        assert forall|k: int| 0 <= k < f.parts@.len() implies (#[trigger] f.parts@[k]).1.origin.fits_i32() && fits_map(
            f.parts@[k].1.map@,
        ) by {
            let fp = f.parts@[k].1;
            assert(frame_part_of(fp, a, image_kids(a, frame_nodes(a, v)[j] as int)[k] as int, cache));
        }
    }
}

fn pick<'a>(p: &'a AvatarPart, key: &str, idx: usize) -> (r: Option<&'a AvatarFrame>)
    ensures
        match r {
            Some(f) => pick_frame(*p, key@, idx as int) == Some(*f) && exists|i: int, j: int|
                0 <= i < p.variant@.len() && 0 <= j < p.variant@[i].1@.len() && p.variant@[i].1@[j] == *f,
            None => pick_frame(*p, key@, idx as int) is None,
        },
{
    match find_key(&p.variant, key) {
        Some(i) => {
            if idx < p.variant[i].1.len() {
                assert(p.variant@[i as int].1@[idx as int] == p.variant[i as int].1@[idx as int]);
                Some(&p.variant[i].1[idx])
            } else {
                None
            }
        },
        None => None,
    }
}

fn anchor(m: &Vec<(String, Vec2)>, name: &str) -> (r: Option<Vec2>)
    requires
        fits_map(m@),
    ensures
        r == lookup(m@, name@),
        r matches Some(v) ==> v.fits_i32(),
{
    match find_key(m, name) {
        Some(i) => Some(m[i].1),
        None => None,
    }
}

fn diff_exec(item: &Vec<(String, Vec2)>, base: &Vec<(String, Vec2)>, name: &str) -> (r: Option<Vec2>)
    requires
        fits_map(item@),
        fits_map(base@),
    ensures
        r == diff(item@, base@, name@),
        r matches Some(v) ==> -0x1_0000_0000 <= v.x <= 0x1_0000_0000 && -0x1_0000_0000 <= v.y <= 0x1_0000_0000,
{
    match (anchor(item, name), anchor(base, name)) {
        (Some(u), Some(v)) => Some(Vec2 { x: u.x - v.x, y: u.y - v.y }),
        _ => None,
    }
}

fn same(s: &String, lit: &str) -> (r: bool)
    ensures
        r == (s@ == lit@),
{
    *s == String::from_str(lit)
}

fn offset_exec(
    slot: &String,
    part: &String,
    item: &Vec<(String, Vec2)>,
    body: &Vec<(String, Vec2)>,
    head: &Vec<(String, Vec2)>,
) -> (r: Option<Vec2>)
    requires
        fits_map(item@),
        fits_map(body@),
        fits_map(head@),
    ensures
        r == offset_of(slot@, part@, item@, body@, head@),
        r matches Some(v) ==> -0x2_0000_0000 <= v.x <= 0x2_0000_0000 && -0x2_0000_0000 <= v.y <= 0x2_0000_0000,
{
    if same(slot, "Bd") && same(part, "body") {
        Some(Vec2 { x: 0, y: 0 })
    } else if same(slot, "Hd") {
        diff_exec(item, body, "neck")
    } else if same(slot, "Fc") || same(slot, "Hr") {
        match (diff_exec(item, head, "brow"), diff_exec(head, body, "neck")) {
            (Some(u), Some(v)) => Some(Vec2 { x: u.x + v.x, y: u.y + v.y }),
            _ => None,
        }
    } else {
        diff_exec(item, body, "navel")
    }
}

fn intervals_for(slots: &Vec<(String, AvatarPart)>, action: &str) -> (r: Option<Vec<u32>>)
    ensures
        match r {
            Some(v) => action_intervals(slots@, action@) == Some(v@),
            None => action_intervals(slots@, action@) is None,
        },
{
    let b = match find_key(slots, "Bd") {
        Some(b) => b,
        None => return None,
    };
    let fi = match find_key(&slots[b].1.variant, action) {
        Some(i) => i,
        None => return None,
    };
    let frames = &slots[b].1.variant[fi].1;
    let mut out: Vec<u32> = Vec::new();
    let mut k: usize = 0;
    while k < frames.len()
        invariant
            b < slots@.len(),
            key_index(slots@, "Bd"@, 0) == Some(b as int),
            fi < slots@[b as int].1.variant@.len(),
            key_index(slots@[b as int].1.variant@, action@, 0) == Some(fi as int),
            *frames == slots@[b as int].1.variant@[fi as int].1,
            k <= frames@.len(),
            forall|j: int| 0 <= j < k ==> (#[trigger] frames@[j]).delay is Some,
            out@ == frames@.take(k as int).map_values(|f: AvatarFrame| interval_of(f.delay->Some_0)),
        decreases frames@.len() - k,
    {
        let d = match frames[k].delay {
            Some(d) => d,
            None => {
                assert(lookup(slots@, "Bd"@) == Some(slots@[b as int].1));
                assert(lookup(slots@[b as int].1.variant@, action@) == Some(*frames));
                assert(frames@[k as int].delay is None);
                return None;
            },
        };
        out.push(if d < 0 { 0 } else { d as u32 });
        k = k + 1;
        assert(out@ =~= frames@.take(k as int).map_values(|f: AvatarFrame| interval_of(f.delay->Some_0)));
    }
    assert(frames@.take(k as int) == frames@);
    Some(out)
}

impl Character {
    /// A character wearing `parts` in order, standing (`stand1`) with the
    /// `default` face; the body (`Bd`) must have that action, with delays.
    pub fn new(a: &Archive, cache: &mut ImageCache, parts: Vec<Node>, z_map: ZMap) -> (r: Result<Character, ResolutionError>)
        requires
            a.wf(),
            forall|j: int| 0 <= j < parts@.len() ==> a.valid(#[trigger] parts@[j]),
        ensures
            old(cache).keys().is_prefix_of(final(cache).keys()),
            r is Err && (forall|j: int| 0 <= j < parts@.len() ==> part_ok(*a, #[trigger] parts@[j].id as int))
                ==> r == Err::<Character, ResolutionError>(ResolutionError::NotFound),
            !(forall|j: int| 0 <= j < parts@.len() ==> part_ok(*a, #[trigger] parts@[j].id as int)) ==> r is Err,
            (forall|j: int| 0 <= j < parts@.len() ==> part_ok(*a, #[trigger] parts@[j].id as int)) && (forall|
                ps: Seq<AvatarPart>,
            |
                ps.len() == parts@.len() && (forall|j: int|
                    0 <= j < ps.len() ==> part_of(#[trigger] ps[j], *a, parts@[j].id as int, *final(cache)))
                    ==> action_intervals(#[trigger] slots_after(ps), "stand1"@) is Some) ==> r is Ok,
            r matches Ok(c) ==> {
                &&& c.wf()
                &&& c.action@ == "stand1"@
                &&& c.emotion@ == "default"@
                &&& c.z_map == z_map
                &&& action_intervals(c.slots@, "stand1"@) is Some
                &&& c.timer.state() == fresh(action_intervals(c.slots@, "stand1"@)->Some_0)
                &&& exists|ps: Seq<AvatarPart>|
                    ps.len() == parts@.len() && c.slots@ == slots_after(ps) && forall|j: int|
                        0 <= j < ps.len() ==> part_of(#[trigger] ps[j], *a, parts@[j].id as int, *final(cache))
            },
    {
        let mut item = Character {
            slots: Vec::new(),
            action: String::from_str("stand1"),
            emotion: String::from_str("default"),
            timer: Timer::new(Vec::new()),
            z_map,
        };
        let ghost mut ps: Seq<AvatarPart> = Seq::empty();
        let ghost start = cache.keys();
        let mut k: usize = 0;
        while k < parts.len()
            invariant
                a.wf(),
                forall|j: int| 0 <= j < parts@.len() ==> a.valid(#[trigger] parts@[j]),
                k <= parts@.len(),
                item.wf(),
                item.action@ == "stand1"@,
                item.emotion@ == "default"@,
                item.z_map == z_map,
                ps.len() == k,
                item.slots@ == slots_after(ps),
                forall|j: int| 0 <= j < k ==> part_of(#[trigger] ps[j], *a, parts@[j].id as int, *cache),
                forall|j: int| 0 <= j < k ==> part_ok(*a, #[trigger] parts@[j].id as int),
                start == old(cache).keys(),
                start.is_prefix_of(cache.keys()),
            decreases parts@.len() - k,
        {
            let ghost before = *cache;
            let p = match AvatarPart::from(a, cache, parts[k]) {
                Ok(p) => p,
                Err(e) => return Err(e),
            };
            proof {
                assert forall|j: int| 0 <= j < k implies part_of(#[trigger] ps[j], *a, parts@[j].id as int, *cache) by {
                    lemma_part_grow(ps[j], *a, parts@[j].id as int, before, *cache);
                }
                lemma_part_of_fits(p, *a, parts@[k as int].id as int, *cache);
                assert(ps.push(p).drop_last() == ps);
                ps = ps.push(p);
            }
            item.insert_part(p);
            k = k + 1;
        }
        let intervals = match intervals_for(&item.slots, "stand1") {
            Some(v) => v,
            None => return Err(ResolutionError::NotFound),
        };
        item.timer = Timer::new(intervals);
        assert(ps.len() == parts@.len());
        Ok(item)
    }

    fn insert_part(&mut self, p: AvatarPart)
        requires
            old(self).wf(),
            part_fits(p),
        ensures
            final(self).wf(),
            final(self).slots@ == with_slot(old(self).slots@, p),
            final(self).action == old(self).action,
            final(self).emotion == old(self).emotion,
            final(self).timer == old(self).timer,
            final(self).z_map == old(self).z_map,
    {
        match find_key(&self.slots, p.info.slot.as_str()) {
            Some(i) => {
                let (key, _) = self.slots.remove(i);
                self.slots.insert(i, (key, p));
            },
            None => {
                let key = p.info.slot.clone();
                self.slots.push((key, p));
            },
        }
    }

    /// Reads an item from the archive and wears it, in place of any item of
    /// the same slot.
    pub fn insert(&mut self, a: &Archive, cache: &mut ImageCache, n: Node) -> (r: Result<(), ResolutionError>)
        requires
            old(self).wf(),
            a.wf(),
            a.valid(n),
        ensures
            final(self).wf(),
            old(cache).keys().is_prefix_of(final(cache).keys()),
            r is Ok <==> part_ok(*a, n.id as int),
            r is Err ==> *final(self) == *old(self),
            r is Ok ==> exists|p: AvatarPart|
                part_of(p, *a, n.id as int, *final(cache)) && final(self).slots@ == with_slot(old(self).slots@, p),
            final(self).action == old(self).action,
            final(self).emotion == old(self).emotion,
            final(self).timer == old(self).timer,
    {
        let p = match AvatarPart::from(a, cache, n) {
            Ok(p) => p,
            Err(e) => return Err(e),
        };
        proof {
            lemma_part_of_fits(p, *a, n.id as int, *cache);
        }
        self.insert_part(p);
        Ok(())
    }

    /// Advances the action's timer; returns whether the frame changed.
    pub fn tick(&mut self, delta: u64) -> (r: bool)
        requires
            old(self).wf(),
        ensures
            final(self).wf(),
            (final(self).timer.state(), r) == tick_spec(old(self).timer.state(), delta as nat),
            final(self).slots == old(self).slots,
            final(self).action == old(self).action,
            final(self).emotion == old(self).emotion,
    {
        self.timer.tick(delta)
    }

    /// Switches to another action of the body, restarting the timer over its
    /// frames; nothing changes if it is the current action, or (with an
    /// error) if the body lacks it.
    pub fn set_action(&mut self, action: &str) -> (r: Result<(), ResolutionError>)
        requires
            old(self).wf(),
        ensures
            final(self).wf(),
            final(self).slots == old(self).slots,
            final(self).emotion == old(self).emotion,
            old(self).action@ == action@ ==> r is Ok && *final(self) == *old(self),
            old(self).action@ != action@ && action_intervals(old(self).slots@, action@) is None ==> r
                == Err::<(), ResolutionError>(ResolutionError::NotFound) && *final(self) == *old(self),
            old(self).action@ != action@ && action_intervals(old(self).slots@, action@) is Some ==> r is Ok
                && final(self).action@ == action@ && final(self).z_map == old(self).z_map && final(self).timer.state() == fresh(
                action_intervals(old(self).slots@, action@)->Some_0,
            ),
    {
        if same(&self.action, action) {
            return Ok(());
        }
        let intervals = match intervals_for(&self.slots, action) {
            Some(v) => v,
            None => return Err(ResolutionError::NotFound),
        };
        self.action = String::from_str(action);
        self.timer = Timer::new(intervals);
        Ok(())
    }
}

impl Character {
    fn anchors_exec(&self, slot: &str, part: &str) -> (r: Option<&Vec<(String, Vec2)>>)
        requires
            self.wf(),
        ensures
            match r {
                Some(m) => self.anchors(slot@, part@) == Some(m@) && fits_map(m@),
                None => self.anchors(slot@, part@) is None,
            },
    {
        let i = match find_key(&self.slots, slot) {
            Some(i) => i,
            None => return None,
        };
        let f = match pick(&self.slots[i].1, self.action.as_str(), self.timer.index) {
            Some(f) => f,
            None => return None,
        };
        assert(part_fits(self.slots@[i as int].1));
        assert(frame_fits(*f));
        match find_key(&f.parts, part) {
            Some(j) => Some(&f.parts[j].1.map),
            None => None,
        }
    }

    /// The avatar's current frame: one sprite per part of each slot's frame,
    /// placed by its slot's anchor rule and sorted by layer rank, parts of
    /// equal rank in slot and part order. An error when a frame, anchor or
    /// layer is missing.
    pub fn frame(&self) -> (r: Result<Vec<Sprite>, ResolutionError>)
        requires
            self.wf(),
        ensures
            r is Ok <==> self.drawing() is Some,
            r matches Ok(v) ==> v@.map_values(|s: Sprite| s@) == stable_sort(self.drawing()->Some_0).map_values(
                |x: (i32, SpriteView)| x.1,
            ),
    {
        let body = match self.anchors_exec("Bd", "body") {
            Some(m) => m,
            None => return Err(ResolutionError::NotFound),
        };
        let head = match self.anchors_exec("Hd", "head") {
            Some(m) => m,
            None => return Err(ResolutionError::NotFound),
        };
        let mut pairs: Vec<(i32, Sprite)> = Vec::new();
        let mut k: usize = 0;
        while k < self.slots.len()
            invariant
                self.wf(),
                fits_map(body@),
                fits_map(head@),
                self.drawing() == self.slots_drawn(body@, head@, self.slots@.len() as int),
                k <= self.slots@.len(),
                self.slots_drawn(body@, head@, k as int) == Some(map_items(pairs@, sprite_views())),
            decreases self.slots@.len() - k,
        {
            let slot = &self.slots[k].0;
            let part = &self.slots[k].1;
            let picked = if same(slot, "Fc") {
                pick(part, self.emotion.as_str(), 0)
            } else {
                pick(part, self.action.as_str(), self.timer.index)
            };
            let f = match picked {
                Some(f) => f,
                None => {
                    proof {
                        self.lemma_slots_none(body@, head@, k as int + 1, self.slots@.len() as int);
                    }
                    return Err(ResolutionError::NotFound);
                },
            };
            assert(part_fits(self.slots@[k as int].1));
            assert(frame_fits(*f));
            let ghost base = map_items(pairs@, sprite_views());
            let mut m: usize = 0;
            while m < f.parts.len()
                invariant
                    self.wf(),
                    fits_map(body@),
                    fits_map(head@),
                    frame_fits(*f),
                    self.drawing() == self.slots_drawn(body@, head@, self.slots@.len() as int),
                    self.slot_frame(slot@, *part) == Some(*f),
                    *slot == self.slots@[k as int].0,
                    *part == self.slots@[k as int].1,
                    k < self.slots@.len(),
                    self.slots_drawn(body@, head@, k as int) == Some(base),
                    m <= f.parts@.len(),
                    self.parts_drawn(slot@, f.parts@, body@, head@, m as int) matches Some(t) && map_items(pairs@, sprite_views())
                        == base + t,
                decreases f.parts@.len() - m,
            {
                let name = &f.parts[m].0;
                let fp = &f.parts[m].1;
                let off = match offset_exec(slot, name, &fp.map, body, head) {
                    Some(o) => o,
                    None => {
                        proof {
                            assert(f.parts@[m as int].0 == *name && f.parts@[m as int].1 == *fp);
                            self.lemma_part_fails(body@, head@, k as int, *f, m as int);
                        }
                        return Err(ResolutionError::NotFound);
                    },
                };
                let zi = match find_key(&self.z_map.layers, fp.z.as_str()) {
                    Some(i) => i,
                    None => {
                        proof {
                            assert(f.parts@[m as int].0 == *name && f.parts@[m as int].1 == *fp);
                            self.lemma_part_fails(body@, head@, k as int, *f, m as int);
                        }
                        return Err(ResolutionError::NotFound);
                    },
                };
                let z = self.z_map.layers[zi].1;
                let sprite = Sprite {
                    path: String::new(),
                    image: fp.image,
                    size: fp.size,
                    origin: Vec2 { x: fp.origin.x + off.x, y: fp.origin.y + off.y },
                    a0: 0,
                    a1: 0,
                    alpha: 255,
                    z,
                    delay: 0,
                };
                let ghost before = pairs@;
                proof {
                    assert(f.parts@[m as int].0 == *name && f.parts@[m as int].1 == *fp);
                    assert(lookup(self.z_map.layers@, fp.z@) == Some(z));
                    assert(sprite_views()(sprite).path == Seq::<char>::empty());
                    assert(self.drawn(slot@, f.parts@[m as int].0@, f.parts@[m as int].1, body@, head@) == Some(
                        (z, sprite_views()(sprite)),
                    ));
                }
                pairs.push((z, sprite));
                proof {
                    assert(map_items(pairs@, sprite_views()) =~= map_items(before, sprite_views()).push((z, sprite_views()(sprite))));
                    let t = self.parts_drawn(slot@, f.parts@, body@, head@, m as int)->Some_0;
                    assert(base + t.push((z, sprite_views()(sprite))) =~= (base + t).push((z, sprite_views()(sprite))));
                }
                m = m + 1;
            }
            proof {
                assert(self.slots_drawn(body@, head@, k as int + 1) == Some(map_items(pairs@, sprite_views())));
            }
            k = k + 1;
        }
        let sorted = sort_by_key(pairs);
        let out = items_of(sorted);
        proof {
            let d = self.drawing()->Some_0;
            lemma_sort_map(pairs@, sprite_views());
            assert(out@.map_values(|s: Sprite| s@) =~= stable_sort(d).map_values(|x: (i32, SpriteView)| x.1));
        }
        Ok(out)
    }

    proof fn lemma_part_fails(&self, body: Seq<(String, Vec2)>, head: Seq<(String, Vec2)>, k: int, f: AvatarFrame, m: int)
        requires
            0 <= k < self.slots@.len(),
            self.slots_drawn(body, head, k) is Some,
            self.slot_frame(self.slots@[k].0@, self.slots@[k].1) == Some(f),
            0 <= m < f.parts@.len(),
            self.drawn(self.slots@[k].0@, f.parts@[m].0@, f.parts@[m].1, body, head) is None,
        ensures
            self.slots_drawn(body, head, self.slots@.len() as int) is None,
    {
        let slot = self.slots@[k].0@;
        assert(self.parts_drawn(slot, f.parts@, body, head, m + 1) is None);
        self.lemma_parts_none(slot, f.parts@, body, head, m + 1, f.parts@.len() as int);
        assert(self.slots_drawn(body, head, k + 1) is None);
        self.lemma_slots_none(body, head, k + 1, self.slots@.len() as int);
    }

    proof fn lemma_parts_none(
        &self,
        slot: Seq<char>,
        parts: Seq<(String, AvatarFramePart)>,
        body: Seq<(String, Vec2)>,
        head: Seq<(String, Vec2)>,
        j: int,
        n: int,
    )
        requires
            0 < j <= n,
            self.parts_drawn(slot, parts, body, head, j) is None,
        ensures
            self.parts_drawn(slot, parts, body, head, n) is None,
        decreases n - j,
    {
        if j < n {
            self.lemma_parts_none(slot, parts, body, head, j + 1, n);
        }
    }

    proof fn lemma_slots_none(&self, body: Seq<(String, Vec2)>, head: Seq<(String, Vec2)>, j: int, n: int)
        requires
            0 < j <= n,
            self.slots_drawn(body, head, j) is None,
        ensures
            self.slots_drawn(body, head, n) is None,
        decreases n - j,
    {
        if j < n {
            self.lemma_slots_none(body, head, j + 1, n);
        }
    }
}

pub proof fn lemma_part_grow(p: AvatarPart, a: Archive, n: int, c1: ImageCache, c2: ImageCache)
    requires
        part_of(p, a, n, c1),
        c1.keys().is_prefix_of(c2.keys()),
    ensures
        part_of(p, a, n, c2),
{
    assert forall|i: int| 0 <= i < p.variant@.len() implies {
        let v = variant_nodes(a, n)[i] as int;
        forall|j: int|
            0 <= j < (#[trigger] p.variant@[i]).1@.len() ==> frame_of(#[trigger] p.variant@[i].1@[j], a, frame_nodes(a, v)[j] as int, c2)
    } by {
        let v = variant_nodes(a, n)[i] as int;
        lemma_frames_grow(p.variant@[i].1@, a, frame_nodes(a, v), c1, c2);
    }
}

/// Filtering a sequence filters its front and its back.
pub proof fn lemma_filter_split(vis: Seq<usize>, pred: spec_fn(usize) -> bool, k: int)
    requires
        0 <= k <= vis.len(),
    ensures
        vis.filter(pred) == vis.take(k).filter(pred) + vis.skip(k).filter(pred),
        vis.take(k).filter(pred).len() <= vis.filter(pred).len(),
        forall|i: int| 0 <= i < vis.take(k).filter(pred).len() ==> #[trigger] vis.filter(pred)[i] == vis.take(k).filter(pred)[i],
{
    assert(vis == vis.take(k) + vis.skip(k));
    Seq::filter_distributes_over_add(vis.take(k), vis.skip(k), pred);
}

} // verus!
