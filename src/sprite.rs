use vstd::prelude::*;
use crate::archive::{Archive, Node, ResolutionError};
use crate::cache::{ImageCache, ImageHandle};
use crate::keys::{index_key, try_parse_index_key};
use crate::timer::{fresh, inside, tick_spec, Timer};
use crate::value::{image_of, int_field_or, vector_field, Vec2};

verus! {

/// A positioned image with its anchor, layer and timing.
pub struct Sprite {
    pub path: String,
    pub image: ImageHandle,
    pub size: Vec2,
    pub origin: Vec2,
    pub a0: i32,
    pub a1: i32,
    pub alpha: i32,
    pub z: i32,
    pub delay: i32,
}

/// The fields of a sprite as values.
pub struct SpriteView {
    pub path: Seq<char>,
    pub image: ImageHandle,
    pub size: Vec2,
    pub origin: Vec2,
    pub a0: i32,
    pub a1: i32,
    pub alpha: i32,
    pub z: i32,
    pub delay: i32,
}

impl View for Sprite {
    type V = SpriteView;

    open spec fn view(&self) -> SpriteView {
        SpriteView {
            path: self.path@,
            image: self.image,
            size: self.size,
            origin: self.origin,
            a0: self.a0,
            a1: self.a1,
            alpha: self.alpha,
            z: self.z,
            delay: self.delay,
        }
    }
}

/// Frames played by a timer keyed on their delays.
pub struct SpriteAnimation {
    pub frames: Vec<Sprite>,
    pub timer: Timer,
}

/// The children of a node whose names read as indices, in archive order.
pub open spec fn numbered(a: Archive, n: int) -> Seq<usize> {
    a.visible(n).filter(is_numbered(a))
}

pub open spec fn is_numbered(a: Archive) -> spec_fn(usize) -> bool {
    |c: usize| index_key(a.name_of(c as int)) is Some
}

/// The first field of a sprite node that cannot be read, if any.
pub open spec fn sprite_error(a: Archive, n: int) -> Option<ResolutionError> {
    if vector_field(a, n, "origin"@) is Err {
        Some(vector_field(a, n, "origin"@)->Err_0)
    } else if image_of(a, n) is Err {
        Some(image_of(a, n)->Err_0)
    } else if int_field_or(a, n, "z"@, 0) is Err {
        Some(int_field_or(a, n, "z"@, 0)->Err_0)
    } else if int_field_or(a, n, "delay"@, 100) is Err {
        Some(int_field_or(a, n, "delay"@, 100)->Err_0)
    } else if int_field_or(a, n, "a0"@, 0) is Err {
        Some(int_field_or(a, n, "a0"@, 0)->Err_0)
    } else if int_field_or(a, n, "a1"@, 0) is Err {
        Some(int_field_or(a, n, "a1"@, 0)->Err_0)
    } else {
        None
    }
}

/// `s` is the sprite that node `n` describes, its image as `cache` knows it.
pub open spec fn sprite_of(s: Sprite, a: Archive, n: int, cache: ImageCache) -> bool {
    &&& s.path@ == a.full_path(n)
    &&& cache.lookup(a.full_path(n)) == Some(s.image.id)
    &&& vector_field(a, n, "origin"@) == Ok::<_, ResolutionError>(s.origin)
    &&& s.origin.fits_i32()
    &&& image_of(a, n) == Ok::<_, ResolutionError>((s.size.x as u32, s.size.y as u32))
    &&& 0 <= s.size.x <= u32::MAX && 0 <= s.size.y <= u32::MAX
    &&& int_field_or(a, n, "z"@, 0) == Ok::<_, ResolutionError>(s.z)
    &&& int_field_or(a, n, "delay"@, 100) == Ok::<_, ResolutionError>(s.delay)
    &&& int_field_or(a, n, "a0"@, 0) == Ok::<_, ResolutionError>(s.a0)
    &&& int_field_or(a, n, "a1"@, 0) == Ok::<_, ResolutionError>(s.a1)
    &&& s.alpha == 255
}

/// A frame delay as a timer interval: a negative delay counts as none.
pub open spec fn interval_of(delay: i32) -> u32 {
    if delay < 0 {
        0
    } else {
        delay as u32
    }
}

/// Alpha at `e` of `len` milliseconds between `a0` and `a1`, rounded toward zero.
pub open spec fn blend(a0: i32, a1: i32, e: int, len: int) -> int {
    if len == 0 {
        a0 as int
    } else {
        let num = a0 * (len - e) + a1 * e;
        if num >= 0 {
            num / len
        } else {
            -((-num) / len)
        }
    }
}

impl Sprite {
    /// Reads a sprite node: `origin` is required, the node must be an image,
    /// and `z`, `delay`, `a0`, `a1` default to 0, 100, 0, 0.
    pub fn from(a: &Archive, cache: &mut ImageCache, n: Node) -> (r: Result<Sprite, ResolutionError>)
        requires
            a.wf(),
            a.valid(n),
        ensures
            old(cache).keys().is_prefix_of(final(cache).keys()),
            match r {
                Ok(s) => sprite_error(*a, n.id as int) is None && sprite_of(s, *a, n.id as int, *final(cache)),
                Err(e) => sprite_error(*a, n.id as int) == Some(e) && final(cache).keys() == old(cache).keys(),
            },
    {
        let origin = match n.vector_field(a, "origin") {
            Ok(v) => v,
            Err(e) => return Err(e),
        };
        let (w, h) = match n.as_image(a) {
            Ok(d) => d,
            Err(e) => return Err(e),
        };
        let z = match n.int_field_or(a, "z", 0) {
            Ok(v) => v,
            Err(e) => return Err(e),
        };
        let delay = match n.int_field_or(a, "delay", 100) {
            Ok(v) => v,
            Err(e) => return Err(e),
        };
        let a0 = match n.int_field_or(a, "a0", 0) {
            Ok(v) => v,
            Err(e) => return Err(e),
        };
        let a1 = match n.int_field_or(a, "a1", 0) {
            Ok(v) => v,
            Err(e) => return Err(e),
        };
        let path = n.path(a);
        let (image, _) = cache.image_for(path.clone());
        proof {
            assert(old(cache).keys().is_prefix_of(cache.keys()));
        }
        Ok(Sprite {
            path,
            image,
            size: Vec2 { x: w as i64, y: h as i64 },
            origin,
            a0,
            a1,
            alpha: 255,
            z,
            delay,
        })
    }
}

impl Node {
    /// The children whose names read as indices, in archive order; the others
    /// (such as `info`) are left out.
    pub fn numbered_children(&self, a: &Archive) -> (r: Vec<Node>)
        requires
            a.wf(),
            a.valid(*self),
        ensures
            r@.map_values(|m: Node| m.id) == numbered(*a, self.id as int),
            forall|i: int| 0 <= i < r@.len() ==> a.valid(#[trigger] r@[i]),
    {
        let kids = self.children(a);
        let ghost vis = a.visible(self.id as int);
        let mut out: Vec<Node> = Vec::new();
        let mut k: usize = 0;
        while k < kids.len()
            invariant
                a.wf(),
                kids@.len() == vis.len(),
                forall|i: int|
                    0 <= i < kids@.len() ==> (#[trigger] kids@[i]).1.id == vis[i] && kids@[i].0.name@
                        == a.name_of(kids@[i].1.id as int) && a.valid(kids@[i].1),
                k <= kids@.len(),
                out@.map_values(|m: Node| m.id) == vis.take(k as int).filter(is_numbered(*a)),
                forall|i: int| 0 <= i < out@.len() ==> a.valid(#[trigger] out@[i]),
            decreases kids@.len() - k,
        {
            proof {
                assert(vis.take(k + 1).drop_last() == vis.take(k as int));
                vis.take(k as int).lemma_filter_push(vis[k as int], is_numbered(*a));
                assert(vis.take(k as int).push(vis[k as int]) == vis.take(k + 1));
            }
            let key = try_parse_index_key(kids[k].0.as_str());
            let ghost entry = kids@[k as int];
            assert(entry.1.id == vis[k as int]);
            assert(entry.0.name@ == a.name_of(vis[k as int] as int));
            assert(key == index_key(entry.0.name@));
            assert(is_numbered(*a)(vis[k as int]) == (key is Some));
            let ghost before = out@;
            if key.is_some() {
                out.push(kids[k].1);
                assert(out@.map_values(|m: Node| m.id) =~= before.map_values(|m: Node| m.id).push(
                    vis[k as int],
                ));
            }
            k = k + 1;
        }
        assert(vis.take(k as int) == vis);
        out
    }
}

/// A sprite stays what its node describes as the cache grows.
pub proof fn lemma_sprite_of_grow(s: Sprite, a: Archive, n: int, c1: ImageCache, c2: ImageCache)
    requires
        sprite_of(s, a, n, c1),
        c1.keys().is_prefix_of(c2.keys()),
    ensures
        sprite_of(s, a, n, c2),
{
    crate::cache::lemma_cache_identity(c1, c2, a.full_path(n));
}

/// Reads the numbered children of `n` as sprites, in archive order.
pub fn sprites_from(a: &Archive, cache: &mut ImageCache, n: Node) -> (r: Result<Vec<Sprite>, ResolutionError>)
    requires
        a.wf(),
        a.valid(n),
    ensures
        old(cache).keys().is_prefix_of(final(cache).keys()),
        match r {
            Ok(v) => v@.len() == numbered(*a, n.id as int).len() && (forall|i: int|
                0 <= i < v@.len() ==> sprite_of(#[trigger] v@[i], *a, numbered(*a, n.id as int)[i] as int, *final(cache)))
                && forall|i: int| 0 <= i < v@.len() ==> sprite_error(*a, #[trigger] numbered(*a, n.id as int)[i] as int) is None,
            Err(e) => exists|i: int|
                0 <= i < numbered(*a, n.id as int).len() && sprite_error(*a, numbered(*a, n.id as int)[i] as int)
                    == Some(e),
        },
{
    let nodes = n.numbered_children(a);
    let ghost ids = numbered(*a, n.id as int);
    let ghost start = cache.keys();
    let mut out: Vec<Sprite> = Vec::new();
    let mut k: usize = 0;
    while k < nodes.len()
        invariant
            a.wf(),
            nodes@.map_values(|m: Node| m.id) == ids,
            forall|i: int| 0 <= i < nodes@.len() ==> a.valid(#[trigger] nodes@[i]),
            k <= nodes@.len(),
            out@.len() == k,
            start.is_prefix_of(cache.keys()),
            start == old(cache).keys(),
            ids == numbered(*a, n.id as int),
            forall|i: int| 0 <= i < k ==> sprite_of(#[trigger] out@[i], *a, ids[i] as int, *cache),
            forall|i: int| 0 <= i < k ==> sprite_error(*a, #[trigger] ids[i] as int) is None,
        decreases nodes@.len() - k,
    {
        assert(nodes@[k as int].id == ids[k as int]);
        let ghost before = *cache;
        let res = Sprite::from(a, cache, nodes[k]);
        match res {
            Ok(s) => {
                proof {
                    assert forall|i: int| 0 <= i < k implies sprite_of(#[trigger] out@[i], *a, ids[i] as int, *cache) by {
                        lemma_sprite_of_grow(out@[i], *a, ids[i] as int, before, *cache);
                    }
                }
                out.push(s);
            },
            Err(e) => {
                assert(sprite_error(*a, ids[k as int] as int) == Some(e));
                assert(cache.keys() == before.keys());
                return Err(e);
            },
        }
        k = k + 1;
    }
    Ok(out)
}

impl SpriteAnimation {
    pub open spec fn wf(&self) -> bool {
        &&& self.timer.wf()
        &&& self.timer.intervals@.len() == self.frames@.len()
    }

    /// Reads the numbered frames of `n`; the timer runs over their delays.
    pub fn from(a: &Archive, cache: &mut ImageCache, n: Node) -> (r: Result<SpriteAnimation, ResolutionError>)
        requires
            a.wf(),
            a.valid(n),
        ensures
            old(cache).keys().is_prefix_of(final(cache).keys()),
            match r {
                Ok(an) => an.wf() && an.frames@.len() == numbered(*a, n.id as int).len() && (forall|i: int|
                    0 <= i < an.frames@.len() ==> sprite_of(#[trigger] an.frames@[i], *a, numbered(*a, n.id as int)[i] as int, *final(cache)))
                    && (forall|i: int| 0 <= i < an.frames@.len() ==> sprite_error(*a, #[trigger] numbered(*a, n.id as int)[i] as int) is None)
                    && an.timer.state() == fresh(an.frames@.map_values(|s: Sprite| interval_of(s.delay))),
                Err(e) => exists|i: int|
                    0 <= i < numbered(*a, n.id as int).len() && sprite_error(*a, numbered(*a, n.id as int)[i] as int)
                        == Some(e),
            },
    {
        let frames = match sprites_from(a, cache, n) {
            Ok(v) => v,
            Err(e) => return Err(e),
        };
        let intervals = intervals_of(&frames);
        let timer = Timer::new(intervals);
        Ok(SpriteAnimation { frames, timer })
    }

    /// Advances the animation by `delta` milliseconds and sets the alpha of
    /// the frame it lands on from its progress through that frame; returns
    /// that frame's index.
    pub fn tick(&mut self, delta: u64) -> (r: usize)
        requires
            old(self).wf(),
        ensures
            final(self).wf(),
            final(self).timer.state() == tick_spec(old(self).timer.state(), delta as nat).0,
            r == final(self).timer.index,
            final(self).frames@.len() == old(self).frames@.len(),
            forall|i: int| 0 <= i < old(self).frames@.len() && i != r ==> final(self).frames@[i] == old(self).frames@[i],
            r < old(self).frames@.len() ==> ({
                let f = old(self).frames@[r as int];
                let g = final(self).frames@[r as int];
                let len = final(self).timer.intervals@[r as int] as int;
                &&& g.alpha == blend(f.a0, f.a1, final(self).timer.elapsed as int, len)
                &&& g.path == f.path && g.image == f.image && g.size == f.size && g.origin == f.origin
                &&& g.a0 == f.a0 && g.a1 == f.a1 && g.z == f.z && g.delay == f.delay
            }),
    {
        self.timer.tick(delta);
        let i = self.timer.index;
        if i >= self.frames.len() {
            return i;
        }
        let (e, len) = self.timer.progress();
        let mut f = self.frames.remove(i);
        f.alpha = blend_alpha(f.a0, f.a1, e, len);
        self.frames.insert(i, f);
        i
    }
}

/// The timer intervals of a list of frames: their delays.
pub fn intervals_of(frames: &Vec<Sprite>) -> (r: Vec<u32>)
    ensures
        r@ == frames@.map_values(|s: Sprite| interval_of(s.delay)),
{
    let mut out: Vec<u32> = Vec::new();
    let mut k: usize = 0;
    while k < frames.len()
        invariant
            k <= frames@.len(),
            out@ == frames@.take(k as int).map_values(|s: Sprite| interval_of(s.delay)),
        decreases frames@.len() - k,
    {
        let d = frames[k].delay;
        out.push(if d < 0 { 0 } else { d as u32 });
        k = k + 1;
        assert(out@ =~= frames@.take(k as int).map_values(|s: Sprite| interval_of(s.delay)));
    }
    assert(frames@.take(k as int) == frames@);
    out
}

/// `blend` on the values a timer reports: `(0, 0)` stands for no progress.
fn blend_alpha(a0: i32, a1: i32, e: u128, len: u128) -> (r: i32)
    requires
        e <= len <= u32::MAX,
    ensures
        r == blend(a0, a1, e as int, len as int),
{
    if len == 0 {
        return a0;
    }
    let l = len as i128;
    let x = e as i128;
    proof {
        assert(-0x8000_0000 * 0x1_0000_0000 <= a0 * (l - x) <= 0x8000_0000 * 0x1_0000_0000) by (nonlinear_arith)
            requires
                0 <= l - x <= 0x1_0000_0000,
                -0x8000_0000 <= a0 <= 0x8000_0000;
        assert(-0x8000_0000 * 0x1_0000_0000 <= a1 * x <= 0x8000_0000 * 0x1_0000_0000) by (nonlinear_arith)
            requires
                0 <= x <= 0x1_0000_0000,
                -0x8000_0000 <= a1 <= 0x8000_0000;
    }
    let num: i128 = a0 as i128 * (l - x) + a1 as i128 * x;
    let lo: i128 = if a0 < a1 { a0 as i128 } else { a1 as i128 };
    let hi: i128 = if a0 < a1 { a1 as i128 } else { a0 as i128 };
    proof {
        assert(lo * l <= num <= hi * l) by (nonlinear_arith)
            requires
                num == a0 * (l - x) + a1 * x,
                0 <= x <= l,
                lo <= a0 <= hi,
                lo <= a1 <= hi;
    }
    let q: i128 = if num >= 0 { num / l } else { -((-num) / l) };
    proof {
        if num >= 0 {
            assert(lo <= num / l <= hi) by (nonlinear_arith)
                requires
                    lo * l <= num <= hi * l,
                    l > 0,
                    num >= 0;
        } else {
            let ghost m: int = -(num as int);
            let ghost li: int = l as int;
            assert(-(hi as int) <= m / li <= -(lo as int)) by (nonlinear_arith)
                requires
                    (lo as int) * li <= -m <= (hi as int) * li,
                    li > 0,
                    m > 0;
        }
    }
    q as i32
}

/// Two sprites read from nodes at the same archive path share one image
/// handle, however many records were read in between with the same cache.
pub proof fn lemma_same_path_same_image(
    s1: Sprite,
    s2: Sprite,
    a: Archive,
    n1: int,
    n2: int,
    c1: ImageCache,
    c2: ImageCache,
)
    requires
        sprite_of(s1, a, n1, c1),
        sprite_of(s2, a, n2, c2),
        a.full_path(n1) == a.full_path(n2),
        c1.keys().is_prefix_of(c2.keys()),
    ensures
        s1.image == s2.image,
{
    crate::cache::lemma_cache_identity(c1, c2, a.full_path(n1));
}

} // verus!
