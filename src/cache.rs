use vstd::prelude::*;

verus! {

/// A decoded image, known by its place in the cache.
#[derive(Clone, Copy, Debug, PartialEq, Eq, Structural)]
pub struct ImageHandle {
    pub id: usize,
}

/// Images by archive path: each path gets one handle, so each bitmap is
/// decoded once however many records show it.
pub struct ImageCache {
    pub paths: Vec<String>,
}

pub open spec fn index_in(paths: Seq<Seq<char>>, p: Seq<char>, k: int) -> Option<usize>
    decreases paths.len() - k,
{
    if k < 0 || k >= paths.len() {
        None
    } else if paths[k] == p {
        Some(k as usize)
    } else {
        index_in(paths, p, k + 1)
    }
}

impl ImageCache {
    pub open spec fn keys(&self) -> Seq<Seq<char>> {
        self.paths@.map_values(|s: String| s@)
    }

    /// The handle that a path has, if any.
    pub open spec fn lookup(&self, p: Seq<char>) -> Option<usize> {
        index_in(self.keys(), p, 0)
    }

    pub fn new() -> (r: ImageCache)
        ensures
            r.keys().len() == 0,
    {
        ImageCache { paths: Vec::new() }
    }

    pub fn len(&self) -> (r: usize)
        ensures
            r == self.keys().len(),
    {
        self.paths.len()
    }

    /// The handle of the image at `path`, and whether it is new (its image
    /// still has to be decoded).
    pub fn image_for(&mut self, path: String) -> (r: (ImageHandle, bool))
        ensures
            final(self).lookup(path@) == Some(r.0.id),
            r.1 == (old(self).lookup(path@) is None),
            r.1 ==> final(self).keys() == old(self).keys().push(path@),
            !r.1 ==> final(self).keys() == old(self).keys(),
    {
        let mut k: usize = 0;
        while k < self.paths.len()
            invariant
                k <= self.keys().len(),
                self.lookup(path@) == index_in(self.keys(), path@, k as int),
            decreases self.keys().len() - k,
        {
            if self.paths[k] == path {
                return (ImageHandle { id: k }, false);
            }
            k = k + 1;
        }
        let ghost before = self.keys();
        let id = self.paths.len();
        self.paths.push(path);
        proof {
            assert(self.keys() == before.push(path@));
            lemma_index_push(before, path@, 0);
        }
        (ImageHandle { id }, true)
    }
}

proof fn lemma_index_push(s: Seq<Seq<char>>, p: Seq<char>, k: int)
    requires
        0 <= k <= s.len(),
        index_in(s, p, k) is None,
    ensures
        index_in(s.push(p), p, k) == Some(s.len() as usize),
    decreases s.len() - k,
{
    if k < s.len() {
        lemma_index_push(s, p, k + 1);
    }
}

proof fn lemma_index_extend(s: Seq<Seq<char>>, t: Seq<Seq<char>>, p: Seq<char>, k: int)
    requires
        0 <= k <= s.len(),
        index_in(s, p, k) is Some,
    ensures
        index_in(s + t, p, k) == index_in(s, p, k),
    decreases s.len() - k,
{
    if k < s.len() && s[k] != p {
        lemma_index_extend(s, t, p, k + 1);
    }
}

/// A path keeps its handle as the cache grows: two records that show the image
/// at one path, however far apart they were built, hold the same handle.
pub proof fn lemma_cache_identity(earlier: ImageCache, later: ImageCache, p: Seq<char>)
    requires
        earlier.lookup(p) is Some,
        earlier.keys().is_prefix_of(later.keys()),
    ensures
        later.lookup(p) == earlier.lookup(p),
{
    let s = earlier.keys();
    let t = later.keys().subrange(s.len() as int, later.keys().len() as int);
    assert(s + t == later.keys());
    lemma_index_extend(s, t, p, 0);
}

/// Along any run of cache states, each extending the one before (as every
/// call of `image_for` does), a path keeps the handle it first got.
pub proof fn lemma_cache_identity_along(states: Seq<ImageCache>, p: Seq<char>)
    requires
        states.len() > 0,
        states[0].lookup(p) is Some,
        forall|i: int| 0 <= i < states.len() - 1 ==> (#[trigger] states[i]).keys().is_prefix_of(states[i + 1].keys()),
    ensures
        forall|j: int| 0 <= j < states.len() ==> (#[trigger] states[j]).lookup(p) == states[0].lookup(p),
    decreases states.len(),
{
    if states.len() > 1 {
        let init = states.drop_last();
        assert forall|i: int| 0 <= i < init.len() - 1 implies (#[trigger] init[i]).keys().is_prefix_of(init[i + 1].keys()) by {
            assert(init[i] == states[i] && init[i + 1] == states[i + 1]);
        }
        lemma_cache_identity_along(init, p);
        let n = states.len() - 1;
        assert(init[n - 1] == states[n - 1]);
        assert(states[n - 1].keys().is_prefix_of(states[n].keys()));
        lemma_cache_identity(states[n - 1], states[n], p);
        assert forall|j: int| 0 <= j < states.len() implies (#[trigger] states[j]).lookup(p) == states[0].lookup(p) by {
            if j < n {
                assert(init[j] == states[j]);
            }
        }
    }
}

} // verus!
