use vstd::prelude::*;
use crate::map::Foothold;
use vstd::set_lib::lemma_map_size;

verus! {

pub open spec fn no_prev() -> spec_fn(Foothold) -> bool {
    |f: Foothold| f.prev == 0
}

pub open spec fn no_next() -> spec_fn(Foothold) -> bool {
    |f: Foothold| f.next == 0
}

/// How many of the first `n` footholds satisfy `p`.
pub open spec fn count(g: Seq<(i32, Foothold)>, p: spec_fn(Foothold) -> bool, n: int) -> nat
    decreases n,
{
    if n <= 0 {
        0
    } else {
        count(g, p, n - 1) + if p(g[n - 1].1) {
            1nat
        } else {
            0nat
        }
    }
}

/// A group of footholds whose links agree: ids are distinct and not 0 (which
/// means "none"), each `next`
/// names a foothold whose `prev` points back, and each `prev` names one whose
/// `next` points forward.
pub open spec fn chained(g: Seq<(i32, Foothold)>) -> bool {
    &&& forall|i: int, j: int| 0 <= i < j < g.len() ==> g[i].0 != g[j].0
    &&& forall|i: int| 0 <= i < g.len() ==> (#[trigger] g[i]).0 != 0
    &&& forall|i: int|
        0 <= i < g.len() && (#[trigger] g[i]).1.next != 0 ==> exists|j: int|
            0 <= j < g.len() && g[j].0 == g[i].1.next && g[j].1.prev == g[i].0
    &&& forall|j: int|
        0 <= j < g.len() && (#[trigger] g[j]).1.prev != 0 ==> exists|i: int|
            0 <= i < g.len() && g[i].0 == g[j].1.prev && g[i].1.next == g[j].0
}

/// Chain heads (no `prev`) and chain tails (no `next`) are as many.
pub open spec fn balanced(g: Seq<(i32, Foothold)>) -> bool {
    count(g, no_prev(), g.len() as int) == count(g, no_next(), g.len() as int)
}

/// Whether a group of footholds has as many chain heads as chain tails.
pub fn chain_balanced(g: &Vec<(i32, Foothold)>) -> (r: bool)
    ensures
        r == balanced(g@),
{
    let mut heads: usize = 0;
    let mut tails: usize = 0;
    let mut k: usize = 0;
    while k < g.len()
        invariant
            k <= g@.len(),
            heads == count(g@, no_prev(), k as int),
            tails == count(g@, no_next(), k as int),
            heads <= k,
            tails <= k,
        decreases g@.len() - k,
    {
        if g[k].1.prev == 0 {
            heads = heads + 1;
        }
        if g[k].1.next == 0 {
            tails = tails + 1;
        }
        k = k + 1;
    }
    heads == tails
}

pub open spec fn index_set(g: Seq<(i32, Foothold)>, p: spec_fn(Foothold) -> bool, n: int) -> Set<int> {
    Set::new(|i: int| 0 <= i < n && p(g[i].1))
}

proof fn lemma_count_set(g: Seq<(i32, Foothold)>, p: spec_fn(Foothold) -> bool, n: int)
    requires
        0 <= n <= g.len(),
    ensures
        index_set(g, p, n).finite(),
        index_set(g, p, n).len() == count(g, p, n),
    decreases n,
{
    if n == 0 {
        assert(index_set(g, p, 0) =~= Set::<int>::empty());
    } else {
        lemma_count_set(g, p, n - 1);
        if p(g[n - 1].1) {
            assert(index_set(g, p, n) =~= index_set(g, p, n - 1).insert(n - 1));
        } else {
            assert(index_set(g, p, n) =~= index_set(g, p, n - 1));
        }
    }
}

proof fn lemma_count_split(g: Seq<(i32, Foothold)>, p: spec_fn(Foothold) -> bool, q: spec_fn(Foothold) -> bool, n: int)
    requires
        0 <= n <= g.len(),
        forall|f: Foothold| #[trigger] p(f) == !q(f),
    ensures
        count(g, p, n) + count(g, q, n) == n,
    decreases n,
{
    if n > 0 {
        lemma_count_split(g, p, q, n - 1);
    }
}

pub open spec fn linked_next() -> spec_fn(Foothold) -> bool {
    |f: Foothold| f.next != 0
}

pub open spec fn linked_prev() -> spec_fn(Foothold) -> bool {
    |f: Foothold| f.prev != 0
}

/// Where the `next` link of the foothold at `i` leads.
pub open spec fn next_index(g: Seq<(i32, Foothold)>) -> spec_fn(int) -> int {
    |i: int| choose|j: int| 0 <= j < g.len() && g[j].0 == g[i].1.next && g[j].1.prev == g[i].0
}

/// In a chained group there are as many chain heads as chain tails.
pub proof fn lemma_chained_is_balanced(g: Seq<(i32, Foothold)>)
    requires
        chained(g),
    ensures
        balanced(g),
{
    let n = g.len() as int;
    let a = index_set(g, linked_next(), n);
    let b = index_set(g, linked_prev(), n);
    let f = next_index(g);
    lemma_count_set(g, linked_next(), n);
    lemma_count_set(g, linked_prev(), n);
    assert forall|i: int| a.contains(i) implies b.contains(f(i)) && g[f(i)].0 == g[i].1.next && g[f(i)].1.prev == g[i].0 by {
        assert(g[i].1.next != 0);
        assert(exists|j: int| 0 <= j < g.len() && g[j].0 == g[i].1.next && g[j].1.prev == g[i].0);
    }
    assert(vstd::relations::injective_on(f, a)) by {
        assert forall|x: int, y: int| a.contains(x) && a.contains(y) && #[trigger] f(x) == #[trigger] f(y) implies x == y by {
            if x != y {
                assert(g[x].0 == g[f(x)].1.prev);
                assert(g[y].0 == g[f(y)].1.prev);
            }
        }
    }
    assert(a.map(f) =~= b) by {
        assert forall|j: int| b.contains(j) implies a.map(f).contains(j) by {
            assert(g[j].1.prev != 0);
            let i = choose|i: int| 0 <= i < g.len() && g[i].0 == g[j].1.prev && g[i].1.next == g[j].0;
            assert(a.contains(i));
            let k = f(i);
            if k != j {
                assert(g[k].0 == g[j].0);
            }
        }
        assert forall|j: int| a.map(f).contains(j) implies b.contains(j) by {
            let i = choose|i: int| a.contains(i) && f(i) == j;
        }
    }
    lemma_map_size(a, b, f);
    lemma_count_split(g, no_prev(), linked_prev(), n);
    lemma_count_split(g, no_next(), linked_next(), n);
}

} // verus!
