use vstd::prelude::*;

verus! {

/// Where an item with key `k` goes in a sorted sequence: after every item
/// whose key is not greater.
pub open spec fn insert_pos<T>(t: Seq<(i32, T)>, k: i32, i: int) -> int
    decreases t.len() - i,
{
    if i < 0 || i >= t.len() {
        t.len() as int
    } else if t[i].0 > k {
        i
    } else {
        insert_pos(t, k, i + 1)
    }
}

pub open spec fn insert_stable<T>(t: Seq<(i32, T)>, x: (i32, T)) -> Seq<(i32, T)> {
    let p = insert_pos(t, x.0, 0);
    t.take(p) + seq![x] + t.skip(p)
}

/// Sorting by key, items with equal keys in the order they came in.
pub open spec fn stable_sort<T>(s: Seq<(i32, T)>) -> Seq<(i32, T)>
    decreases s.len(),
{
    if s.len() == 0 {
        s
    } else {
        insert_stable(stable_sort(s.drop_last()), s.last())
    }
}

pub open spec fn sorted_by_key<T>(s: Seq<(i32, T)>) -> bool {
    forall|i: int, j: int| 0 <= i < j < s.len() ==> s[i].0 <= s[j].0
}

pub open spec fn has_key<T>(k: i32) -> spec_fn((i32, T)) -> bool {
    |x: (i32, T)| x.0 == k
}

/// Sorts items by key; items with equal keys keep their order.
pub fn sort_by_key<T>(v: Vec<(i32, T)>) -> (r: Vec<(i32, T)>)
    ensures
        r@ == stable_sort(v@),
{
    let ghost orig = v@;
    let mut v = v;
    let total = v.len();
    let mut out: Vec<(i32, T)> = Vec::new();
    let mut i: usize = 0;
    while v.len() > 0
        invariant
            i <= orig.len(),
            i + v@.len() == orig.len(),
            orig.len() == total,
            v@ == orig.skip(i as int),
            out@ == stable_sort(orig.take(i as int)),
        decreases v@.len(),
    {
        let x = v.remove(0);
        proof {
            assert(orig.take(i + 1).drop_last() == orig.take(i as int));
            assert(orig.take(i + 1).last() == x);
            assert(orig.skip(i + 1) == orig.skip(i as int).drop_first());
        }
        let mut p: usize = 0;
        while p < out.len() && out[p].0 <= x.0
            invariant
                p <= out@.len(),
                insert_pos(out@, x.0, 0) == insert_pos(out@, x.0, p as int),
            decreases out@.len() - p,
        {
            p = p + 1;
        }
        let ghost before = out@;
        out.insert(p, x);
        assert(out@ =~= before.take(p as int) + seq![x] + before.skip(p as int));
        i = i + 1;
    }
    assert(orig.take(i as int) == orig);
    out
}

/// Takes the items out of keyed pairs, in order.
pub fn items_of<T>(v: Vec<(i32, T)>) -> (r: Vec<T>)
    ensures
        r@ == v@.map_values(|x: (i32, T)| x.1),
{
    let ghost orig = v@;
    let mut v = v;
    let total = v.len();
    let mut out: Vec<T> = Vec::new();
    let mut i: usize = 0;
    while v.len() > 0
        invariant
            i <= orig.len(),
            i + v@.len() == orig.len(),
            orig.len() == total,
            v@ == orig.skip(i as int),
            out@ == orig.take(i as int).map_values(|x: (i32, T)| x.1),
        decreases v@.len(),
    {
        let x = v.remove(0);
        proof {
            assert(orig.skip(i + 1) == orig.skip(i as int).drop_first());
        }
        out.push(x.1);
        i = i + 1;
        assert(out@ =~= orig.take(i as int).map_values(|x: (i32, T)| x.1));
    }
    assert(orig.take(i as int) == orig);
    out
}

proof fn lemma_insert_pos<T>(t: Seq<(i32, T)>, k: i32, i: int)
    requires
        0 <= i <= t.len(),
        forall|j: int| 0 <= j < i ==> t[j].0 <= k,
    ensures
        i <= insert_pos(t, k, i) <= t.len(),
        forall|j: int| 0 <= j < insert_pos(t, k, i) ==> t[j].0 <= k,
        insert_pos(t, k, i) < t.len() ==> t[insert_pos(t, k, i)].0 > k,
    decreases t.len() - i,
{
    if i < t.len() && t[i].0 <= k {
        lemma_insert_pos(t, k, i + 1);
    }
}

proof fn lemma_filter_none<T>(s: Seq<(i32, T)>, k: i32)
    requires
        forall|j: int| 0 <= j < s.len() ==> s[j].0 != k,
    ensures
        s.filter(has_key(k)) == Seq::<(i32, T)>::empty(),
    decreases s.len(),
{
    reveal(Seq::filter);
    if s.len() > 0 {
        lemma_filter_none(s.drop_last(), k);
    }
}

proof fn lemma_filter_single<T>(x: (i32, T), k: i32)
    ensures
        seq![x].filter(has_key(k)) == if x.0 == k {
            seq![x]
        } else {
            Seq::<(i32, T)>::empty()
        },
{
    Seq::<(i32, T)>::empty().lemma_filter_prepend(x, has_key(k));
    assert(seq![x] + Seq::<(i32, T)>::empty() == seq![x]);
    reveal(Seq::filter);
    assert(Seq::<(i32, T)>::empty().filter(has_key(k)) == Seq::<(i32, T)>::empty());
}

proof fn lemma_insert_sorted<T>(t: Seq<(i32, T)>, x: (i32, T))
    requires
        sorted_by_key(t),
    ensures
        sorted_by_key(insert_stable(t, x)),
{
    lemma_insert_pos(t, x.0, 0);
    let p = insert_pos(t, x.0, 0);
    let r = insert_stable(t, x);
    assert forall|i: int, j: int| 0 <= i < j < r.len() implies r[i].0 <= r[j].0 by {
        if j < p {
        } else if j == p {
            assert(r[i] == t[i]);
        } else if i < p {
            assert(r[j] == t[j - 1]);
            assert(r[i] == t[i]);
        } else if i == p {
            assert(r[j] == t[j - 1]);
            assert(t[p].0 > x.0);
            assert(t[p].0 <= t[j - 1].0);
        } else {
            assert(r[j] == t[j - 1]);
            assert(r[i] == t[i - 1]);
        }
    }
}

proof fn lemma_insert_filter<T>(t: Seq<(i32, T)>, x: (i32, T), k: i32)
    requires
        sorted_by_key(t),
    ensures
        insert_stable(t, x).filter(has_key(k)) == if x.0 == k {
            t.filter(has_key(k)).push(x)
        } else {
            t.filter(has_key(k))
        },
{
    lemma_insert_pos(t, x.0, 0);
    let p = insert_pos(t, x.0, 0);
    let a = t.take(p);
    let b = t.skip(p);
    assert(t == a + b);
    Seq::filter_distributes_over_add(a, b, has_key(k));
    Seq::filter_distributes_over_add(a + seq![x], b, has_key(k));
    Seq::filter_distributes_over_add(a, seq![x], has_key(k));
    lemma_filter_single(x, k);
    if x.0 == k {
        assert forall|j: int| 0 <= j < b.len() implies b[j].0 != k by {
            assert(b[j] == t[p + j]);
            assert(t[p].0 > x.0);
        }
        lemma_filter_none(b, k);
        assert(a.filter(has_key(k)) + seq![x] == a.filter(has_key(k)).push(x));
        assert(t.filter(has_key(k)) == a.filter(has_key(k)) + Seq::<(i32, T)>::empty());
    } else {
        assert(a.filter(has_key(k)) + Seq::<(i32, T)>::empty() == a.filter(has_key(k)));
    }
}

/// Sorting by key orders the keys, and the items that share a key come out in
/// the order they went in.
pub proof fn lemma_sort_is_stable<T>(s: Seq<(i32, T)>, k: i32)
    ensures
        sorted_by_key(stable_sort(s)),
        stable_sort(s).filter(has_key(k)) == s.filter(has_key(k)),
    decreases s.len(),
{
    if s.len() > 0 {
        lemma_sort_is_stable(s.drop_last(), k);
        lemma_insert_sorted(stable_sort(s.drop_last()), s.last());
        lemma_insert_filter(stable_sort(s.drop_last()), s.last(), k);
        s.drop_last().lemma_filter_push(s.last(), has_key(k));
        assert(s.drop_last().push(s.last()) == s);
    }
}

pub open spec fn map_items<T, U>(s: Seq<(i32, T)>, f: spec_fn(T) -> U) -> Seq<(i32, U)> {
    s.map_values(|x: (i32, T)| (x.0, f(x.1)))
}

proof fn lemma_insert_pos_map<T, U>(s: Seq<(i32, T)>, f: spec_fn(T) -> U, k: i32, i: int)
    ensures
        insert_pos(map_items(s, f), k, i) == insert_pos(s, k, i),
    decreases s.len() - i,
{
    if 0 <= i < s.len() {
        lemma_insert_pos_map(s, f, k, i + 1);
    }
}

/// Sorting does not look at the items: changing them before or after sorting
/// gives the same sequence.
pub proof fn lemma_sort_map<T, U>(s: Seq<(i32, T)>, f: spec_fn(T) -> U)
    ensures
        stable_sort(map_items(s, f)) == map_items(stable_sort(s), f),
    decreases s.len(),
{
    if s.len() > 0 {
        lemma_sort_map(s.drop_last(), f);
        assert(map_items(s, f).drop_last() == map_items(s.drop_last(), f));
        let t = stable_sort(s.drop_last());
        let x = s.last();
        lemma_insert_pos_map(t, f, x.0, 0);
        let p = insert_pos(t, x.0, 0);
        lemma_insert_pos(t, x.0, 0);
        assert(map_items(t, f).take(p) + seq![(x.0, f(x.1))] + map_items(t, f).skip(p) == map_items(
            t.take(p) + seq![x] + t.skip(p),
            f,
        ));
    }
}

/// Sorting keeps the items it was given.
pub proof fn lemma_sort_member<T>(s: Seq<(i32, T)>, i: int)
    requires
        0 <= i < stable_sort(s).len(),
    ensures
        s.contains(stable_sort(s)[i]),
{
    let x = stable_sort(s)[i];
    lemma_sort_is_stable(s, x.0);
    stable_sort(s).lemma_filter_contains(has_key(x.0), i);
    s.lemma_filter_contains_rev(has_key(x.0), x);
}

pub proof fn lemma_sort_len<T>(s: Seq<(i32, T)>)
    ensures
        stable_sort(s).len() == s.len(),
    decreases s.len(),
{
    if s.len() > 0 {
        lemma_sort_len(s.drop_last());
        lemma_insert_pos(stable_sort(s.drop_last()), s.last().0, 0);
    }
}

} // verus!
