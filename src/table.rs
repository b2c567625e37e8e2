use vstd::prelude::*;

verus! {

/// Position of the first entry with the given key, from `i` on.
pub open spec fn key_index<V>(s: Seq<(String, V)>, key: Seq<char>, i: int) -> Option<int>
    decreases s.len() - i,
{
    if i < 0 || i >= s.len() {
        None
    } else if s[i].0@ == key {
        Some(i)
    } else {
        key_index(s, key, i + 1)
    }
}

/// The value under a key in a list of named entries.
pub open spec fn lookup<V>(s: Seq<(String, V)>, key: Seq<char>) -> Option<V> {
    match key_index(s, key, 0) {
        Some(i) => Some(s[i].1),
        None => None,
    }
}

/// Finds the first entry with the given key.
pub fn find_key<V>(v: &Vec<(String, V)>, key: &str) -> (r: Option<usize>)
    ensures
        match r {
            Some(i) => key_index(v@, key@, 0) == Some(i as int) && i < v@.len(),
            None => key_index(v@, key@, 0) is None,
        },
{
    let k = String::from_str(key);
    let mut i: usize = 0;
    while i < v.len()
        invariant
            i <= v@.len(),
            k@ == key@,
            key_index(v@, key@, 0) == key_index(v@, key@, i as int),
        decreases v@.len() - i,
    {
        if v[i].0 == k {
            return Some(i);
        }
        i = i + 1;
    }
    None
}

} // verus!
