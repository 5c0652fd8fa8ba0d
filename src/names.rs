//! Lookup of a string key in a sequence of distinct keys.
use vstd::prelude::*;

verus! {

/// The string views of a vector of strings.
pub open spec fn views(v: Seq<String>) -> Seq<Seq<char>> {
    v.map_values(|s: String| s@)
}

/// No key occurs twice.
pub open spec fn distinct(keys: Seq<Seq<char>>) -> bool {
    forall|i: int, j: int| 0 <= i < keys.len() && 0 <= j < keys.len() && i != j ==> keys[i] != keys[j]
}

/// The position of `k` among `keys`, if it occurs.
pub open spec fn index_in(keys: Seq<Seq<char>>, k: Seq<char>) -> Option<int> {
    if exists|i: int| 0 <= i < keys.len() && keys[i] == k {
        Some(choose|i: int| 0 <= i < keys.len() && keys[i] == k)
    } else {
        None
    }
}

/// Among distinct keys, the position of a key is the one where it stands.
pub proof fn lemma_index_in(keys: Seq<Seq<char>>, i: int)
    requires
        distinct(keys),
        0 <= i < keys.len(),
    ensures
        index_in(keys, keys[i]) == Some(i),
{
    assert(0 <= i < keys.len() && keys[i] == keys[i]);
}

/// Looks `key` up among `names`.
pub fn find_name(names: &Vec<String>, key: &str) -> (r: Option<usize>)
    requires
        distinct(views(names@)),
    ensures
        match r {
            Some(i) => i < names@.len() && index_in(views(names@), key@) == Some(i as int),
            None => index_in(views(names@), key@) is None,
        },
{
    let k: String = key.to_owned();
    let mut i: usize = 0;
    while i < names.len()
        invariant
            0 <= i <= names@.len(),
            k@ == key@,
            distinct(views(names@)),
            forall|j: int| 0 <= j < i ==> views(names@)[j] != key@,
        decreases names@.len() - i,
    {
        if names[i] == k {
            proof {
                lemma_index_in(views(names@), i as int);
            }
            return Some(i);
        }
        i = i + 1;
    }
    None
}

/// Whether `i` is the first position of `k` among `keys`.
pub open spec fn is_first(keys: Seq<Seq<char>>, k: Seq<char>, i: int) -> bool {
    0 <= i < keys.len() && keys[i] == k && forall|j: int| 0 <= j < i ==> keys[j] != k
}

/// The first position of `k` among `keys`, if it occurs.
pub open spec fn first_index(keys: Seq<Seq<char>>, k: Seq<char>) -> Option<int> {
    if exists|i: int| is_first(keys, k, i) {
        Some(choose|i: int| is_first(keys, k, i))
    } else {
        None
    }
}

/// A first position is the first position.
pub proof fn lemma_first_index(keys: Seq<Seq<char>>, k: Seq<char>, i: int)
    requires
        is_first(keys, k, i),
    ensures
        first_index(keys, k) == Some(i),
{
    let c = choose|c: int| is_first(keys, k, c);
    if c < i {
        assert(keys[c] != k);
    } else if i < c {
        assert(keys[i] != k);
    }
}

/// A copy of the first `n` strings of `v`.
pub fn copy_prefix(v: &Vec<String>, n: usize) -> (r: Vec<String>)
    requires
        n <= v@.len(),
    ensures
        views(r@) == views(v@).take(n as int),
{
    let mut r: Vec<String> = Vec::new();
    let mut i: usize = 0;
    while i < n
        invariant
            n <= v@.len(),
            i <= n,
            views(r@) == views(v@).take(i as int),
        decreases n - i,
    {
        let ghost pr = r@;
        let c = v[i].clone();
        assert(c@ == v@[i as int]@);
        r.push(c);
        assert(r@ == pr.push(c));
        assert(views(r@) =~= views(pr).push(c@));
        assert(views(v@).take(i as int + 1) =~= views(v@).take(i as int).push(views(v@)[i as int]));
        i = i + 1;
    }
    r
}

} // verus!
