//! Row-identifier sets backed by `roaring::RoaringBitmap`.
//!
//! The bitmap is an outside collection: its contents are named by
//! [`bitmap_set`], and every operation that the engine uses is a thin wrapper
//! whose contract speaks of that name.
use roaring::RoaringBitmap;
use vstd::prelude::*;
use vstd::set_lib::*;

verus! {

#[verifier::external_type_specification]
#[verifier::external_body]
pub struct ExRoaringBitmap(RoaringBitmap);

/// The set of row identifiers held by a bitmap.
pub uninterp spec fn bitmap_set(b: RoaringBitmap) -> Set<u32>;

/// Whether a bitmap is in the form that roaring's own operations leave it
/// in: containers sorted by distinct keys, none of them empty. A bitmap
/// decoded from bytes need not be; the engine only holds bitmaps it built.
pub uninterp spec fn bitmap_valid(b: RoaringBitmap) -> bool;

/// Relies on `RoaringBitmap::new`: the new bitmap is empty. The result is valid
/// (each of these operations keeps roaring's container order and drops
/// empty containers).
#[verifier::external_body]
pub fn bitmap_new() -> (r: RoaringBitmap)
    ensures
        bitmap_set(r) == Set::<u32>::empty(),
        bitmap_valid(r),
{
    RoaringBitmap::new()
}

/// Relies on `RoaringBitmap::insert`: adds `value` to the set. The result is valid
/// (each of these operations keeps roaring's container order and drops
/// empty containers).
#[verifier::external_body]
pub fn bitmap_insert(b: &mut RoaringBitmap, value: u32)
    requires
        bitmap_valid(*old(b)),
    ensures
        bitmap_set(*final(b)) == bitmap_set(*old(b)).insert(value),
        bitmap_valid(*final(b)),
{
    b.insert(value);
}

/// Relies on `RoaringBitmap::is_empty`: true iff no integer is in the set.
#[verifier::external_body]
pub fn bitmap_is_empty(b: &RoaringBitmap) -> (r: bool)
    requires
        bitmap_valid(*b),
    ensures
        r == (bitmap_set(*b) == Set::<u32>::empty()),
{
    b.is_empty()
}

/// Relies on `RoaringBitmap::is_disjoint`: true iff the two sets share no integer.
#[verifier::external_body]
pub fn bitmap_is_disjoint(a: &RoaringBitmap, b: &RoaringBitmap) -> (r: bool)
    requires
        bitmap_valid(*a),
        bitmap_valid(*b),
    ensures
        r == bitmap_set(*a).disjoint(bitmap_set(*b)),
{
    a.is_disjoint(b)
}

/// Relies on `RoaringBitmap::len`: the number of distinct integers in the set.
#[verifier::external_body]
pub fn bitmap_len(b: &RoaringBitmap) -> (r: u64)
    requires
        bitmap_valid(*b),
    ensures
        r as int == bitmap_set(*b).len(),
{
    b.len()
}

/// Relies on `Clone for RoaringBitmap`: the copy holds the same integers. The result is valid
/// (each of these operations keeps roaring's container order and drops
/// empty containers).
#[verifier::external_body]
pub fn bitmap_clone(b: &RoaringBitmap) -> (r: RoaringBitmap)
    requires
        bitmap_valid(*b),
    ensures
        bitmap_set(r) == bitmap_set(*b),
        bitmap_valid(r),
{
    b.clone()
}

/// Relies on `BitAndAssign<&RoaringBitmap> for RoaringBitmap`: in-place intersection. The result is valid
/// (each of these operations keeps roaring's container order and drops
/// empty containers).
#[verifier::external_body]
pub fn bitmap_and_assign(a: &mut RoaringBitmap, b: &RoaringBitmap)
    requires
        bitmap_valid(*old(a)),
        bitmap_valid(*b),
    ensures
        bitmap_set(*final(a)) == bitmap_set(*old(a)).intersect(bitmap_set(*b)),
        bitmap_valid(*final(a)),
{
    *a &= b;
}

/// Relies on `BitXorAssign<&RoaringBitmap> for RoaringBitmap`: in-place
/// symmetric difference. The result is valid
/// (each of these operations keeps roaring's container order and drops
/// empty containers).
#[verifier::external_body]
pub fn bitmap_xor_assign(a: &mut RoaringBitmap, b: &RoaringBitmap)
    requires
        bitmap_valid(*old(a)),
        bitmap_valid(*b),
    ensures
        bitmap_set(*final(a)) == sym_diff(bitmap_set(*old(a)), bitmap_set(*b)),
        bitmap_valid(*final(a)),
{
    *a ^= b;
}

/// Relies on `RoaringBitmap::iter`: the integers of the set, in ascending order.
#[verifier::external_body]
pub fn bitmap_to_vec(b: &RoaringBitmap) -> (r: Vec<u32>)
    requires
        bitmap_valid(*b),
    ensures
        r@.to_set() == bitmap_set(*b),
        forall|i: int, j: int| 0 <= i < j < r@.len() ==> r@[i] < r@[j],
{
    b.iter().collect()
}

/// The symmetric difference of two sets.
pub open spec fn sym_diff(a: Set<u32>, b: Set<u32>) -> Set<u32> {
    a.difference(b).union(b.difference(a))
}

/// The members of the first `n` sets.
pub open spec fn union_upto(sets: Seq<Set<u32>>, n: int) -> Set<u32> {
    Set::new(|r: u32| exists|i: int| 0 <= i < n && #[trigger] sets[i].contains(r))
}

/// The sum of the sizes of the first `n` sets.
pub open spec fn sum_lens(sets: Seq<Set<u32>>, n: int) -> nat
    decreases n,
{
    if n <= 0 {
        0
    } else {
        sum_lens(sets, n - 1) + sets[n - 1].len()
    }
}

/// Pairwise disjoint sets have as many members together as their sizes add up to.
pub proof fn lemma_disjoint_union_len(sets: Seq<Set<u32>>, n: int)
    requires
        0 <= n <= sets.len(),
        forall|i: int, j: int|
            0 <= i < sets.len() && 0 <= j < sets.len() && i != j ==> #[trigger] sets[i].disjoint(#[trigger] sets[j]),
    ensures
        union_upto(sets, n).len() == sum_lens(sets, n),
    decreases n,
{
    if n == 0 {
        assert(union_upto(sets, 0) =~= Set::<u32>::empty());
    } else {
        lemma_disjoint_union_len(sets, n - 1);
        let a = union_upto(sets, n - 1);
        let b = sets[n - 1];
        assert(union_upto(sets, n) =~= a + b);
        lemma_u32_set_finite(a);
        lemma_u32_set_finite(b);
        assert(a.disjoint(b)) by {
            assert forall|x: u32| a.contains(x) implies !b.contains(x) by {
                let i = choose|i: int| 0 <= i < n - 1 && #[trigger] sets[i].contains(x);
                assert(sets[i].disjoint(sets[n - 1]));
            }
        }
        vstd::set_lib::lemma_set_disjoint_lens(a, b);
    }
}

/// The row identifiers below `n`.
pub open spec fn rows_below(n: nat) -> Set<u32> {
    Set::new(|r: u32| (r as nat) < n)
}

/// Every set of `u32` values is finite.
pub proof fn lemma_u32_set_finite(s: Set<u32>)
    ensures
        s.finite(),
{
    let whole = set_int_range(0, 0x1_0000_0000);
    lemma_int_range(0, 0x1_0000_0000);
    let f = |i: int| i as u32;
    whole.lemma_map_finite(f);
    assert forall|x: u32| s.contains(x) implies #[trigger] whole.map(f).contains(x) by {
        assert(whole.contains(x as int));
        assert(f(x as int) == x);
    }
    lemma_set_subset_finite(whole.map(f), s);
}

/// The identifiers below `n` are exactly `n` many.
pub proof fn lemma_rows_below_len(n: nat)
    requires
        n <= 0x1_0000_0000,
    ensures
        rows_below(n).finite(),
        rows_below(n).len() == n,
    decreases n,
{
    lemma_u32_set_finite(rows_below(n));
    if n == 0 {
        assert(rows_below(0) =~= Set::<u32>::empty());
    } else {
        lemma_rows_below_len((n - 1) as nat);
        let last = (n - 1) as u32;
        assert(rows_below(n) =~= rows_below((n - 1) as nat).insert(last));
    }
}

/// A set of identifiers below `n` has at most `n` members.
pub proof fn lemma_below_len_bound(s: Set<u32>, n: nat)
    requires
        n <= 0x1_0000_0000,
        s.subset_of(rows_below(n)),
    ensures
        s.len() <= n,
{
    lemma_rows_below_len(n);
    vstd::set_lib::lemma_len_subset(s, rows_below(n));
}

} // verus!
