//! A dictionary-encoded column: each distinct value gets a dense identifier and
//! an inverted bitmap of the rows that hold it.
use crate::bitmap::{
    bitmap_clone, bitmap_insert, bitmap_is_disjoint, bitmap_len, bitmap_new, bitmap_set, bitmap_to_vec, bitmap_valid,
    lemma_disjoint_union_len, lemma_u32_set_finite, rows_below, sum_lens, union_upto,
};
use crate::names::{copy_prefix, distinct, find_name, index_in, lemma_index_in, views};
use roaring::RoaringBitmap;
use vstd::prelude::*;

verus! {

/// The coarse semantic type of a column's values.
#[derive(Debug, Clone, Copy, PartialEq, Eq, Structural)]
pub enum DataType {
    Null,
    Utf8,
    Boolean,
    Integer,
    Float,
    Date,
    DateTime,
    Time,
    Currency,
    Percentage,
    Email,
    Phone,
    Url,
    IpAddress,
}

/// One field of the store.
///
/// `reverse_symbol[id]` is the value with identifier `id`, `data` records the
/// identifier of each row appended to the column, and `bitmaps[id]` is the set
/// of row identifiers whose value is `reverse_symbol[id]`. The confidence of
/// the type label is the ratio `type_matches / type_samples`.
pub struct Column {
    pub reverse_symbol: Vec<String>,
    pub data: Vec<u32>,
    pub bitmaps: Vec<RoaringBitmap>,
    pub col_type: DataType,
    pub type_matches: u32,
    pub type_samples: u32,
}

/// A column as plain values: the dictionary, the row symbols, the rows of
/// each value as a list, and the type label.
pub struct ColumnParts {
    pub reverse_symbol: Vec<String>,
    pub data: Vec<u32>,
    pub rows: Vec<Vec<u32>>,
    pub col_type: DataType,
    pub type_matches: u32,
    pub type_samples: u32,
}

impl ColumnParts {
    /// The row set of each value.
    pub open spec fn row_sets(&self) -> Seq<Set<u32>> {
        self.rows@.map_values(|v: Vec<u32>| v@.to_set())
    }

    /// Every row listed.
    pub open spec fn all_rows(&self) -> Set<u32> {
        Set::new(|r: u32| exists|i: int| 0 <= i < self.row_sets().len() && #[trigger] self.row_sets()[i].contains(r))
    }

    /// Whether these parts hold what column `c` holds.
    pub open spec fn matches(&self, c: &Column) -> bool {
        &&& views(self.reverse_symbol@) == c.values()
        &&& self.data@ == c.data@
        &&& self.row_sets() == c.row_sets()
        &&& self.col_type == c.col_type
        &&& self.type_matches == c.type_matches
        &&& self.type_samples == c.type_samples
    }

    /// Whether the parts make a well-formed column with rows below
    /// `row_count`: as `Column::wf` asks, over the listed rows.
    pub open spec fn valid(&self, row_count: u32) -> bool {
        &&& self.reverse_symbol@.len() == self.rows@.len()
        &&& self.reverse_symbol@.len() <= self.data@.len()
        &&& self.data@.len() == self.all_rows().len()
        &&& distinct(views(self.reverse_symbol@))
        &&& forall|k: int| 0 <= k < self.data@.len() ==> (#[trigger] self.data@[k] as int) < self.rows@.len()
        &&& forall|i: int, j: int|
            0 <= i < self.row_sets().len() && 0 <= j < self.row_sets().len() && i != j
                ==> #[trigger] self.row_sets()[i].disjoint(#[trigger] self.row_sets()[j])
        &&& self.all_rows().subset_of(rows_below(row_count as nat))
    }
}

/// The distinct values of `vs` in the order they are first seen.
pub open spec fn first_seen(vs: Seq<Seq<char>>) -> Seq<Seq<char>>
    decreases vs.len(),
{
    if vs.len() == 0 {
        Seq::empty()
    } else {
        let p = first_seen(vs.drop_last());
        if p.contains(vs.last()) {
            p
        } else {
            p.push(vs.last())
        }
    }
}

/// Sums of sizes only grow with more sets.
proof fn lemma_sum_lens_mono(sets: Seq<Set<u32>>, i: int, n: int)
    requires
        0 <= i <= n,
    ensures
        sum_lens(sets, i) <= sum_lens(sets, n),
    decreases n - i,
{
    if i < n {
        lemma_sum_lens_mono(sets, i, n - 1);
    }
}

impl Column {
    /// The dictionary, in identifier order.
    pub open spec fn values(&self) -> Seq<Seq<char>> {
        views(self.reverse_symbol@)
    }

    /// The row set of each identifier.
    pub open spec fn row_sets(&self) -> Seq<Set<u32>> {
        self.bitmaps@.map_values(|b: RoaringBitmap| bitmap_set(b))
    }

    /// One bitmap per dictionary value, each valid: only bitmaps built by
    /// roaring's own operations qualify, never ones decoded from bytes.
    pub open spec fn bitmaps_ok(&self) -> bool {
        &&& self.bitmaps@.len() == self.reverse_symbol@.len()
        &&& forall|i: int| 0 <= i < self.bitmaps@.len() ==> bitmap_valid(#[trigger] self.bitmaps@[i])
    }

    /// The identifier of value `v`, if it is in the dictionary.
    pub open spec fn symbol_of(&self, v: Seq<char>) -> Option<int> {
        index_in(self.values(), v)
    }

    /// The rows holding value `v`, if it is in the dictionary.
    pub open spec fn rows_of(&self, v: Seq<char>) -> Option<Set<u32>> {
        match self.symbol_of(v) {
            Some(i) => Some(self.row_sets()[i]),
            None => None,
        }
    }

    /// Every row identifier inserted into this column.
    pub open spec fn all_rows(&self) -> Set<u32> {
        Set::new(|r: u32| exists|i: int| 0 <= i < self.row_sets().len() && #[trigger] self.row_sets()[i].contains(r))
    }

    /// The dictionary is a bijection onto `0..len`, every recorded identifier is
    /// assigned, and the row sets of distinct identifiers are disjoint.
    pub open spec fn wf(&self) -> bool {
        &&& self.bitmaps_ok()
        &&& self.values().len() == self.row_sets().len()
        &&& self.reverse_symbol@.len() <= self.data@.len()
        &&& self.data@.len() == self.all_rows().len()
        &&& distinct(self.values())
        &&& forall|k: int| 0 <= k < self.data@.len() ==> (#[trigger] self.data@[k] as int) < self.values().len()
        &&& forall|i: int, j: int|
            0 <= i < self.row_sets().len() && 0 <= j < self.row_sets().len() && i != j
                ==> #[trigger] self.row_sets()[i].disjoint(#[trigger] self.row_sets()[j])
    }

    /// An empty column of type `Utf8`.
    pub fn new() -> (r: Column)
        ensures
            r.wf(),
            r.values() == Seq::<Seq<char>>::empty(),
            r.row_sets() == Seq::<Set<u32>>::empty(),
            r.data@ == Seq::<u32>::empty(),
            r.all_rows() == Set::<u32>::empty(),
            r.col_type == DataType::Utf8,
            r.type_matches == 0,
            r.type_samples == 0,
    {
        let r = Column {
            reverse_symbol: Vec::new(),
            data: Vec::new(),
            bitmaps: Vec::new(),
            col_type: DataType::Utf8,
            type_matches: 0,
            type_samples: 0,
        };
        assert(r.values() =~= Seq::<Seq<char>>::empty());
        assert(r.row_sets() =~= Seq::<Set<u32>>::empty());
        assert(r.all_rows() =~= Set::<u32>::empty());
        r
    }

    /// Records the detected type and the ratio of samples that matched it.
    pub fn set_type(&mut self, t: DataType, matches: u32, samples: u32)
        ensures
            final(self).col_type == t,
            final(self).type_matches == matches,
            final(self).type_samples == samples,
            final(self).reverse_symbol == old(self).reverse_symbol,
            final(self).data == old(self).data,
            final(self).row_sets() == old(self).row_sets(),
            final(self).bitmaps_ok() == old(self).bitmaps_ok(),
    {
        self.col_type = t;
        self.type_matches = matches;
        self.type_samples = samples;
    }

    /// Appends row `row_id` holding `value`: the value gets the next identifier
    /// if it is new, the identifier is appended to `data`, and the row joins the
    /// value's bitmap.
    pub fn insert(&mut self, value: &str, row_id: u32)
        requires
            old(self).wf(),
            !old(self).all_rows().contains(row_id),
            old(self).symbol_of(value@) is None ==> old(self).values().len() < u32::MAX,
        ensures
            final(self).wf(),
            final(self).col_type == old(self).col_type,
            final(self).type_matches == old(self).type_matches,
            final(self).type_samples == old(self).type_samples,
            final(self).all_rows() == old(self).all_rows().insert(row_id),
            final(self).values().to_set() == old(self).values().to_set().insert(value@),
            forall|vs: Seq<Seq<char>>|
                old(self).values() == first_seen(vs) ==> #[trigger] first_seen(vs.push(value@)) == final(self).values(),
            final(self).symbol_of(value@) is Some,
            forall|i: int|
                0 <= i < final(self).row_sets().len() ==> (#[trigger] final(self).row_sets()[i].contains(row_id) <==> Some(i)
                    == final(self).symbol_of(value@)),
            forall|v: Seq<char>| #[trigger] final(self).rows_of(v) == if v == value@ {
                Some(old(self).rows_of(v).unwrap_or(Set::<u32>::empty()).insert(row_id))
            } else {
                old(self).rows_of(v)
            },
            match old(self).symbol_of(value@) {
                Some(i) => {
                    &&& final(self).values() == old(self).values()
                    &&& final(self).row_sets() == old(self).row_sets().update(i, old(self).row_sets()[i].insert(row_id))
                    &&& final(self).data@ == old(self).data@.push(i as u32)
                },
                None => {
                    &&& final(self).values() == old(self).values().push(value@)
                    &&& final(self).row_sets() == old(self).row_sets().push(set![row_id])
                    &&& final(self).data@ == old(self).data@.push(old(self).values().len() as u32)
                },
            },
    {
        let ghost pre = *self;
        let found = find_name(&self.reverse_symbol, value);
        let id: usize = match found {
            Some(i) => i,
            None => {
                let new_id = self.reverse_symbol.len();
                self.reverse_symbol.push(value.to_owned());
                self.bitmaps.push(bitmap_new());
                assert(self.values() =~= pre.values().push(value@));
                assert(self.row_sets() =~= pre.row_sets().push(Set::<u32>::empty()));
                new_id
            },
        };
        self.data.push(id as u32);
        let mut b = bitmap_new();
        std::mem::swap(&mut b, &mut self.bitmaps[id]);
        bitmap_insert(&mut b, row_id);
        self.bitmaps.set(id, b);
        proof {
            let mid_sets = if found is Some { pre.row_sets() } else { pre.row_sets().push(Set::<u32>::empty()) };
            assert(self.row_sets() =~= mid_sets.update(id as int, mid_sets[id as int].insert(row_id)));
            if found is None {
                assert(set![row_id] =~= Set::<u32>::empty().insert(row_id));
                assert(self.row_sets() =~= pre.row_sets().push(set![row_id]));
            }
            assert forall|i: int, j: int|
                0 <= i < self.row_sets().len() && 0 <= j < self.row_sets().len() && i != j
                implies #[trigger] self.row_sets()[i].disjoint(#[trigger] self.row_sets()[j]) by {
                if i < pre.row_sets().len() && j < pre.row_sets().len() {
                    assert(pre.row_sets()[i].disjoint(pre.row_sets()[j]));
                }
                if i == id as int {
                    if j < pre.row_sets().len() {
                        assert(!pre.row_sets()[j].contains(row_id));
                    }
                }
                if j == id as int {
                    if i < pre.row_sets().len() {
                        assert(!pre.row_sets()[i].contains(row_id));
                    }
                }
            }
            assert forall|r: u32| #[trigger] self.all_rows().contains(r) == pre.all_rows().insert(row_id).contains(r) by {
                if pre.all_rows().contains(r) {
                    let i = choose|i: int| 0 <= i < pre.row_sets().len() && #[trigger] pre.row_sets()[i].contains(r);
                    assert(self.row_sets()[i].contains(r));
                }
                if r == row_id {
                    assert(self.row_sets()[id as int].contains(r));
                }
                if self.all_rows().contains(r) {
                    let i = choose|i: int| 0 <= i < self.row_sets().len() && #[trigger] self.row_sets()[i].contains(r);
                    if i != id as int {
                        assert(pre.row_sets()[i].contains(r));
                    } else if r != row_id && found is Some {
                        assert(pre.row_sets()[i].contains(r));
                    }
                }
            }
            assert(self.all_rows() =~= pre.all_rows().insert(row_id));
            lemma_u32_set_finite(pre.all_rows());
            lemma_index_in(self.values(), id as int);
            assert forall|v: Seq<char>| #[trigger] self.values().to_set().contains(v) == pre.values().to_set().insert(value@).contains(v) by {
                if self.values().to_set().contains(v) {
                    let k = choose|k: int| 0 <= k < self.values().len() && self.values()[k] == v;
                    if k < pre.values().len() {
                        assert(pre.values()[k] == v);
                    }
                }
                if pre.values().to_set().contains(v) {
                    let k = choose|k: int| 0 <= k < pre.values().len() && pre.values()[k] == v;
                    assert(self.values()[k] == v);
                }
                if v == value@ {
                    assert(self.values()[id as int] == v);
                }
            }
            assert(self.values().to_set() =~= pre.values().to_set().insert(value@));
            assert forall|vs: Seq<Seq<char>>|
                pre.values() == first_seen(vs) implies #[trigger] first_seen(vs.push(value@)) == self.values() by {
                assert(vs.push(value@).drop_last() =~= vs);
                if found is Some {
                    assert(pre.values()[id as int] == value@);
                } else {
                    assert(!pre.values().contains(value@));
                }
            }
            assert forall|i: int|
                0 <= i < self.row_sets().len() implies (#[trigger] self.row_sets()[i].contains(row_id) <==> Some(i)
                    == self.symbol_of(value@)) by {
                if i != id as int && i < pre.row_sets().len() {
                    assert(pre.row_sets()[i] == self.row_sets()[i]);
                    assert(!pre.all_rows().contains(row_id));
                    if pre.row_sets()[i].contains(row_id) {
                        assert(pre.all_rows().contains(row_id));
                    }
                }
            }
            assert forall|v: Seq<char>| #[trigger] self.rows_of(v) == if v == value@ {
                Some(pre.rows_of(v).unwrap_or(Set::<u32>::empty()).insert(row_id))
            } else {
                pre.rows_of(v)
            } by {
                if v != value@ {
                    if pre.symbol_of(v) is Some {
                        let k = pre.symbol_of(v).unwrap();
                        lemma_index_in(pre.values(), k);
                        lemma_index_in(self.values(), k);
                    } else {
                        assert forall|k: int| 0 <= k < self.values().len() implies self.values()[k] != v by {
                            if k < pre.values().len() && pre.values()[k] == v {
                                lemma_index_in(pre.values(), k);
                            }
                        }
                    }
                }
            }
        }
    }

    /// Whether the column is well formed and holds only rows below `row_count`.
    fn is_valid(&self) -> (r: bool)
        requires
            self.bitmaps_ok(),
        ensures
            r == self.wf(),
    {
        let n = self.reverse_symbol.len();
        if n != self.bitmaps.len() || n > self.data.len() {
            return false;
        }
        let ghost vals = self.values();
        let ghost sets = self.row_sets();
        assert(self.all_rows() =~= union_upto(sets, n as int));
        let mut i: usize = 0;
        while i < n
            invariant
                n == self.reverse_symbol@.len(),
                vals == self.values(),
                i <= n,
                forall|a: int, b: int| 0 <= a < i && 0 <= b < n && a != b ==> vals[a] != vals[b],
            decreases n - i,
        {
            let mut j: usize = 0;
            while j < n
                invariant
                    n == self.reverse_symbol@.len(),
                    vals == self.values(),
                    i < n,
                    j <= n,
                    forall|a: int, b: int| 0 <= a < i && 0 <= b < n && a != b ==> vals[a] != vals[b],
                    forall|b: int| 0 <= b < j && b != i ==> vals[i as int] != vals[b],
                decreases n - j,
            {
                assert(vals[i as int] == self.reverse_symbol@[i as int]@);
                assert(vals[j as int] == self.reverse_symbol@[j as int]@);
                if j != i && self.reverse_symbol[i] == self.reverse_symbol[j] {
                    return false;
                }
                j = j + 1;
            }
            i = i + 1;
        }
        let mut k: usize = 0;
        while k < self.data.len()
            invariant
                n == self.reverse_symbol@.len(),
                vals == self.values(),
                k <= self.data@.len(),
                forall|a: int| 0 <= a < k ==> (#[trigger] self.data@[a] as int) < vals.len(),
            decreases self.data@.len() - k,
        {
            if self.data[k] as usize >= n {
                return false;
            }
            k = k + 1;
        }
        i = 0;
        while i < n
            invariant
                n == self.bitmaps@.len(),
                sets == self.row_sets(),
                i <= n,
                forall|a: int, b: int| 0 <= a < i && 0 <= b < n && a != b ==> #[trigger] sets[a].disjoint(#[trigger] sets[b]),
                forall|a: int| 0 <= a < n ==> bitmap_valid(#[trigger] self.bitmaps@[a]),
            decreases n - i,
        {
            let mut j: usize = 0;
            while j < n
                invariant
                    n == self.bitmaps@.len(),
                    sets == self.row_sets(),
                    i < n,
                    j <= n,
                    forall|a: int, b: int| 0 <= a < i && 0 <= b < n && a != b ==> #[trigger] sets[a].disjoint(#[trigger] sets[b]),
                    forall|b: int| 0 <= b < j && b != i ==> sets[i as int].disjoint(#[trigger] sets[b]),
                    forall|a: int| 0 <= a < n ==> bitmap_valid(#[trigger] self.bitmaps@[a]),
                decreases n - j,
            {
                assert(sets[i as int] == bitmap_set(self.bitmaps@[i as int]));
                assert(sets[j as int] == bitmap_set(self.bitmaps@[j as int]));
                if j != i && !bitmap_is_disjoint(&self.bitmaps[i], &self.bitmaps[j]) {
                    return false;
                }
                j = j + 1;
            }
            i = i + 1;
        }
        let dl = self.data.len() as u64;
        let mut total: u64 = 0;
        i = 0;
        while i < n
            invariant
                n == self.bitmaps@.len(),
                sets == self.row_sets(),
                dl == self.data@.len(),
                i <= n,
                total == sum_lens(sets, i as int),
                total <= dl,
                forall|a: int| 0 <= a < n ==> bitmap_valid(#[trigger] self.bitmaps@[a]),
            decreases n - i,
        {
            assert(sets[i as int] == bitmap_set(self.bitmaps@[i as int]));
            let l = bitmap_len(&self.bitmaps[i]);
            if l > dl - total {
                proof {
                    lemma_sum_lens_mono(sets, i as int + 1, n as int);
                    if self.wf() {
                        lemma_disjoint_union_len(sets, n as int);
                    }
                }
                return false;
            }
            total = total + l;
            i = i + 1;
        }
        proof {
            lemma_disjoint_union_len(sets, n as int);
        }
        total == dl
    }

    /// Whether two columns hold the same dictionary, rows and type label.
    pub open spec fn same_view(&self, other: &Column) -> bool {
        &&& self.values() == other.values()
        &&& self.data@ == other.data@
        &&& self.row_sets() == other.row_sets()
        &&& self.col_type == other.col_type
        &&& self.type_matches == other.type_matches
        &&& self.type_samples == other.type_samples
    }

    /// The dictionary holds each value once: its size is the number of
    /// distinct values in it, and `insert` adds exactly the values not yet
    /// seen.
    pub proof fn lemma_dictionary_size(&self)
        requires
            self.wf(),
        ensures
            self.values().to_set().len() == self.values().len(),
            self.values().no_duplicates(),
    {
        assert(self.values().no_duplicates());
        self.values().unique_seq_to_set();
    }

    /// Every row inserted into the column lies in exactly one value's row set,
    /// and the row sets hold nothing else.
    pub proof fn lemma_partition(&self, r: u32)
        requires
            self.wf(),
        ensures
            self.all_rows().contains(r) <==> exists|i: int| 0 <= i < self.row_sets().len() && #[trigger] self.row_sets()[i].contains(r),
            self.all_rows().contains(r) ==> exists|i: int|
                0 <= i < self.row_sets().len() && self.row_sets()[i].contains(r) && forall|j: int|
                    0 <= j < self.row_sets().len() && j != i ==> !(#[trigger] self.row_sets()[j]).contains(r),
    {
        if self.all_rows().contains(r) {
            let i = choose|i: int| 0 <= i < self.row_sets().len() && #[trigger] self.row_sets()[i].contains(r);
            assert forall|j: int| 0 <= j < self.row_sets().len() && j != i implies !(#[trigger] self.row_sets()[j]).contains(r) by {
                assert(self.row_sets()[i].disjoint(self.row_sets()[j]));
            }
        }
    }

    /// The number of dictionary values.
    pub fn symbol_count(&self) -> (r: usize)
        requires
            self.wf(),
        ensures
            r == self.row_sets().len(),
    {
        self.bitmaps.len()
    }

    /// The bitmap of the value with identifier `i`.
    pub fn bitmap(&self, i: usize) -> (r: &RoaringBitmap)
        requires
            self.wf(),
            i < self.row_sets().len(),
        ensures
            bitmap_set(*r) == self.row_sets()[i as int],
            bitmap_valid(*r),
    {
        &self.bitmaps[i]
    }

    /// The rows of the value with identifier `i`, in ascending order.
    pub fn symbol_rows(&self, i: usize) -> (r: Vec<u32>)
        requires
            self.wf(),
            i < self.row_sets().len(),
        ensures
            r@.to_set() == self.row_sets()[i as int],
            forall|a: int, b: int| 0 <= a < b < r@.len() ==> r@[a] < r@[b],
    {
        bitmap_to_vec(&self.bitmaps[i])
    }

    /// The column as plain values.
    pub fn to_parts(&self) -> (p: ColumnParts)
        requires
            self.wf(),
        ensures
            p.matches(self),
            forall|n: u32| self.all_rows().subset_of(rows_below(n as nat)) ==> p.valid(n),
    {
        let reverse_symbol = copy_prefix(&self.reverse_symbol, self.reverse_symbol.len());
        let mut data: Vec<u32> = Vec::new();
        let mut k: usize = 0;
        while k < self.data.len()
            invariant
                k <= self.data@.len(),
                data@ == self.data@.take(k as int),
            decreases self.data@.len() - k,
        {
            data.push(self.data[k]);
            k = k + 1;
            assert(data@ =~= self.data@.take(k as int));
        }
        let mut rows: Vec<Vec<u32>> = Vec::new();
        k = 0;
        while k < self.bitmaps.len()
            invariant
                self.wf(),
                k <= self.bitmaps@.len(),
                rows@.len() == k,
                forall|i: int| 0 <= i < k ==> (#[trigger] rows@[i])@.to_set() == self.row_sets()[i],
            decreases self.bitmaps@.len() - k,
        {
            rows.push(self.symbol_rows(k));
            k = k + 1;
        }
        let p = ColumnParts {
            reverse_symbol,
            data,
            rows,
            col_type: self.col_type,
            type_matches: self.type_matches,
            type_samples: self.type_samples,
        };
        assert(views(self.reverse_symbol@).take(self.reverse_symbol@.len() as int) == views(self.reverse_symbol@));
        assert(p.data@ =~= self.data@);
        assert(p.row_sets() =~= self.row_sets());
        assert(p.all_rows() =~= self.all_rows());
        p
    }

    /// The column that parts describe, with bitmaps built here, if the parts
    /// are valid for `row_count` rows.
    pub fn from_parts(p: ColumnParts, row_count: u32) -> (r: Option<Column>)
        ensures
            r is Some <==> p.valid(row_count),
            r matches Some(c) ==> c.wf() && p.matches(&c) && c.all_rows().subset_of(rows_below(row_count as nat)),
    {
        let ghost gp = p;
        let ColumnParts { reverse_symbol, data, rows, col_type, type_matches, type_samples } = p;
        let mut bitmaps: Vec<RoaringBitmap> = Vec::new();
        let mut i: usize = 0;
        while i < rows.len()
            invariant
                gp == p,
                rows == gp.rows,
                i <= rows@.len(),
                bitmaps@.len() == i,
                forall|k: int| 0 <= k < i ==> bitmap_valid(#[trigger] bitmaps@[k]),
                forall|k: int| 0 <= k < i ==> bitmap_set(#[trigger] bitmaps@[k]) == gp.row_sets()[k],
                forall|k: int| 0 <= k < i ==> (#[trigger] gp.row_sets()[k]).subset_of(rows_below(row_count as nat)),
            decreases rows@.len() - i,
        {
            let list = &rows[i];
            let mut b = bitmap_new();
            let mut j: usize = 0;
            while j < list.len()
                invariant
                    gp == p,
                    rows == gp.rows,
                    i < rows@.len(),
                    list@ == gp.rows@[i as int]@,
                    bitmaps@.len() == i,
                    forall|k: int| 0 <= k < i ==> bitmap_valid(#[trigger] bitmaps@[k]),
                    forall|k: int| 0 <= k < i ==> bitmap_set(#[trigger] bitmaps@[k]) == gp.row_sets()[k],
                    forall|k: int| 0 <= k < i ==> (#[trigger] gp.row_sets()[k]).subset_of(rows_below(row_count as nat)),
                    j <= list@.len(),
                    bitmap_valid(b),
                    bitmap_set(b) == list@.take(j as int).to_set(),
                    forall|m: int| 0 <= m < j ==> list@[m] < row_count,
                decreases list@.len() - j,
            {
                let x = list[j];
                if x >= row_count {
                    proof {
                        assert(gp.row_sets()[i as int] == list@.to_set());
                        assert(list@.to_set().contains(list@[j as int]));
                        assert(gp.row_sets()[i as int].contains(x));
                        assert(gp.all_rows().contains(x));
                        assert(!rows_below(row_count as nat).contains(x));
                    }
                    return None;
                }
                bitmap_insert(&mut b, x);
                j = j + 1;
                assert(list@.take(j as int) =~= list@.take(j - 1).push(x));
                assert forall|y: u32| #[trigger] list@.take(j as int).to_set().contains(y) == list@.take(j - 1).to_set().insert(x).contains(y) by {
                    if list@.take(j as int).contains(y) {
                        let k = choose|k: int| 0 <= k < j && #[trigger] list@.take(j as int)[k] == y;
                        if k < j - 1 {
                            assert(list@.take(j - 1)[k] == y);
                        }
                    }
                    if list@.take(j - 1).contains(y) {
                        let k = choose|k: int| 0 <= k < j - 1 && #[trigger] list@.take(j - 1)[k] == y;
                        assert(list@.take(j as int)[k] == y);
                    }
                    if y == x {
                        assert(list@.take(j as int)[j - 1] == y);
                    }
                }
                assert(list@.take(j as int).to_set() =~= list@.take(j - 1).to_set().insert(x));
            }
            proof {
                assert(list@.take(j as int) =~= list@);
                assert(gp.row_sets()[i as int] == list@.to_set());
            }
            bitmaps.push(b);
            i = i + 1;
        }
        if reverse_symbol.len() != bitmaps.len() {
            return None;
        }
        let c = Column { reverse_symbol, data, bitmaps, col_type, type_matches, type_samples };
        proof {
            assert(c.row_sets() =~= gp.row_sets());
            assert(c.all_rows() =~= gp.all_rows());
            assert forall|x: u32| c.all_rows().contains(x) implies rows_below(row_count as nat).contains(x) by {
                let k = choose|k: int| 0 <= k < c.row_sets().len() && #[trigger] c.row_sets()[k].contains(x);
                assert(gp.row_sets()[k].subset_of(rows_below(row_count as nat)));
            }
        }
        if c.is_valid() {
            Some(c)
        } else {
            None
        }
    }
}

} // verus!
