//! The column store, the selection store, and filter resolution over them.
use crate::bitmap::{
    bitmap_and_assign, bitmap_clone, bitmap_is_disjoint, bitmap_is_empty, bitmap_len, bitmap_new,
    bitmap_set, bitmap_to_vec, bitmap_valid, bitmap_xor_assign, lemma_below_len_bound, rows_below, sym_diff,
};
use crate::column::{Column, ColumnParts, DataType};
use crate::names::{
    copy_prefix, distinct, find_name, first_index, index_in, is_first, lemma_first_index,
    lemma_index_in, views,
};
use crate::sniffer::{best_type, detect_column_type};
use roaring::RoaringBitmap;
use vstd::prelude::*;

verus! {

/// State of a value whose rows overlap its own field's selection.
pub const SELECTED: u8 = 2;

/// State of a value that is not selected but still meets every other field's selection.
pub const POSSIBLE: u8 = 1;

/// State of a value ruled out by the other fields' selections, or unknown.
pub const EXCLUDED: u8 = 0;

/// How many dictionary values `get_top_values` lists at most.
pub const TOP_VALUES: usize = 15;

/// How many dictionary values type detection samples at most.
pub const TYPE_SAMPLES: usize = 100;

/// What a toggle did.
#[derive(Debug, Clone, Copy, PartialEq, Eq, Structural)]
pub enum ToggleStatus {
    /// The field has no selection left.
    Cleared,
    /// The field's selection changed and is not empty.
    Updated,
    /// No column has that name; nothing changed.
    FieldNotFound,
    /// The column has no such value; nothing changed.
    ValueNotFound,
}

/// The engine: a store of named columns with a global row counter
/// (persisted data), and per-field selections (session state).
pub struct TarsEngine {
    col_names: Vec<String>,
    columns: Vec<Column>,
    row_count: u32,
    sel_names: Vec<String>,
    sel_bitmaps: Vec<RoaringBitmap>,
}

/// Why a column store was refused.
#[derive(Debug, Clone, Copy, PartialEq, Eq, Structural)]
pub enum ImportError {
    /// The names, columns and row counter do not make a valid column store.
    Malformed,
}

/// Whether field names, columns and a row counter make a valid column store:
/// as many names as columns, no name twice, and every column well formed
/// with rows below the counter.
pub open spec fn store_valid(names: Seq<Seq<char>>, columns: Seq<ColumnParts>, row_count: u32) -> bool {
    &&& names.len() == columns.len()
    &&& distinct(names)
    &&& forall|i: int| 0 <= i < columns.len() ==> (#[trigger] columns[i]).valid(row_count)
}

/// The rows `start..end` of a page that skips `offset` of `total` rows and
/// keeps at most `limit`.
pub fn page_bounds(total: usize, offset: usize, limit: usize) -> (r: (usize, usize))
    ensures
        r.0 == if offset >= total {
            total
        } else {
            offset
        },
        r.1 == if r.0 + limit > total {
            total as int
        } else {
            r.0 + limit
        },
{
    let start = if offset >= total {
        total
    } else {
        offset
    };
    let end = if limit > total - start {
        total
    } else {
        start + limit
    };
    (start, end)
}

/// Whether column `after` is what type detection makes of column `c` with
/// numeric flags `flags`: typed from its samples when `c` is still `Utf8` and
/// the flags match its samples in number, else unchanged.
pub open spec fn classified(c: Column, flags: Seq<bool>, after: Column) -> bool {
    if c.col_type == DataType::Utf8 && flags.len() == vstd::math::min(c.values().len() as int, TYPE_SAMPLES as int) {
        let b = best_type(c.values().take(flags.len() as int), flags, 10);
        &&& after.col_type == b.0
        &&& after.type_matches == b.1
        &&& after.type_samples == flags.len()
        &&& after.values() == c.values()
        &&& after.row_sets() == c.row_sets()
        &&& after.data@ == c.data@
    } else {
        after == c
    }
}

/// The selection after toggling a value with rows `b` into selection `s`.
pub open spec fn toggled(s: Option<Set<u32>>, b: Set<u32>) -> Option<Set<u32>> {
    let n = sym_diff(s.unwrap_or(Set::<u32>::empty()), b);
    if n == Set::<u32>::empty() {
        None
    } else {
        Some(n)
    }
}

/// The value that `record` gives field `g`: the cell under the first header
/// column named `g`, if the record reaches that column.
pub open spec fn record_cell(header: Seq<Seq<char>>, record: Seq<Seq<char>>, g: Seq<char>) -> Option<Seq<char>> {
    match first_index(header, g) {
        Some(i) => if i < record.len() {
            Some(record[i])
        } else {
            None
        },
        None => None,
    }
}

impl TarsEngine {
    /// The names of the columns, in store order.
    pub closed spec fn field_names(&self) -> Seq<Seq<char>> {
        views(self.col_names@)
    }

    /// The number of ingested rows.
    pub closed spec fn rows(&self) -> nat {
        self.row_count as nat
    }

    /// The column named `f`.
    pub closed spec fn column(&self, f: Seq<char>) -> Option<Column> {
        match index_in(self.field_names(), f) {
            Some(i) => Some(self.columns@[i]),
            None => None,
        }
    }

    /// The rows holding value `v` in field `f`, if both are known.
    pub open spec fn value_rows(&self, f: Seq<char>, v: Seq<char>) -> Option<Set<u32>> {
        match self.column(f) {
            Some(c) => c.rows_of(v),
            None => None,
        }
    }

    closed spec fn sel_keys(&self) -> Seq<Seq<char>> {
        views(self.sel_names@)
    }

    closed spec fn sel_sets(&self) -> Seq<Set<u32>> {
        self.sel_bitmaps@.map_values(|b: RoaringBitmap| bitmap_set(b))
    }

    /// The selection of field `f`: absent when nothing is selected there.
    pub closed spec fn selection(&self, f: Seq<char>) -> Option<Set<u32>> {
        match index_in(self.sel_keys(), f) {
            Some(i) => Some(self.sel_sets()[i]),
            None => None,
        }
    }

    /// The selection store as a map from field name to selected rows.
    pub open spec fn selections(&self) -> Map<Seq<char>, Set<u32>> {
        Map::new(|f: Seq<char>| self.selection(f) is Some, |f: Seq<char>| self.selection(f).unwrap())
    }

    /// Whether field `f` contributes to a filter that leaves out `ex`.
    pub open spec fn contributes(&self, f: Seq<char>, ex: Option<Seq<char>>) -> bool {
        self.selection(f) is Some && ex != Some(f)
    }

    /// The intersection of the selections of every field but `ex`; absent
    /// (no filter) when no such field has a selection.
    pub open spec fn combined(&self, ex: Option<Seq<char>>) -> Option<Set<u32>> {
        if exists|f: Seq<char>| self.contributes(f, ex) {
            Some(
                Set::new(
                    |r: u32|
                        forall|f: Seq<char>| #[trigger] self.contributes(f, ex) ==> self.selection(f).unwrap().contains(r),
                ),
            )
        } else {
            None
        }
    }

    /// The tri-state classification of value `v` in field `f`.
    pub open spec fn state(&self, f: Seq<char>, v: Seq<char>) -> u8 {
        match self.value_rows(f, v) {
            None => EXCLUDED,
            Some(b) => {
                if self.selection(f) is Some && !b.disjoint(self.selection(f).unwrap()) {
                    SELECTED
                } else {
                    match self.combined(Some(f)) {
                        None => POSSIBLE,
                        Some(c) => if !b.disjoint(c) {
                            POSSIBLE
                        } else {
                            EXCLUDED
                        },
                    }
                }
            },
        }
    }

    /// The rows of value `v` in field `f` that pass every active selection.
    pub open spec fn count(&self, f: Seq<char>, v: Seq<char>) -> nat {
        match self.value_rows(f, v) {
            None => 0,
            Some(b) => match self.combined(None) {
                Some(c) => b.intersect(c).len(),
                None => b.len(),
            },
        }
    }

    /// The rows of value `v` in field `f`, ignoring the selections.
    pub open spec fn global_count(&self, f: Seq<char>, v: Seq<char>) -> nat {
        match self.value_rows(f, v) {
            None => 0,
            Some(b) => b.len(),
        }
    }

    /// The rows that pass every active selection.
    pub open spec fn total_filtered(&self) -> nat {
        match self.combined(None) {
            Some(c) => c.len(),
            None => self.rows(),
        }
    }

    /// Column names are distinct, each column is well formed and holds rows
    /// below the row counter; selected fields are distinct, and each selection
    /// is a non-empty set of rows below the row counter.
    pub closed spec fn wf(&self) -> bool {
        &&& self.col_names@.len() == self.columns@.len()
        &&& distinct(self.field_names())
        &&& forall|i: int| 0 <= i < self.columns@.len() ==> (#[trigger] self.columns@[i]).wf()
        &&& forall|i: int|
            0 <= i < self.columns@.len() ==> (#[trigger] self.columns@[i]).all_rows().subset_of(
                rows_below(self.row_count as nat),
            )
        &&& self.sel_names@.len() == self.sel_bitmaps@.len()
        &&& distinct(self.sel_keys())
        &&& forall|i: int| 0 <= i < self.sel_sets().len() ==> #[trigger] self.sel_sets()[i] != Set::<u32>::empty()
        &&& forall|i: int|
            0 <= i < self.sel_sets().len() ==> (#[trigger] self.sel_sets()[i]).subset_of(
                rows_below(self.row_count as nat),
            )
        &&& forall|i: int| 0 <= i < self.sel_bitmaps@.len() ==> bitmap_valid(#[trigger] self.sel_bitmaps@[i])
    }

    /// An empty engine with no selection.
    pub fn new() -> (r: TarsEngine)
        ensures
            r.wf(),
            r.rows() == 0,
            r.field_names() == Seq::<Seq<char>>::empty(),
            r.store_columns() == Seq::<Column>::empty(),
            forall|f: Seq<char>| #[trigger] r.column(f) is None,
            forall|f: Seq<char>, v: Seq<char>| #[trigger] r.value_rows(f, v) is None,
            forall|f: Seq<char>| #[trigger] r.selection(f) is None,
            r.selections() == Map::<Seq<char>, Set<u32>>::empty(),
    {
        let r = TarsEngine {
            col_names: Vec::new(),
            columns: Vec::new(),
            row_count: 0,
            sel_names: Vec::new(),
            sel_bitmaps: Vec::new(),
        };
        assert(r.field_names() =~= Seq::<Seq<char>>::empty());
        assert(r.selections() =~= Map::<Seq<char>, Set<u32>>::empty());
        r
    }

    /// The selection entry of field `f` sits at position `i`.
    proof fn lemma_selection_at(&self, i: int)
        requires
            self.wf(),
            0 <= i < self.sel_sets().len(),
        ensures
            self.selection(self.sel_keys()[i]) == Some(self.sel_sets()[i]),
            self.sel_keys()[i] == self.sel_names@[i]@,
    {
        lemma_index_in(self.sel_keys(), i);
    }

    /// A field with a selection has its entry at some position.
    proof fn lemma_selection_some(&self, f: Seq<char>) -> (i: int)
        requires
            self.wf(),
            self.selection(f) is Some,
        ensures
            0 <= i < self.sel_sets().len(),
            self.sel_keys()[i] == f,
            self.selection(f) == Some(self.sel_sets()[i]),
    {
        let i = index_in(self.sel_keys(), f).unwrap();
        i
    }

    /// The intersection of the selections of every field but `exclude_field`,
    /// or `None` when no such field has a selection.
    fn get_combined_filter(&self, exclude_field: Option<&str>) -> (r: Option<RoaringBitmap>)
        requires
            self.wf(),
        ensures
            match exclude_field {
                Some(e) => self.combined(Some(e@)),
                None => self.combined(None),
            } == match r {
                Some(b) => Some(bitmap_set(b)),
                None => None::<Set<u32>>,
            },
            r is Some ==> bitmap_valid(r.unwrap()),
    {
        let ghost ex: Option<Seq<char>> = match exclude_field {
            Some(e) => Some(e@),
            None => None,
        };
        let ex_name: Option<String> = match exclude_field {
            Some(e) => Some(e.to_owned()),
            None => None,
        };
        let mut result: Option<RoaringBitmap> = None;
        let mut i: usize = 0;
        while i < self.sel_names.len()
            invariant
                self.wf(),
                0 <= i <= self.sel_names@.len(),
                ex == match ex_name {
                    Some(s) => Some(s@),
                    None => None::<Seq<char>>,
                },
                result is None <==> (forall|j: int| 0 <= j < i ==> Some(#[trigger] self.sel_keys()[j]) == ex),
                result is Some ==> bitmap_valid(result.unwrap()),
                result is Some ==> forall|x: u32|
                    bitmap_set(result.unwrap()).contains(x) <==> (forall|j: int|
                        0 <= j < i && Some(#[trigger] self.sel_keys()[j]) != ex ==> self.sel_sets()[j].contains(x)),
            decreases self.sel_names@.len() - i,
        {
            let skip = match &ex_name {
                Some(e) => self.sel_names[i] == *e,
                None => false,
            };
            assert(self.sel_keys()[i as int] == self.sel_names@[i as int]@);
            if !skip {
                let bm = &self.sel_bitmaps[i];
                match result {
                    None => {
                        result = Some(bitmap_clone(bm));
                    },
                    Some(mut acc) => {
                        bitmap_and_assign(&mut acc, bm);
                        result = Some(acc);
                    },
                }
            }
            i = i + 1;
        }
        proof {
            let n = self.sel_sets().len();
            if result is None {
                assert forall|f: Seq<char>| !self.contributes(f, ex) by {
                    if self.selection(f) is Some {
                        let k = self.lemma_selection_some(f);
                    }
                }
            } else {
                let j = choose|j: int| 0 <= j < n && Some(#[trigger] self.sel_keys()[j]) != ex;
                self.lemma_selection_at(j);
                assert(self.contributes(self.sel_keys()[j], ex));
                let c = self.combined(ex).unwrap();
                assert forall|x: u32| c.contains(x) <==> bitmap_set(result.unwrap()).contains(x) by {
                    if c.contains(x) {
                        assert forall|j: int| 0 <= j < n && Some(#[trigger] self.sel_keys()[j]) != ex implies self.sel_sets()[j].contains(x) by {
                            self.lemma_selection_at(j);
                            assert(self.contributes(self.sel_keys()[j], ex));
                        }
                    }
                    if bitmap_set(result.unwrap()).contains(x) {
                        assert forall|f: Seq<char>| #[trigger] self.contributes(f, ex) implies self.selection(f).unwrap().contains(x) by {
                            let k = self.lemma_selection_some(f);
                        }
                    }
                }
                assert(c =~= bitmap_set(result.unwrap()));
            }
        }
        result
    }

    /// The bitmap of value `value` in field `field`, if both are known.
    fn value_bitmap(&self, field: &str, value: &str) -> (r: Option<&RoaringBitmap>)
        requires
            self.wf(),
        ensures
            self.value_rows(field@, value@) == match r {
                Some(b) => Some(bitmap_set(*b)),
                None => None::<Set<u32>>,
            },
            r is Some ==> bitmap_set(*r.unwrap()).subset_of(rows_below(self.rows())),
            r is Some ==> bitmap_valid(*r.unwrap()),
    {
        match find_name(&self.col_names, field) {
            None => None,
            Some(ci) => {
                let col = &self.columns[ci];
                assert(col.wf());
                assert(self.column(field@) == Some(*col));
                match find_name(&col.reverse_symbol, value) {
                    None => None,
                    Some(vi) => {
                        let b = col.bitmap(vi);
                        proof {
                            assert(col.rows_of(value@) == Some(bitmap_set(*b)));
                            assert forall|x: u32| bitmap_set(*b).contains(x) implies rows_below(self.rows()).contains(x) by {
                                assert(col.row_sets()[vi as int].contains(x));
                                assert(col.all_rows().contains(x));
                            }
                        }
                        Some(b)
                    },
                }
            },
        }
    }

    /// The combined filter with no field left out lies below the row counter.
    proof fn lemma_combined_bounded(&self, ex: Option<Seq<char>>)
        requires
            self.wf(),
            self.combined(ex) is Some,
        ensures
            self.combined(ex).unwrap().subset_of(rows_below(self.rows())),
            self.combined(ex).unwrap().len() <= self.rows(),
    {
        let f = choose|f: Seq<char>| self.contributes(f, ex);
        let k = self.lemma_selection_some(f);
        assert(self.sel_sets()[k].subset_of(rows_below(self.rows())));
        lemma_below_len_bound(self.combined(ex).unwrap(), self.rows());
    }

    /// Classifies value `value` of field `field`: `SELECTED` when its rows
    /// overlap the field's own selection, else `POSSIBLE` when no other field
    /// has a selection or its rows meet their intersection, else `EXCLUDED`.
    /// An unknown field or value is `EXCLUDED`.
    pub fn get_state(&self, field: &str, value: &str) -> (r: u8)
        requires
            self.wf(),
        ensures
            r == self.state(field@, value@),
    {
        let val_bitmap = match self.value_bitmap(field, value) {
            Some(b) => b,
            None => return EXCLUDED,
        };
        match find_name(&self.sel_names, field) {
            Some(si) => {
                assert(self.sel_sets()[si as int] == bitmap_set(self.sel_bitmaps@[si as int]));
                if !bitmap_is_disjoint(val_bitmap, &self.sel_bitmaps[si]) {
                    return SELECTED;
                }
            },
            None => {},
        }
        match self.get_combined_filter(Some(field)) {
            None => POSSIBLE,
            Some(global_filter) => {
                if !bitmap_is_disjoint(val_bitmap, &global_filter) {
                    POSSIBLE
                } else {
                    EXCLUDED
                }
            },
        }
    }

    /// The rows of value `value` in field `field` that pass every active
    /// selection, this field's own included; 0 for an unknown field or value.
    pub fn query_count(&self, field: &str, value: &str) -> (r: u32)
        requires
            self.wf(),
        ensures
            r as nat == self.count(field@, value@),
    {
        let field_bitmap = match self.value_bitmap(field, value) {
            Some(b) => b,
            None => return 0,
        };
        let all_filters = self.get_combined_filter(None);
        proof {
            lemma_below_len_bound(bitmap_set(*field_bitmap), self.rows());
        }
        match all_filters {
            Some(filter) => {
                let mut both = bitmap_clone(field_bitmap);
                bitmap_and_assign(&mut both, &filter);
                proof {
                    crate::bitmap::lemma_u32_set_finite(bitmap_set(*field_bitmap));
                    vstd::set_lib::lemma_len_subset(bitmap_set(both), bitmap_set(*field_bitmap));
                }
                bitmap_len(&both) as u32
            },
            None => bitmap_len(field_bitmap) as u32,
        }
    }

    /// The rows of value `value` in field `field`, ignoring every selection;
    /// 0 for an unknown field or value.
    pub fn query_global_count(&self, field: &str, value: &str) -> (r: u32)
        requires
            self.wf(),
        ensures
            r as nat == self.global_count(field@, value@),
    {
        match self.value_bitmap(field, value) {
            Some(b) => {
                proof {
                    lemma_below_len_bound(bitmap_set(*b), self.rows());
                }
                bitmap_len(b) as u32
            },
            None => 0,
        }
    }

    /// The rows that pass every active selection; every row when there is none.
    pub fn get_total_filtered(&self) -> (r: u32)
        requires
            self.wf(),
        ensures
            r as nat == self.total_filtered(),
    {
        match self.get_combined_filter(None) {
            Some(filter) => {
                proof {
                    self.lemma_combined_bounded(None);
                }
                bitmap_len(&filter) as u32
            },
            None => self.row_count,
        }
    }

    /// Toggles value `value` of field `field` in the selection store: the
    /// field's selection becomes its symmetric difference with the value's
    /// rows, and an empty result removes the field's entry. An unknown field
    /// or value changes nothing.
    pub fn toggle_selection(&mut self, field: &str, value: &str) -> (r: ToggleStatus)
        requires
            old(self).wf(),
        ensures
            final(self).wf(),
            final(self).rows() == old(self).rows(),
            final(self).field_names() == old(self).field_names(),
            final(self).store_columns() == old(self).store_columns(),
            forall|g: Seq<char>| #[trigger] final(self).column(g) == old(self).column(g),
            forall|g: Seq<char>, v: Seq<char>| #[trigger] final(self).value_rows(g, v) == old(self).value_rows(g, v),
            old(self).column(field@) is None ==> r == ToggleStatus::FieldNotFound && *final(self) == *old(self),
            old(self).column(field@) is Some && old(self).value_rows(field@, value@) is None ==> r
                == ToggleStatus::ValueNotFound && *final(self) == *old(self),
            old(self).value_rows(field@, value@) is Some ==> {
                &&& final(self).selection(field@) == toggled(
                    old(self).selection(field@),
                    old(self).value_rows(field@, value@).unwrap(),
                )
                &&& r == if final(self).selection(field@) is None {
                    ToggleStatus::Cleared
                } else {
                    ToggleStatus::Updated
                }
            },
            forall|g: Seq<char>| g != field@ ==> #[trigger] final(self).selection(g) == old(self).selection(g),
    {
        if find_name(&self.col_names, field).is_none() {
            return ToggleStatus::FieldNotFound;
        }
        let vb = match self.value_bitmap(field, value) {
            Some(b) => bitmap_clone(b),
            None => return ToggleStatus::ValueNotFound,
        };
        let ghost pre = *self;
        let ghost b = bitmap_set(vb);
        let ghost f = field@;
        let ghost rc = rows_below(self.rows());
        assert(sym_diff(Set::<u32>::empty(), b) =~= b);
        match find_name(&self.sel_names, field) {
            Some(si) => {
                let ghost old_sel = pre.sel_sets()[si as int];
                assert(pre.selection(f) == Some(old_sel));
                let mut sel = bitmap_new();
                std::mem::swap(&mut sel, &mut self.sel_bitmaps[si]);
                assert(bitmap_set(sel) == old_sel);
                bitmap_xor_assign(&mut sel, &vb);
                if bitmap_is_empty(&sel) {
                    self.sel_names.remove(si);
                    self.sel_bitmaps.remove(si);
                    proof {
                        let n = pre.sel_sets().len();
                        assert(self.sel_keys() =~= pre.sel_keys().remove(si as int));
                        assert(self.sel_sets() =~= pre.sel_sets().remove(si as int));
                        assert forall|i: int, j: int|
                            0 <= i < self.sel_keys().len() && 0 <= j < self.sel_keys().len() && i != j implies
                            self.sel_keys()[i] != self.sel_keys()[j] by {
                            let oi = if i < si { i } else { i + 1 };
                            let oj = if j < si { j } else { j + 1 };
                            assert(pre.sel_keys()[oi] != pre.sel_keys()[oj]);
                        }
                        assert forall|g: Seq<char>| #[trigger] self.selection(g) == (if g == f {
                            None
                        } else {
                            pre.selection(g)
                        }) by {
                            if exists|j: int| 0 <= j < self.sel_keys().len() && self.sel_keys()[j] == g {
                                let j = choose|j: int| 0 <= j < self.sel_keys().len() && self.sel_keys()[j] == g;
                                let oj = if j < si { j } else { j + 1 };
                                assert(pre.sel_keys()[oj] == g);
                                lemma_index_in(pre.sel_keys(), oj);
                                lemma_index_in(self.sel_keys(), j);
                                assert(oj != si);
                            } else {
                                if pre.selection(g) is Some && g != f {
                                    let k = pre.lemma_selection_some(g);
                                    let nk = if k < si { k } else { k - 1 };
                                    assert(self.sel_keys()[nk] == g);
                                }
                            }
                        }
                        assert(sym_diff(old_sel, b) == Set::<u32>::empty());
                    }
                    ToggleStatus::Cleared
                } else {
                    self.sel_bitmaps.set(si, sel);
                    proof {
                        assert(self.sel_keys() == pre.sel_keys());
                        assert(self.sel_sets() =~= pre.sel_sets().update(si as int, sym_diff(old_sel, b)));
                        assert forall|x: u32| sym_diff(old_sel, b).contains(x) implies rc.contains(x) by {
                            assert(pre.sel_sets()[si as int].subset_of(rc));
                        }
                        assert forall|g: Seq<char>| g != f implies #[trigger] self.selection(g) == pre.selection(g) by {
                            if pre.selection(g) is Some {
                                let k = pre.lemma_selection_some(g);
                            }
                        }
                        lemma_index_in(self.sel_keys(), si as int);
                    }
                    ToggleStatus::Updated
                }
            },
            None => {
                let mut sel = bitmap_new();
                bitmap_xor_assign(&mut sel, &vb);
                if bitmap_is_empty(&sel) {
                    ToggleStatus::Cleared
                } else {
                    self.sel_names.push(field.to_owned());
                    self.sel_bitmaps.push(sel);
                    proof {
                        let n = pre.sel_keys().len();
                        assert(self.sel_keys() =~= pre.sel_keys().push(f));
                        assert(self.sel_sets() =~= pre.sel_sets().push(b));
                        assert forall|g: Seq<char>| g != f implies #[trigger] self.selection(g) == pre.selection(g) by {
                            if pre.selection(g) is Some {
                                let k = pre.lemma_selection_some(g);
                                lemma_index_in(self.sel_keys(), k);
                            } else {
                                assert forall|j: int| 0 <= j < self.sel_keys().len() implies self.sel_keys()[j] != g by {
                                    if j < n && pre.sel_keys()[j] == g {
                                        lemma_index_in(pre.sel_keys(), j);
                                    }
                                }
                            }
                        }
                        lemma_index_in(self.sel_keys(), n as int);
                    }
                    ToggleStatus::Updated
                }
            },
        }
    }

    /// The position of the column named `name`, created empty if absent.
    fn column_index(&mut self, name: &str) -> (ci: usize)
        requires
            old(self).wf(),
        ensures
            final(self).wf(),
            ci < final(self).columns@.len(),
            final(self).col_names@[ci as int]@ == name@,
            final(self).rows() == old(self).rows(),
            final(self).sel_names == old(self).sel_names,
            final(self).sel_bitmaps == old(self).sel_bitmaps,
            final(self).column(name@) == Some(final(self).columns@[ci as int]),
            old(self).columns@.len() <= final(self).columns@.len(),
            forall|k: int|
                0 <= k < old(self).columns@.len() ==> #[trigger] final(self).columns@[k] == old(self).columns@[k]
                    && final(self).col_names@[k] == old(self).col_names@[k],
            forall|k: int|
                old(self).columns@.len() <= k < final(self).columns@.len() ==> #[trigger] final(self).columns@[k].all_rows()
                    == Set::<u32>::empty(),
            old(self).column(name@) is Some ==> final(self).column(name@) == old(self).column(name@),
            forall|g: Seq<char>| g != name@ ==> #[trigger] final(self).column(g) == old(self).column(g),
            forall|g: Seq<char>, v: Seq<char>| #[trigger] final(self).value_rows(g, v) == old(self).value_rows(g, v),
    {
        match find_name(&self.col_names, name) {
            Some(ci) => {
                proof {
                    lemma_index_in(self.field_names(), ci as int);
                }
                ci
            },
            None => {
                let ghost pre = *self;
                let ci = self.columns.len();
                self.col_names.push(name.to_owned());
                self.columns.push(Column::new());
                proof {
                    assert(self.field_names() =~= pre.field_names().push(name@));
                    assert forall|i: int, j: int|
                        0 <= i < self.field_names().len() && 0 <= j < self.field_names().len() && i != j implies
                        self.field_names()[i] != self.field_names()[j] by {
                        if i < ci && j < ci {
                        } else if i < ci {
                            assert(pre.field_names()[i] != name@);
                        } else {
                            assert(pre.field_names()[j] != name@);
                        }
                    }
                    lemma_index_in(self.field_names(), ci as int);
                    assert(self.sel_keys() == pre.sel_keys());
                    assert(self.sel_sets() == pre.sel_sets());
                    assert forall|i: int| 0 <= i < self.columns@.len() implies (#[trigger] self.columns@[i]).wf()
                        && self.columns@[i].all_rows().subset_of(rows_below(self.row_count as nat)) by {
                        if i < ci {
                            assert(pre.columns@[i].wf());
                            assert(pre.columns@[i].all_rows().subset_of(rows_below(pre.row_count as nat)));
                        }
                    }
                    assert forall|g: Seq<char>| g != name@ implies #[trigger] self.column(g) == pre.column(g) by {
                        if pre.column(g) is Some {
                            let k = index_in(pre.field_names(), g).unwrap();
                            lemma_index_in(self.field_names(), k);
                        } else {
                            assert forall|k: int| 0 <= k < self.field_names().len() implies self.field_names()[k] != g by {
                                if k < ci && pre.field_names()[k] == g {
                                    lemma_index_in(pre.field_names(), k);
                                }
                            }
                        }
                    }
                    assert forall|g: Seq<char>, v: Seq<char>| #[trigger] self.value_rows(g, v) == pre.value_rows(g, v) by {
                        if g == name@ {
                            assert(index_in(self.columns@[ci as int].values(), v) is None);
                        }
                    }
                }
                ci
            },
        }
    }

    /// The rows that value `v` of field `g` holds once one more row is
    /// appended with values `values` under field names `fields`.
    pub open spec fn rows_after_append(
        &self,
        fields: Seq<Seq<char>>,
        values: Seq<Seq<char>>,
        g: Seq<char>,
        v: Seq<char>,
    ) -> Option<Set<u32>> {
        match index_in(fields, g) {
            Some(i) => if v == values[i] {
                Some(self.value_rows(g, v).unwrap_or(Set::<u32>::empty()).insert(self.rows() as u32))
            } else {
                self.value_rows(g, v)
            },
            None => self.value_rows(g, v),
        }
    }

    /// Appends one row, with identifier the current row count, holding
    /// `values[i]` in field `fields[i]`; fields not named keep no entry for it.
    pub fn append_row(&mut self, fields: &Vec<String>, values: &Vec<String>)
        requires
            old(self).wf(),
            old(self).rows() < u32::MAX,
            fields@.len() == values@.len(),
            distinct(views(fields@)),
        ensures
            final(self).wf(),
            final(self).rows() == old(self).rows() + 1,
            forall|g: Seq<char>| #[trigger] final(self).selection(g) == old(self).selection(g),
            forall|g: Seq<char>|
                #[trigger] final(self).column(g) is Some <==> (old(self).column(g) is Some || index_in(
                    views(fields@),
                    g,
                ) is Some),
            forall|g: Seq<char>, v: Seq<char>|
                #[trigger] final(self).value_rows(g, v) == old(self).rows_after_append(
                    views(fields@),
                    views(values@),
                    g,
                    v,
                ),
    {
        let ghost pre = *self;
        let row_id = self.row_count;
        self.row_count = self.row_count + 1;
        proof {
            assert forall|i: int| 0 <= i < self.columns@.len() implies (#[trigger] self.columns@[i]).all_rows().subset_of(
                rows_below(self.row_count as nat),
            ) by {
                assert(pre.columns@[i].all_rows().subset_of(rows_below(pre.row_count as nat)));
            }
            assert forall|i: int| 0 <= i < self.sel_sets().len() implies (#[trigger] self.sel_sets()[i]).subset_of(
                rows_below(self.row_count as nat),
            ) by {
                assert(pre.sel_sets()[i].subset_of(rows_below(pre.row_count as nat)));
            }
        }
        let mut i: usize = 0;
        while i < fields.len()
            invariant
                self.wf(),
                0 <= i <= fields@.len(),
                fields@.len() == values@.len(),
                distinct(views(fields@)),
                row_id as nat == pre.rows(),
                self.rows() == pre.rows() + 1,
                self.sel_names == pre.sel_names,
                self.sel_bitmaps == pre.sel_bitmaps,
                forall|k: int|
                    0 <= k < self.columns@.len() && (#[trigger] self.columns@[k]).all_rows().contains(row_id) ==> exists|j: int|
                        0 <= j < i && views(fields@)[j] == self.field_names()[k],
                forall|g: Seq<char>|
                    #[trigger] self.column(g) is Some <==> (pre.column(g) is Some || exists|j: int|
                        0 <= j < i && views(fields@)[j] == g),
                forall|g: Seq<char>, v: Seq<char>|
                    #[trigger] self.value_rows(g, v) == (if exists|j: int| 0 <= j < i && views(fields@)[j] == g {
                        pre.rows_after_append(views(fields@), views(values@), g, v)
                    } else {
                        pre.value_rows(g, v)
                    }),
            decreases fields@.len() - i,
        {
            let ghost before = *self;
            let ghost name = fields@[i as int]@;
            assert(views(fields@)[i as int] == name);
            let ci = self.column_index(fields[i].as_str());
            proof {
                let c = self.columns@[ci as int];
                lemma_index_in(self.field_names(), ci as int);
                assert(self.field_names()[ci as int] == self.col_names@[ci as int]@);
                assert forall|k: int|
                    0 <= k < self.columns@.len() && (#[trigger] self.columns@[k]).all_rows().contains(row_id) implies exists|j: int|
                        0 <= j < i && views(fields@)[j] == self.field_names()[k] by {
                    assert(k < before.columns@.len());
                    assert(before.columns@[k].all_rows().contains(row_id));
                    assert(self.field_names()[k] == before.field_names()[k]);
                }
                if c.all_rows().contains(row_id) {
                    let j = choose|j: int| 0 <= j < i && views(fields@)[j] == self.field_names()[ci as int];
                    assert(views(fields@)[j] == name);
                    assert(views(fields@)[j] != views(fields@)[i as int]);
                }
                assert forall|x: u32| c.all_rows().contains(x) implies rows_below(pre.rows()).contains(x) by {
                    assert(rows_below(self.rows()).contains(x));
                }
                lemma_below_len_bound(c.all_rows(), pre.rows());
            }
            let ghost mid = *self;
            self.columns[ci].insert(values[i].as_str(), row_id);
            proof {
                assert(self.col_names == mid.col_names);
                assert(self.sel_keys() == mid.sel_keys());
                assert(self.sel_sets() == mid.sel_sets());
                assert forall|k: int| 0 <= k < self.columns@.len() implies (#[trigger] self.columns@[k]).wf() by {
                    if k != ci {
                        assert(self.columns@[k] == mid.columns@[k]);
                    }
                }
                assert forall|g: Seq<char>| g != name implies #[trigger] self.column(g) == before.column(g) by {
                    if mid.column(g) is Some {
                        let k = index_in(mid.field_names(), g).unwrap();
                        assert(k != ci);
                        assert(self.columns@[k] == mid.columns@[k]);
                    }
                }
                let c = self.columns@[ci as int];
                lemma_index_in(self.field_names(), ci as int);
                lemma_index_in(views(fields@), i as int);
                assert forall|k: int| 0 <= k < self.columns@.len() implies (#[trigger] self.columns@[k]).all_rows().subset_of(
                    rows_below(self.row_count as nat),
                ) by {
                    if k == ci {
                        assert(row_id < self.row_count);
                    }
                }
                assert forall|k: int|
                    0 <= k < self.columns@.len() && (#[trigger] self.columns@[k]).all_rows().contains(row_id) implies exists|j: int|
                        0 <= j < i + 1 && views(fields@)[j] == self.field_names()[k] by {
                    if k == ci {
                        assert(views(fields@)[i as int] == self.field_names()[k]);
                    }
                }
                assert forall|g: Seq<char>| #[trigger] self.column(g) is Some <==> (pre.column(g) is Some || exists|j: int|
                        0 <= j < i + 1 && views(fields@)[j] == g) by {
                    if g == name {
                        assert(views(fields@)[i as int] == g);
                    } else {
                        assert(self.column(g) == before.column(g));
                        if exists|j: int| 0 <= j < i + 1 && views(fields@)[j] == g {
                            let j = choose|j: int| 0 <= j < i + 1 && views(fields@)[j] == g;
                            assert(j < i);
                        }
                    }
                }
                assert forall|g: Seq<char>, v: Seq<char>|
                    #[trigger] self.value_rows(g, v) == (if exists|j: int| 0 <= j < i + 1 && views(fields@)[j] == g {
                        pre.rows_after_append(views(fields@), views(values@), g, v)
                    } else {
                        pre.value_rows(g, v)
                    }) by {
                    if g == name {
                        assert(views(fields@)[i as int] == g);
                        assert(views(values@)[i as int] == values@[i as int]@);
                        assert(self.column(g) == Some(self.columns@[ci as int]));
                        assert(mid.column(g) == Some(mid.columns@[ci as int]));
                        assert(mid.value_rows(g, v) == before.value_rows(g, v));
                        assert(index_in(views(fields@), g) == Some(i as int));
                        if exists|j: int| 0 <= j < i && views(fields@)[j] == g {
                            let j = choose|j: int| 0 <= j < i && views(fields@)[j] == g;
                            assert(false);
                        }
                        assert(before.value_rows(g, v) == pre.value_rows(g, v));
                    } else {
                        assert(self.column(g) == before.column(g));
                        assert(self.value_rows(g, v) == before.value_rows(g, v));
                        if exists|j: int| 0 <= j < i + 1 && views(fields@)[j] == g {
                            let j = choose|j: int| 0 <= j < i + 1 && views(fields@)[j] == g;
                            assert(j < i);
                        }
                    }
                }
            }
            i = i + 1;
        }
        proof {
            assert forall|g: Seq<char>| (exists|j: int| 0 <= j < fields@.len() && views(fields@)[j] == g) <==> index_in(
                views(fields@),
                g,
            ) is Some by {}
        }
    }

    /// A selection held by a well-formed engine is never empty.
    pub proof fn lemma_selection_not_empty(&self, f: Seq<char>)
        requires
            self.wf(),
            self.selection(f) is Some,
        ensures
            self.selection(f).unwrap() != Set::<u32>::empty(),
    {
        let k = self.lemma_selection_some(f);
    }

    /// Toggling the same value of a field twice in succession restores that
    /// field's selection: `e1` is what one toggle of `v` in `f` leaves of `e0`,
    /// and `e2` what a second one leaves of `e1`.
    pub proof fn lemma_toggle_twice(e0: TarsEngine, e1: TarsEngine, e2: TarsEngine, f: Seq<char>, v: Seq<char>)
        requires
            e0.wf(),
            forall|g: Seq<char>, w: Seq<char>| #[trigger] e1.value_rows(g, w) == e0.value_rows(g, w),
            e0.value_rows(f, v) is Some,
            e1.selection(f) == toggled(e0.selection(f), e0.value_rows(f, v).unwrap()),
            e2.selection(f) == toggled(e1.selection(f), e1.value_rows(f, v).unwrap()),
        ensures
            e2.selection(f) == e0.selection(f),
    {
        let b = e0.value_rows(f, v).unwrap();
        assert(e1.value_rows(f, v) == e0.value_rows(f, v));
        let s = e0.selection(f);
        let empty = Set::<u32>::empty();
        let a = s.unwrap_or(empty);
        assert(sym_diff(sym_diff(a, b), b) =~= a);
        assert(sym_diff(empty, b) =~= b);
        if s is Some {
            e0.lemma_selection_not_empty(f);
        }
        if sym_diff(a, b) == empty {
            assert(a =~= b);
        }
    }

    /// A value whose rows make up part of its field's selection is classified
    /// `SELECTED`, never `EXCLUDED`.
    pub proof fn lemma_selected_not_excluded(&self, f: Seq<char>, v: Seq<char>)
        requires
            self.wf(),
            self.selection(f) is Some,
            self.value_rows(f, v) is Some,
            self.value_rows(f, v).unwrap() != Set::<u32>::empty(),
            self.value_rows(f, v).unwrap().subset_of(self.selection(f).unwrap()),
        ensures
            self.state(f, v) == SELECTED,
            self.state(f, v) != EXCLUDED,
    {
        let b = self.value_rows(f, v).unwrap();
        let x = b.choose();
        assert(b.contains(x)) by {
            crate::bitmap::lemma_u32_set_finite(b);
            if !b.contains(x) {
                assert(b =~= Set::<u32>::empty());
            }
        }
    }

    /// Selecting in more fields never raises the filtered row count: `e2`
    /// holds the same rows as `e1` and every selection of `e1`, and maybe more.
    pub proof fn lemma_filter_monotone(e1: TarsEngine, e2: TarsEngine)
        requires
            e1.wf(),
            e2.wf(),
            e2.rows() == e1.rows(),
            forall|f: Seq<char>| #[trigger] e1.selection(f) is Some ==> e2.selection(f) == e1.selection(f),
        ensures
            e2.total_filtered() <= e1.total_filtered(),
    {
        match e1.combined(None) {
            None => {
                if e2.combined(None) is Some {
                    e2.lemma_combined_bounded(None);
                }
            },
            Some(c1) => {
                let f = choose|f: Seq<char>| e1.contributes(f, None);
                assert(e2.contributes(f, None));
                let c2 = e2.combined(None).unwrap();
                assert forall|r: u32| c2.contains(r) implies c1.contains(r) by {
                    assert forall|g: Seq<char>| #[trigger] e1.contributes(g, None) implies e1.selection(g).unwrap().contains(r) by {
                        assert(e2.contributes(g, None));
                    }
                }
                crate::bitmap::lemma_u32_set_finite(c1);
                vstd::set_lib::lemma_len_subset(c2, c1);
            },
        }
    }

    /// Appends one row, with identifier the current row count, from a record
    /// read under `header`: each field takes the cell under its first column.
    pub fn append_record(&mut self, header: &Vec<String>, record: &Vec<String>)
        requires
            old(self).wf(),
            old(self).rows() < u32::MAX,
        ensures
            final(self).wf(),
            final(self).rows() == old(self).rows() + 1,
            forall|g: Seq<char>| #[trigger] final(self).selection(g) == old(self).selection(g),
            forall|g: Seq<char>, v: Seq<char>|
                #[trigger] final(self).value_rows(g, v) == if record_cell(views(header@), views(record@), g) == Some(v) {
                    Some(old(self).value_rows(g, v).unwrap_or(Set::<u32>::empty()).insert(old(self).rows() as u32))
                } else {
                    old(self).value_rows(g, v)
                },
    {
        let ghost h = views(header@);
        let ghost rec = views(record@);
        let mut fields: Vec<String> = Vec::new();
        let mut values: Vec<String> = Vec::new();
        let mut i: usize = 0;
        while i < header.len() && i < record.len()
            invariant
                h == views(header@),
                rec == views(record@),
                0 <= i <= header@.len(),
                i <= record@.len(),
                fields@.len() == values@.len(),
                distinct(views(fields@)),
                forall|j: int|
                    0 <= j < fields@.len() ==> exists|p: int|
                        0 <= p < i && is_first(h, #[trigger] views(fields@)[j], p) && views(values@)[j] == rec[p],
                forall|p: int| 0 <= p < i ==> exists|j: int| 0 <= j < fields@.len() && #[trigger] h[p] == views(fields@)[j],
            decreases header@.len() - i,
        {
            assert(h[i as int] == header@[i as int]@);
            assert(rec[i as int] == record@[i as int]@);
            if find_name(&fields, header[i].as_str()).is_none() {
                let ghost pf = views(fields@);
                let ghost pv = views(values@);
                proof {
                    assert forall|p: int| 0 <= p < i implies h[p] != h[i as int] by {
                        let j = choose|j: int| 0 <= j < fields@.len() && h[p] == views(fields@)[j];
                        lemma_index_in(views(fields@), j);
                    }
                }
                fields.push(header[i].clone());
                values.push(record[i].clone());
                proof {
                    assert(views(fields@) =~= pf.push(h[i as int]));
                    assert(views(values@) =~= pv.push(rec[i as int]));
                    assert forall|a: int, b: int|
                        0 <= a < views(fields@).len() && 0 <= b < views(fields@).len() && a != b implies
                        views(fields@)[a] != views(fields@)[b] by {
                        if a < pf.len() && b < pf.len() {
                        } else if a < pf.len() {
                            let p = choose|p: int| 0 <= p < i && is_first(h, #[trigger] pf[a], p) && pv[a] == rec[p];
                        } else {
                            let p = choose|p: int| 0 <= p < i && is_first(h, #[trigger] pf[b], p) && pv[b] == rec[p];
                        }
                    }
                    assert forall|j: int| 0 <= j < fields@.len() implies exists|p: int|
                        0 <= p < i + 1 && is_first(h, #[trigger] views(fields@)[j], p) && views(values@)[j] == rec[p] by {
                        if j < pf.len() {
                            let p = choose|p: int| 0 <= p < i && is_first(h, #[trigger] pf[j], p) && pv[j] == rec[p];
                            assert(is_first(h, views(fields@)[j], p));
                        } else {
                            assert(is_first(h, views(fields@)[j], i as int));
                        }
                    }
                    assert forall|p: int| 0 <= p < i + 1 implies exists|j: int| 0 <= j < fields@.len() && #[trigger] h[p] == views(fields@)[j] by {
                        if p < i {
                            let j = choose|j: int| 0 <= j < pf.len() && h[p] == pf[j];
                            assert(views(fields@)[j] == pf[j]);
                        } else {
                            assert(views(fields@)[pf.len() as int] == h[p]);
                        }
                    }
                }
            }
            i = i + 1;
        }
        let ghost pre = *self;
        self.append_row(&fields, &values);
        proof {
            assert forall|g: Seq<char>, v: Seq<char>|
                #[trigger] self.value_rows(g, v) == if record_cell(h, rec, g) == Some(v) {
                    Some(pre.value_rows(g, v).unwrap_or(Set::<u32>::empty()).insert(pre.rows() as u32))
                } else {
                    pre.value_rows(g, v)
                } by {
                assert(self.value_rows(g, v) == pre.rows_after_append(views(fields@), views(values@), g, v));
                match index_in(views(fields@), g) {
                    Some(j) => {
                        lemma_index_in(views(fields@), j);
                        let p = choose|p: int| 0 <= p < i && is_first(h, #[trigger] views(fields@)[j], p) && views(values@)[j] == rec[p];
                        lemma_first_index(h, g, p);
                    },
                    None => {
                        if first_index(h, g) is Some {
                            let p = first_index(h, g).unwrap();
                            if p < rec.len() {
                                let c = choose|c: int| is_first(h, g, c);
                                assert(is_first(h, g, p));
                                let j = choose|j: int| 0 <= j < fields@.len() && #[trigger] h[p] == views(fields@)[j];
                                assert(views(fields@)[j] == g);
                            }
                        }
                    },
                }
            }
        }
    }

    /// The number of ingested rows.
    pub fn row_count(&self) -> (r: u32)
        ensures
            r as nat == self.rows(),
    {
        self.row_count
    }

    /// The row counter fits in `u32`.
    pub proof fn lemma_rows_bound(&self)
        ensures
            self.rows() <= u32::MAX,
    {
    }

    /// The column names, in store order.
    pub fn get_column_names(&self) -> (r: Vec<String>)
        requires
            self.wf(),
        ensures
            views(r@) == self.field_names(),
    {
        copy_prefix(&self.col_names, self.col_names.len())
    }

    /// The first `TOP_VALUES` values of field `field` in identifier order (all
    /// of them if there are fewer); empty for an unknown field.
    pub fn get_top_values(&self, field: &str) -> (r: Vec<String>)
        requires
            self.wf(),
        ensures
            views(r@) == match self.column(field@) {
                Some(c) => c.values().take(
                    if c.values().len() < TOP_VALUES {
                        c.values().len() as int
                    } else {
                        TOP_VALUES as int
                    },
                ),
                None => Seq::<Seq<char>>::empty(),
            },
    {
        match find_name(&self.col_names, field) {
            Some(ci) => {
                let col = &self.columns[ci];
                assert(self.column(field@) == Some(*col));
                let n = if col.reverse_symbol.len() < TOP_VALUES {
                    col.reverse_symbol.len()
                } else {
                    TOP_VALUES
                };
                copy_prefix(&col.reverse_symbol, n)
            },
            None => {
                let r: Vec<String> = Vec::new();
                assert(views(r@) =~= Seq::<Seq<char>>::empty());
                r
            },
        }
    }

    /// The columns, in store order.
    pub closed spec fn store_columns(&self) -> Seq<Column> {
        self.columns@
    }

    /// The column store as plain values: field names, columns and row
    /// counter. The selection store is not part of it.
    pub fn export_db(&self) -> (r: (Vec<String>, Vec<ColumnParts>, u32))
        requires
            self.wf(),
        ensures
            views(r.0@) == self.field_names(),
            r.1@.len() == self.store_columns().len(),
            forall|i: int| 0 <= i < r.1@.len() ==> (#[trigger] r.1@[i]).matches(&self.store_columns()[i]),
            r.2 as nat == self.rows(),
            store_valid(views(r.0@), r.1@, r.2),
    {
        let names = copy_prefix(&self.col_names, self.col_names.len());
        assert(views(self.col_names@).take(self.col_names@.len() as int) == views(self.col_names@));
        let mut cols: Vec<ColumnParts> = Vec::new();
        let mut i: usize = 0;
        while i < self.columns.len()
            invariant
                self.wf(),
                i <= self.columns@.len(),
                cols@.len() == i,
                forall|k: int| 0 <= k < i ==> (#[trigger] cols@[k]).matches(&self.columns@[k]),
                forall|k: int| 0 <= k < i ==> (#[trigger] cols@[k]).valid(self.row_count),
            decreases self.columns@.len() - i,
        {
            assert(self.columns@[i as int].wf());
            assert(self.columns@[i as int].all_rows().subset_of(rows_below(self.row_count as nat)));
            cols.push(self.columns[i].to_parts());
            i = i + 1;
        }
        (names, cols, self.row_count)
    }

    /// An engine over a column store given as plain values, with an empty
    /// selection store; the store is refused unless it is valid. Every bitmap
    /// of the engine is built from the listed rows.
    pub fn import_db(col_names: Vec<String>, columns: Vec<ColumnParts>, row_count: u32) -> (r: Result<TarsEngine, ImportError>)
        ensures
            r is Ok <==> store_valid(views(col_names@), columns@, row_count),
            r is Ok ==> {
                let e = r.unwrap();
                &&& e.wf()
                &&& e.field_names() == views(col_names@)
                &&& e.store_columns().len() == columns@.len()
                &&& forall|i: int| 0 <= i < columns@.len() ==> (#[trigger] columns@[i]).matches(&e.store_columns()[i])
                &&& e.rows() == row_count as nat
                &&& e.selections() == Map::<Seq<char>, Set<u32>>::empty()
            },
    {
        if col_names.len() != columns.len() {
            return Err(ImportError::Malformed);
        }
        let n = col_names.len();
        let ghost names = views(col_names@);
        let ghost parts = columns@;
        let mut i: usize = 0;
        while i < n
            invariant
                n == col_names@.len(),
                names == views(col_names@),
                i <= n,
                forall|a: int, b: int| 0 <= a < i && 0 <= b < n && a != b ==> names[a] != names[b],
            decreases n - i,
        {
            let mut j: usize = 0;
            while j < n
                invariant
                    n == col_names@.len(),
                    names == views(col_names@),
                    i < n,
                    j <= n,
                    forall|a: int, b: int| 0 <= a < i && 0 <= b < n && a != b ==> names[a] != names[b],
                    forall|b: int| 0 <= b < j && b != i ==> names[i as int] != names[b],
                decreases n - j,
            {
                assert(names[i as int] == col_names@[i as int]@);
                assert(names[j as int] == col_names@[j as int]@);
                if j != i && col_names[i] == col_names[j] {
                    return Err(ImportError::Malformed);
                }
                j = j + 1;
            }
            i = i + 1;
        }
        let mut built: Vec<Column> = Vec::new();
        let mut rest = columns;
        i = 0;
        while i < n
            invariant
                n == parts.len(),
                parts == columns@,
                names == views(col_names@),
                i <= n,
                rest@ == parts.subrange(i as int, n as int),
                built@.len() == i,
                forall|k: int| 0 <= k < i ==> (#[trigger] parts[k]).valid(row_count),
                forall|k: int|
                    0 <= k < i ==> (#[trigger] built@[k]).wf() && parts[k].matches(&built@[k]) && built@[k].all_rows().subset_of(
                        rows_below(row_count as nat),
                    ),
            decreases n - i,
        {
            let p = rest.remove(0);
            assert(p == parts[i as int]);
            assert(rest@ =~= parts.subrange(i as int + 1, n as int));
            match Column::from_parts(p, row_count) {
                Some(c) => {
                    built.push(c);
                },
                None => {
                    assert(!parts[i as int].valid(row_count));
                    assert(!store_valid(views(col_names@), parts, row_count));
                    return Err(ImportError::Malformed);
                },
            }
            i = i + 1;
        }
        let e = TarsEngine {
            col_names,
            columns: built,
            row_count,
            sel_names: Vec::new(),
            sel_bitmaps: Vec::new(),
        };
        proof {
            assert(e.sel_keys() =~= Seq::<Seq<char>>::empty());
            assert(e.selections() =~= Map::<Seq<char>, Set<u32>>::empty());
        }
        Ok(e)
    }

    /// Reloading an exported column store answers every query as the engine
    /// it came from does with no selection: `r` holds the same field names,
    /// row counter and column contents as `e`, and no selection.
    pub proof fn lemma_round_trip(e: TarsEngine, r: TarsEngine)
        requires
            e.wf(),
            r.wf(),
            r.field_names() == e.field_names(),
            r.rows() == e.rows(),
            r.store_columns().len() == e.store_columns().len(),
            forall|i: int| 0 <= i < r.store_columns().len() ==> (#[trigger] r.store_columns()[i]).same_view(&e.store_columns()[i]),
            r.selections() == Map::<Seq<char>, Set<u32>>::empty(),
        ensures
            forall|f: Seq<char>, v: Seq<char>| #[trigger] r.value_rows(f, v) == e.value_rows(f, v),
            forall|f: Seq<char>, v: Seq<char>| #[trigger] r.global_count(f, v) == e.global_count(f, v),
            forall|f: Seq<char>, v: Seq<char>| #[trigger] r.count(f, v) == e.global_count(f, v),
            r.total_filtered() == e.rows(),
            e.selections() == Map::<Seq<char>, Set<u32>>::empty() ==> r.total_filtered() == e.total_filtered()
                && forall|f: Seq<char>, v: Seq<char>| #[trigger] r.count(f, v) == e.count(f, v),
    {
        assert forall|f: Seq<char>, v: Seq<char>| #[trigger] r.value_rows(f, v) == e.value_rows(f, v) by {
            match index_in(e.field_names(), f) {
                Some(i) => {
                    lemma_index_in(e.field_names(), i);
                    assert(r.columns@[i].same_view(&e.columns@[i]));
                },
                None => {},
            }
        }
        assert forall|f: Seq<char>, ex: Option<Seq<char>>| !r.contributes(f, ex) by {
            assert(!r.selections().contains_key(f));
        }
        assert(r.combined(None) is None);
        if e.selections() == Map::<Seq<char>, Set<u32>>::empty() {
            assert forall|f: Seq<char>, ex: Option<Seq<char>>| !e.contributes(f, ex) by {
                assert(!e.selections().contains_key(f));
            }
            assert(e.combined(None) is None);
        }
    }

    /// The rows that pass every active selection, in ascending order; every
    /// row when there is none.
    pub fn filtered_rows(&self) -> (r: Vec<u32>)
        requires
            self.wf(),
        ensures
            r@.to_set() == match self.combined(None) {
                Some(c) => c,
                None => rows_below(self.rows()),
            },
            forall|i: int, j: int| 0 <= i < j < r@.len() ==> r@[i] < r@[j],
    {
        match self.get_combined_filter(None) {
            Some(filter) => bitmap_to_vec(&filter),
            None => {
                let mut r: Vec<u32> = Vec::new();
                let mut k: u32 = 0;
                while k < self.row_count
                    invariant
                        k <= self.row_count,
                        r@ == Seq::new(k as nat, |i: int| i as u32),
                    decreases self.row_count - k,
                {
                    r.push(k);
                    k = k + 1;
                    assert(r@ =~= Seq::new(k as nat, |i: int| i as u32));
                }
                assert forall|x: u32| r@.to_set().contains(x) == rows_below(self.rows()).contains(x) by {
                    if x < self.row_count {
                        assert(r@[x as int] == x);
                    }
                }
                assert(r@.to_set() =~= rows_below(self.rows()));
                r
            },
        }
    }

    /// The value that row `row` holds in field `field`, read through the
    /// column's row-symbol sequence; `None` for an unknown field or a row past
    /// the end of that sequence.
    pub fn cell_value(&self, field: &str, row: u32) -> (r: Option<String>)
        requires
            self.wf(),
        ensures
            r matches Some(s) ==> self.column(field@) is Some,
            match self.column(field@) {
                Some(c) => if (row as int) < c.data@.len() {
                    r is Some && r.unwrap()@ == c.values()[c.data@[row as int] as int]
                } else {
                    r is None
                },
                None => r is None,
            },
    {
        match find_name(&self.col_names, field) {
            Some(ci) => {
                let col = &self.columns[ci];
                assert(self.column(field@) == Some(*col));
                assert(col.wf());
                if (row as usize) < col.data.len() {
                    let id = col.data[row as usize] as usize;
                    assert(col.values()[id as int] == col.reverse_symbol@[id as int]@);
                    Some(col.reverse_symbol[id].clone())
                } else {
                    None
                }
            },
            None => None,
        }
    }

    /// Records the detected type of field `field` and the ratio of samples
    /// that matched it; an unknown field changes nothing.
    pub fn set_column_type(&mut self, field: &str, t: DataType, matches: u32, samples: u32) -> (found: bool)
        requires
            old(self).wf(),
        ensures
            final(self).wf(),
            found == old(self).column(field@) is Some,
            final(self).field_names() == old(self).field_names(),
            final(self).rows() == old(self).rows(),
            forall|g: Seq<char>| #[trigger] final(self).selection(g) == old(self).selection(g),
            forall|g: Seq<char>, v: Seq<char>| #[trigger] final(self).value_rows(g, v) == old(self).value_rows(g, v),
            found ==> final(self).column(field@).unwrap().col_type == t,
            found ==> final(self).column(field@).unwrap().type_matches == matches,
            found ==> final(self).column(field@).unwrap().type_samples == samples,
            found ==> final(self).column(field@).unwrap().values() == old(self).column(field@).unwrap().values(),
            found ==> final(self).column(field@).unwrap().row_sets() == old(self).column(field@).unwrap().row_sets(),
            found ==> final(self).column(field@).unwrap().data@ == old(self).column(field@).unwrap().data@,
            !found ==> *final(self) == *old(self),
            forall|g: Seq<char>| g != field@ ==> #[trigger] final(self).column(g) == old(self).column(g),
    {
        match find_name(&self.col_names, field) {
            Some(ci) => {
                let ghost pre = *self;
                self.columns[ci].set_type(t, matches, samples);
                proof {
                    assert(self.col_names == pre.col_names);
                    assert(self.sel_keys() == pre.sel_keys());
                    assert(self.sel_sets() == pre.sel_sets());
                    assert forall|k: int| 0 <= k < self.columns@.len() implies (#[trigger] self.columns@[k]).wf()
                        && self.columns@[k].all_rows().subset_of(rows_below(self.row_count as nat)) by {
                        if k != ci {
                            assert(self.columns@[k] == pre.columns@[k]);
                        } else {
                            assert(self.columns@[k].values() == pre.columns@[k].values());
                            assert(self.columns@[k].row_sets() == pre.columns@[k].row_sets());
                            assert(self.columns@[k].all_rows() =~= pre.columns@[k].all_rows());
                        }
                    }
                    assert forall|g: Seq<char>, v: Seq<char>| #[trigger] self.value_rows(g, v) == pre.value_rows(g, v) by {
                        match index_in(pre.field_names(), g) {
                            Some(k) => {
                                if k != ci {
                                    assert(self.columns@[k] == pre.columns@[k]);
                                } else {
                                    assert(self.columns@[k].values() == pre.columns@[k].values());
                                    assert(self.columns@[k].row_sets() == pre.columns@[k].row_sets());
                                }
                            },
                            None => {},
                        }
                    }
                    lemma_index_in(self.field_names(), ci as int);
                    assert forall|g: Seq<char>| g != field@ implies #[trigger] self.column(g) == pre.column(g) by {
                        match index_in(pre.field_names(), g) {
                            Some(k) => {
                                assert(k != ci);
                                assert(self.columns@[k] == pre.columns@[k]);
                            },
                            None => {},
                        }
                    }
                }
                true
            },
            None => false,
        }
    }

    /// The values that type detection samples from field `field`: the first
    /// `TYPE_SAMPLES` of its dictionary; empty for an unknown field.
    pub fn type_samples(&self, field: &str) -> (r: Vec<String>)
        requires
            self.wf(),
        ensures
            views(r@) == match self.column(field@) {
                Some(c) => c.values().take(
                    if c.values().len() < TYPE_SAMPLES {
                        c.values().len() as int
                    } else {
                        TYPE_SAMPLES as int
                    },
                ),
                None => Seq::<Seq<char>>::empty(),
            },
    {
        match find_name(&self.col_names, field) {
            Some(ci) => {
                let col = &self.columns[ci];
                assert(self.column(field@) == Some(*col));
                let n = if col.reverse_symbol.len() < TYPE_SAMPLES {
                    col.reverse_symbol.len()
                } else {
                    TYPE_SAMPLES
                };
                copy_prefix(&col.reverse_symbol, n)
            },
            None => {
                let r: Vec<String> = Vec::new();
                assert(views(r@) =~= Seq::<Seq<char>>::empty());
                r
            },
        }
    }

    /// Detects and records the type of field `field` if it is still `Utf8`,
    /// from its `type_samples`; `numeric[i]` says whether the numeric form of
    /// sample `i` parses as a floating-point number. Returns whether the type
    /// was recorded: not for an unknown field, a typed field, or flags that do
    /// not match the samples in number.
    pub fn classify_column(&mut self, field: &str, numeric: &Vec<bool>) -> (changed: bool)
        requires
            old(self).wf(),
        ensures
            final(self).wf(),
            changed <==> (old(self).column(field@) is Some && old(self).column(field@).unwrap().col_type == DataType::Utf8
                && numeric@.len() == vstd::math::min(old(self).column(field@).unwrap().values().len() as int, TYPE_SAMPLES as int)),
            !changed ==> *final(self) == *old(self),
            changed ==> {
                let c = old(self).column(field@).unwrap();
                let samples = c.values().take(numeric@.len() as int);
                let b = best_type(samples, numeric@, 10);
                &&& final(self).field_names() == old(self).field_names()
                &&& final(self).rows() == old(self).rows()
                &&& forall|g: Seq<char>| #[trigger] final(self).selection(g) == old(self).selection(g)
                &&& forall|g: Seq<char>, v: Seq<char>| #[trigger] final(self).value_rows(g, v) == old(self).value_rows(g, v)
                &&& final(self).column(field@).unwrap().col_type == b.0
                &&& final(self).column(field@).unwrap().type_matches == b.1
                &&& final(self).column(field@).unwrap().type_samples == samples.len()
                &&& final(self).column(field@).unwrap().values() == c.values()
                &&& final(self).column(field@).unwrap().row_sets() == c.row_sets()
                &&& final(self).column(field@).unwrap().data@ == c.data@
                &&& forall|g: Seq<char>| g != field@ ==> #[trigger] final(self).column(g) == old(self).column(g)
            },
    {
        let ci = match find_name(&self.col_names, field) {
            Some(ci) => ci,
            None => return false,
        };
        assert(self.column(field@) == Some(self.columns@[ci as int]));
        if self.columns[ci].col_type != DataType::Utf8 {
            return false;
        }
        let samples = self.type_samples(field);
        if numeric.len() != samples.len() {
            return false;
        }
        let (t, matches, total) = detect_column_type(&samples, numeric);
        self.set_column_type(field, t, matches, total);
        true
    }

    /// Detects and records the type of every column still typed `Utf8`, in
    /// store order: `flags[i]` are the numeric flags of the `type_samples` of
    /// the `i`th column (see `classify_column`). Columns without flags, or with
    /// flags that do not match their samples in number, are left as they are.
    pub fn classify_columns(&mut self, flags: &Vec<Vec<bool>>)
        requires
            old(self).wf(),
        ensures
            final(self).wf(),
            final(self).field_names() == old(self).field_names(),
            final(self).rows() == old(self).rows(),
            forall|g: Seq<char>| #[trigger] final(self).selection(g) == old(self).selection(g),
            forall|g: Seq<char>, v: Seq<char>| #[trigger] final(self).value_rows(g, v) == old(self).value_rows(g, v),
            forall|g: Seq<char>| old(self).column(g) is None ==> #[trigger] final(self).column(g) is None,
            forall|i: int|
                0 <= i < old(self).field_names().len() ==> {
                    let f = #[trigger] old(self).field_names()[i];
                    &&& old(self).column(f) is Some
                    &&& final(self).column(f) is Some
                    &&& if i < flags@.len() {
                        classified(old(self).column(f).unwrap(), flags@[i]@, final(self).column(f).unwrap())
                    } else {
                        final(self).column(f) == old(self).column(f)
                    }
                },
    {
        let ghost pre = *self;
        let n = self.col_names.len();
        let mut i: usize = 0;
        while i < n
            invariant
                self.wf(),
                n == pre.field_names().len(),
                i <= n,
                self.field_names() == pre.field_names(),
                self.rows() == pre.rows(),
                forall|g: Seq<char>| #[trigger] self.selection(g) == pre.selection(g),
                forall|g: Seq<char>, v: Seq<char>| #[trigger] self.value_rows(g, v) == pre.value_rows(g, v),
                forall|g: Seq<char>| pre.column(g) is None ==> #[trigger] self.column(g) is None,
                forall|j: int|
                    i <= j < n ==> #[trigger] self.column(pre.field_names()[j]) == pre.column(pre.field_names()[j]),
                forall|j: int|
                    0 <= j < i ==> {
                        let f = #[trigger] pre.field_names()[j];
                        &&& pre.column(f) is Some
                        &&& self.column(f) is Some
                        &&& if j < flags@.len() {
                            classified(pre.column(f).unwrap(), flags@[j]@, self.column(f).unwrap())
                        } else {
                            self.column(f) == pre.column(f)
                        }
                    },
            decreases n - i,
        {
            let name = self.col_names[i].clone();
            let ghost f = pre.field_names()[i as int];
            assert(name@ == f);
            proof {
                lemma_index_in(pre.field_names(), i as int);
            }
            let ghost before = *self;
            if i < flags.len() {
                let changed = self.classify_column(name.as_str(), &flags[i]);
            }
            proof {
                assert forall|j: int| 0 <= j < n && j != i implies #[trigger] self.column(pre.field_names()[j]) == before.column(pre.field_names()[j]) by {
                    assert(pre.field_names()[j] != f);
                }
                assert forall|g: Seq<char>| pre.column(g) is None implies #[trigger] self.column(g) is None by {
                    if g != f {
                        assert(self.column(g) == before.column(g));
                    }
                }
            }
            i = i + 1;
        }
    }
}

} // verus!
