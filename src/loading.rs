//! Bulk ingestion: delimited text and random sample rows.
use crate::bitmap::rows_below;
use crate::engine::{record_cell, TarsEngine};
use crate::names::{distinct, index_in, lemma_index_in, views};
use crate::sources::{csv_header_of, csv_records_of, random_below, read_csv_header, read_csv_records, record_view};
use vstd::prelude::*;

verus! {

/// Why a load did not start.
#[derive(Debug, Clone, Copy, PartialEq, Eq, Structural)]
pub enum LoadError {
    /// The text has no readable header row.
    HeaderUnreadable,
}

/// The records that were read without error, in order.
pub open spec fn ok_records(recs: Seq<Option<Seq<Seq<char>>>>) -> Seq<Seq<Seq<char>>>
    decreases recs.len(),
{
    if recs.len() == 0 {
        Seq::empty()
    } else {
        let p = ok_records(recs.drop_last());
        match recs.last() {
            Some(r) => p.push(r),
            None => p,
        }
    }
}

/// The rows, numbered from `r0`, at which `recs` give value `v` to field `g`.
pub open spec fn loaded_rows(
    header: Seq<Seq<char>>,
    recs: Seq<Seq<Seq<char>>>,
    r0: nat,
    g: Seq<char>,
    v: Seq<char>,
) -> Set<u32> {
    Set::new(|r: u32| r0 <= r < r0 + recs.len() && record_cell(header, recs[r - r0], g) == Some(v))
}

/// The rows of a value once rows `s` join the rows it had.
pub open spec fn merged(o: Option<Set<u32>>, s: Set<u32>) -> Option<Set<u32>> {
    if s == Set::<u32>::empty() {
        o
    } else {
        Some(o.unwrap_or(Set::<u32>::empty()).union(s))
    }
}

/// What is read without error from a prefix is a prefix of what is read
/// without error from the whole.
proof fn lemma_ok_prefix(s: Seq<Option<Seq<Seq<char>>>>, k: int)
    requires
        0 <= k <= s.len(),
    ensures
        ok_records(s.take(k)).len() <= ok_records(s).len(),
        ok_records(s).take(ok_records(s.take(k)).len() as int) == ok_records(s.take(k)),
    decreases s.len(),
{
    if k == s.len() {
        assert(s.take(k) == s);
        assert(ok_records(s).take(ok_records(s).len() as int) == ok_records(s));
    } else {
        let d = s.drop_last();
        assert(s.take(k) == d.take(k));
        lemma_ok_prefix(d, k);
        let n = ok_records(d.take(k)).len() as int;
        match s.last() {
            Some(r) => {
                assert(ok_records(s).take(n) =~= ok_records(d).take(n));
            },
            None => {},
        }
    }
}

/// The cities that sample rows draw from.
pub open spec fn sample_cities() -> Seq<Seq<char>> {
    seq!["Istanbul"@, "Ankara"@, "Izmir"@, "Antalya"@, "Bursa"@]
}

/// The departments that sample rows draw from.
pub open spec fn sample_departments() -> Seq<Seq<char>> {
    seq!["IT"@, "IK"@, "Satis"@, "Finans"@]
}

/// The field names of a sample row.
pub open spec fn sample_fields() -> Seq<Seq<char>> {
    seq!["City"@, "Department"@]
}

/// The sample city with number `i`.
pub fn sample_city(i: usize) -> (r: &'static str)
    requires
        i < 5,
    ensures
        r@ == sample_cities()[i as int],
{
    if i == 0 {
        "Istanbul"
    } else if i == 1 {
        "Ankara"
    } else if i == 2 {
        "Izmir"
    } else if i == 3 {
        "Antalya"
    } else {
        "Bursa"
    }
}

/// The sample department with number `i`.
pub fn sample_department(i: usize) -> (r: &'static str)
    requires
        i < 4,
    ensures
        r@ == sample_departments()[i as int],
{
    if i == 0 {
        "IT"
    } else if i == 1 {
        "IK"
    } else if i == 2 {
        "Satis"
    } else {
        "Finans"
    }
}

/// Row `r` holds one of the sample cities in `City` and one of the sample
/// departments in `Department`.
pub open spec fn sample_row_filled(e: TarsEngine, r: u32) -> bool {
    &&& exists|c: int|
        0 <= c < 5 && #[trigger] e.value_rows(sample_fields()[0], sample_cities()[c]) is Some && e.value_rows(
            sample_fields()[0],
            sample_cities()[c],
        ).unwrap().contains(r)
    &&& exists|d: int|
        0 <= d < 4 && #[trigger] e.value_rows(sample_fields()[1], sample_departments()[d]) is Some && e.value_rows(
            sample_fields()[1],
            sample_departments()[d],
        ).unwrap().contains(r)
}

impl TarsEngine {
    /// Appends one sample row: city number `city` in field `City` and
    /// department number `dept` in field `Department`.
    pub fn append_sample_row(&mut self, city: usize, dept: usize)
        requires
            old(self).wf(),
            old(self).rows() < u32::MAX,
            city < 5,
            dept < 4,
        ensures
            final(self).wf(),
            final(self).rows() == old(self).rows() + 1,
            forall|g: Seq<char>| #[trigger] final(self).selection(g) == old(self).selection(g),
            forall|g: Seq<char>, v: Seq<char>|
                #[trigger] final(self).value_rows(g, v) == old(self).rows_after_append(
                    sample_fields(),
                    seq![sample_cities()[city as int], sample_departments()[dept as int]],
                    g,
                    v,
                ),
    {
        let fields: Vec<String> = vec!["City".to_owned(), "Department".to_owned()];
        let values: Vec<String> = vec![sample_city(city).to_owned(), sample_department(dept).to_owned()];
        proof {
            reveal_strlit("City");
            reveal_strlit("Department");
            assert(views(fields@) =~= sample_fields());
            assert(views(values@) =~= seq![sample_cities()[city as int], sample_departments()[dept as int]]);
            assert("City"@.len() != "Department"@.len());
            assert(distinct(views(fields@)));
        }
        self.append_row(&fields, &values);
    }

    /// Appends `count` rows of random sample data: each takes a random city
    /// in `City` and a random department in `Department`.
    pub fn load_random_data(&mut self, count: u32)
        requires
            old(self).wf(),
            old(self).rows() + count <= u32::MAX,
        ensures
            final(self).wf(),
            final(self).rows() == old(self).rows() + count,
            forall|g: Seq<char>| #[trigger] final(self).selection(g) == old(self).selection(g),
            forall|g: Seq<char>, v: Seq<char>|
                !(g == sample_fields()[0] && sample_cities().contains(v)) && !(g == sample_fields()[1]
                    && sample_departments().contains(v)) ==> #[trigger] final(self).value_rows(g, v)
                    == old(self).value_rows(g, v),
            forall|r: u32| old(self).rows() <= r < final(self).rows() ==> sample_row_filled(*final(self), r),
            forall|g: Seq<char>, v: Seq<char>|
                #[trigger] old(self).value_rows(g, v) is Some ==> final(self).value_rows(g, v) is Some && old(self).value_rows(
                    g,
                    v,
                ).unwrap().subset_of(final(self).value_rows(g, v).unwrap()),
            forall|g: Seq<char>, v: Seq<char>|
                #[trigger] final(self).value_rows(g, v) is Some ==> final(self).value_rows(g, v).unwrap().subset_of(
                    old(self).value_rows(g, v).unwrap_or(Set::<u32>::empty()).union(
                        rows_below(final(self).rows()).difference(rows_below(old(self).rows())),
                    ),
                ),
    {
        let ghost pre = *self;
        let mut i: u32 = 0;
        while i < count
            invariant
                self.wf(),
                i <= count,
                pre.rows() + count <= u32::MAX,
                self.rows() == pre.rows() + i,
                forall|g: Seq<char>| #[trigger] self.selection(g) == pre.selection(g),
                forall|g: Seq<char>, v: Seq<char>|
                    !(g == sample_fields()[0] && sample_cities().contains(v)) && !(g == sample_fields()[1]
                        && sample_departments().contains(v)) ==> #[trigger] self.value_rows(g, v)
                        == pre.value_rows(g, v),
                forall|r: u32| pre.rows() <= r < self.rows() ==> sample_row_filled(*self, r),
                forall|g: Seq<char>, v: Seq<char>|
                    #[trigger] pre.value_rows(g, v) is Some ==> self.value_rows(g, v) is Some && pre.value_rows(
                        g,
                        v,
                    ).unwrap().subset_of(self.value_rows(g, v).unwrap()),
                forall|g: Seq<char>, v: Seq<char>|
                    #[trigger] self.value_rows(g, v) is Some ==> self.value_rows(g, v).unwrap().subset_of(
                        pre.value_rows(g, v).unwrap_or(Set::<u32>::empty()).union(
                            rows_below(self.rows()).difference(rows_below(pre.rows())),
                        ),
                    ),
            decreases count - i,
        {
            let city = random_below(5);
            let dept = random_below(4);
            let ghost before = *self;
            self.append_sample_row(city, dept);
            proof {
                let vals = seq![sample_cities()[city as int], sample_departments()[dept as int]];
                reveal_strlit("City");
                reveal_strlit("Department");
                assert("City"@.len() != "Department"@.len());
                assert(sample_fields()[0] != sample_fields()[1]);
                assert(distinct(sample_fields()));
                lemma_index_in(sample_fields(), 0);
                lemma_index_in(sample_fields(), 1);
                assert forall|g: Seq<char>, v: Seq<char>|
                    #[trigger] pre.value_rows(g, v) is Some implies self.value_rows(g, v) is Some && pre.value_rows(g, v).unwrap().subset_of(
                        self.value_rows(g, v).unwrap(),
                    ) by {
                    assert(before.value_rows(g, v) is Some);
                }
                assert forall|g: Seq<char>, v: Seq<char>|
                    #[trigger] self.value_rows(g, v) is Some implies self.value_rows(g, v).unwrap().subset_of(
                        pre.value_rows(g, v).unwrap_or(Set::<u32>::empty()).union(
                            rows_below(self.rows()).difference(rows_below(pre.rows())),
                        ),
                    ) by {
                    if before.value_rows(g, v) is Some {
                        assert(before.value_rows(g, v).unwrap().subset_of(
                            pre.value_rows(g, v).unwrap_or(Set::<u32>::empty()).union(
                                rows_below(before.rows()).difference(rows_below(pre.rows())),
                            ),
                        ));
                    }
                }
                assert forall|r: u32| pre.rows() <= r < self.rows() implies sample_row_filled(*self, r) by {
                    if r < before.rows() {
                        assert(sample_row_filled(before, r));
                        let c = choose|c: int| 0 <= c < 5 && #[trigger] before.value_rows(sample_fields()[0], sample_cities()[c]) is Some
                            && before.value_rows(sample_fields()[0], sample_cities()[c]).unwrap().contains(r);
                        let d = choose|d: int| 0 <= d < 4 && #[trigger] before.value_rows(sample_fields()[1], sample_departments()[d]) is Some
                            && before.value_rows(sample_fields()[1], sample_departments()[d]).unwrap().contains(r);
                        assert(self.value_rows(sample_fields()[0], sample_cities()[c]) is Some);
                        assert(self.value_rows(sample_fields()[1], sample_departments()[d]) is Some);
                    } else {
                        assert(r == before.rows() as u32);
                        assert(self.value_rows(sample_fields()[0], sample_cities()[city as int]) is Some);
                        assert(self.value_rows(sample_fields()[1], sample_departments()[dept as int]) is Some);
                    }
                }
                assert forall|g: Seq<char>, v: Seq<char>|
                    !(g == sample_fields()[0] && sample_cities().contains(v)) && !(g == sample_fields()[1]
                        && sample_departments().contains(v)) implies #[trigger] self.value_rows(g, v)
                        == pre.value_rows(g, v) by {
                    let vals = seq![sample_cities()[city as int], sample_departments()[dept as int]];
                    match index_in(sample_fields(), g) {
                        Some(j) => {
                            if v == vals[j] {
                                if j == 0 {
                                    assert(sample_cities().contains(v));
                                } else {
                                    assert(sample_departments().contains(v));
                                }
                            }
                        },
                        None => {},
                    }
                }
            }
            i = i + 1;
        }
    }
    /// Loads delimited text with a header row: each record read without
    /// error becomes one row, until the row counter is full. Returns the
    /// number of rows loaded; a text without a readable header row changes
    /// nothing.
    pub fn load_csv_data(&mut self, content: &str) -> (r: Result<u32, LoadError>)
        requires
            old(self).wf(),
        ensures
            final(self).wf(),
            r is Err <==> csv_header_of(content@) is None,
            r is Err ==> *final(self) == *old(self),
            r is Ok ==> {
                let n = r.unwrap() as int;
                let taken = ok_records(csv_records_of(content@));
                let header = csv_header_of(content@).unwrap();
                &&& n == if taken.len() <= u32::MAX - old(self).rows() {
                    taken.len() as int
                } else {
                    u32::MAX - old(self).rows()
                }
                &&& final(self).rows() == old(self).rows() + n
                &&& forall|g: Seq<char>| #[trigger] final(self).selection(g) == old(self).selection(g)
                &&& forall|g: Seq<char>, v: Seq<char>|
                    #[trigger] final(self).value_rows(g, v) == merged(
                        old(self).value_rows(g, v),
                        loaded_rows(header, taken.take(n), old(self).rows(), g, v),
                    )
            },
    {
        let header = match read_csv_header(content) {
            Some(h) => h,
            None => return Err(LoadError::HeaderUnreadable),
        };
        let records = read_csv_records(content);
        let ghost pre = *self;
        let ghost h = views(header@);
        let ghost recs = csv_records_of(content@);
        let ghost r0 = pre.rows();
        assert(records@.map_values(|o: Option<Vec<String>>| record_view(o)) == recs);
        let mut loaded: u32 = 0;
        let mut k: usize = 0;
        proof {
            assert(recs.take(0) =~= Seq::<Option<Seq<Seq<char>>>>::empty());
            assert forall|g: Seq<char>, v: Seq<char>|
                #[trigger] self.value_rows(g, v) == merged(pre.value_rows(g, v), loaded_rows(h, ok_records(recs.take(0)), r0, g, v)) by {
                assert(loaded_rows(h, ok_records(recs.take(0)), r0, g, v) =~= Set::<u32>::empty());
            }
        }
        while k < records.len() && self.row_count() < u32::MAX
            invariant
                self.wf(),
                0 <= k <= records@.len(),
                recs.len() == records@.len(),
                forall|j: int| 0 <= j < records@.len() ==> #[trigger] recs[j] == record_view(records@[j]),
                h == views(header@),
                self.rows() == r0 + loaded,
                loaded as int == ok_records(recs.take(k as int)).len(),
                forall|g: Seq<char>| #[trigger] self.selection(g) == pre.selection(g),
                forall|g: Seq<char>, v: Seq<char>|
                    #[trigger] self.value_rows(g, v) == merged(
                        pre.value_rows(g, v),
                        loaded_rows(h, ok_records(recs.take(k as int)), r0, g, v),
                    ),
            decreases records@.len() - k,
        {
            let ghost before = *self;
            let ghost prev = ok_records(recs.take(k as int));
            assert(recs.take(k as int + 1).drop_last() == recs.take(k as int));
            assert(recs[k as int] == record_view(records@[k as int]));
            match &records[k] {
                Some(rec) => {
                    self.append_record(&header, rec);
                    let ghost cur = ok_records(recs.take(k as int + 1));
                    assert(cur == prev.push(views(rec@)));
                    loaded = loaded + 1;
                    proof {
                        let x = (r0 + prev.len()) as u32;
                        assert(before.rows() as u32 == x);
                        assert forall|g: Seq<char>, v: Seq<char>|
                            #[trigger] self.value_rows(g, v) == merged(pre.value_rows(g, v), loaded_rows(h, cur, r0, g, v)) by {
                            let s0 = loaded_rows(h, prev, r0, g, v);
                            let s1 = loaded_rows(h, cur, r0, g, v);
                            if record_cell(h, views(rec@), g) == Some(v) {
                                assert(s1 =~= s0.insert(x));
                                assert(s1.contains(x));
                                let o = pre.value_rows(g, v);
                                if s0 == Set::<u32>::empty() {
                                    assert(o.unwrap_or(Set::<u32>::empty()).union(s1) =~= o.unwrap_or(Set::<u32>::empty()).insert(x));
                                } else {
                                    assert(o.unwrap_or(Set::<u32>::empty()).union(s1) =~= o.unwrap_or(Set::<u32>::empty()).union(s0).insert(x));
                                }
                            } else {
                                assert(s1 =~= s0);
                            }
                        }
                    }
                },
                None => {
                    assert(ok_records(recs.take(k as int + 1)) == prev);
                },
            }
            k = k + 1;
        }
        proof {
            lemma_ok_prefix(recs, k as int);
            if k == records.len() {
                assert(recs.take(k as int) == recs);
            }
            let taken = ok_records(recs);
            assert(taken.take(loaded as int) == ok_records(recs.take(k as int)));
            assert(csv_header_of(content@) == Some(h));
            self.lemma_rows_bound();
            if k < records.len() {
                assert(self.rows() == u32::MAX);
            }
        }
        Ok(loaded)
    }
}

} // verus!
