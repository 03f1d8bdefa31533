//! Result sets: a bitmap of series ids with deferred metric filters while
//! packed, a timestamp-ordered record vector once unpacked; and the
//! evaluation of predicate trees over a block.
use vstd::prelude::*;
use croaring::Bitmap;
use crate::bitmap::{bitmap_and_inplace, bitmap_clone, bitmap_items, bitmap_new, bitmap_or_inplace, bitmap_to_vec};
use crate::block::{posting, Block};
use crate::predicate::{holds, lookup, metric_holds, Condition, Conditions, Op, Select, Type};
use crate::record::{make_label_token, names_of, record_key, record_tokens, Record, RecordView};
use crate::series::{series_key, series_records, series_tokens, SeriesView, payload_record, zip_values};

verus! {

/// A deferred metric filter: the named variable compared with a threshold.
#[derive(Debug, Clone, Copy, PartialEq, Eq)]
pub struct FilterOp {
    pub op: Op,
    pub threshold: u64,
}

/// A deferred metric filter on one variable.
#[derive(Debug, Clone, PartialEq, Eq)]
pub struct Filter {
    pub name: String,
    pub cmp: FilterOp,
}

pub open spec fn filter_passes(f: (Seq<char>, Op, u64), r: RecordView) -> bool {
    match lookup(r.variables, f.0) {
        Some(x) => metric_holds(f.1, x, f.2),
        None => false,
    }
}

pub open spec fn filters_view(fs: Seq<Filter>) -> Seq<(Seq<char>, Op, u64)> {
    fs.map_values(|f: Filter| (f.name@, f.cmp.op, f.cmp.threshold))
}

/// The record passes every filter.
pub open spec fn passes_all(fs: Seq<(Seq<char>, Op, u64)>, r: RecordView) -> bool {
    forall|k: int| 0 <= k < fs.len() ==> filter_passes(#[trigger] fs[k], r)
}

/// Every record of the block.
pub open spec fn block_records(m: Seq<SeriesView>) -> Set<RecordView> {
    Set::new(|r: RecordView| exists|i: int| 0 <= i < m.len() && series_records(m[i]).contains(r))
}

/// The records that a packed set stands for: those of the listed series
/// that pass every filter.
pub open spec fn packed_set(m: Seq<SeriesView>, ids: Set<u32>, fs: Seq<(Seq<char>, Op, u64)>) -> Set<
    RecordView,
> {
    Set::new(
        |r: RecordView|
            passes_all(fs, r) && exists|i: u32|
                ids.contains(i) && (i as int) < m.len() && series_records(m[i as int]).contains(r),
    )
}

/// The records of the block of which the tree holds.
pub open spec fn select_set(c: Conditions, m: Seq<SeriesView>) -> Set<RecordView> {
    Set::new(|r: RecordView| block_records(m).contains(r) && holds(c, r))
}

/// The records held by a vector.
pub open spec fn data_set(d: Seq<Record>) -> Set<RecordView> {
    Set::new(|r: RecordView| exists|k: int| 0 <= k < d.len() && d[k]@ == r)
}

/// Timestamps never decrease and no record appears twice.
pub open spec fn sorted_unique(d: Seq<Record>) -> bool {
    &&& forall|a: int, b: int| 0 <= a < b < d.len() ==> d[a].timestamp <= d[b].timestamp
    &&& forall|a: int, b: int| 0 <= a < b < d.len() ==> d[a]@ != d[b]@
}

/// A set of records, packed or unpacked.
pub struct ResultSet {
    pub unpacked: bool,
    pub series: Bitmap,
    pub filters: Vec<Filter>,
    pub data: Vec<Record>,
}

impl ResultSet {
    /// The records the set stands for, given the block's series.
    pub open spec fn records(&self, m: Seq<SeriesView>) -> Set<RecordView> {
        if self.unpacked {
            data_set(self.data@)
        } else {
            packed_set(m, bitmap_items(self.series), filters_view(self.filters@))
        }
    }

    /// An unpacked set is ordered by timestamp without repeats.
    pub open spec fn wf(&self) -> bool {
        self.unpacked ==> sorted_unique(self.data@)
    }
}

/// Puts the record in the vector after every record with an earlier or equal
/// timestamp, unless an equal record is already there.
pub fn insert_sorted_unique(data: &mut Vec<Record>, r: Record)
    requires
        sorted_unique(old(data)@),
    ensures
        sorted_unique(final(data)@),
        data_set(final(data)@) == data_set(old(data)@).insert(r@),
{
    let mut k: usize = 0;
    while k < data.len()
        invariant
            k <= data@.len(),
            data@ == old(data)@,
            sorted_unique(data@),
            forall|j: int| 0 <= j < k ==> data@[j]@ != r@,
        decreases data.len() - k,
    {
        if data[k].same_as(&r) {
            proof {
                assert(data_set(data@) =~= data_set(data@).insert(r@));
            }
            return;
        }
        k = k + 1;
    }
    let mut i: usize = data.len();
    while i > 0 && data[i - 1].timestamp > r.timestamp
        invariant
            i <= data@.len(),
            data@ == old(data)@,
            sorted_unique(data@),
            forall|j: int| 0 <= j < data@.len() ==> data@[j]@ != r@,
            forall|j: int| i <= j < data@.len() ==> data@[j].timestamp > r.timestamp,
        decreases i,
    {
        i = i - 1;
    }
    let ghost d0 = data@;
    let ghost rv = r@;
    let ghost rt = r.timestamp;
    data.insert(i, r);
    proof {
        let d1 = data@;
        assert forall|a: int, b: int| 0 <= a < b < d1.len() implies d1[a].timestamp
            <= d1[b].timestamp by {
            if b < i {
            } else if b == i {
                if a < i - 1 {
                    assert(d0[a].timestamp <= d0[i - 1].timestamp);
                }
            } else if a < i {
                assert(d0[a].timestamp <= d0[b - 1].timestamp);
            } else if a == i {
            } else {
            }
        }
        assert forall|a: int, b: int| 0 <= a < b < d1.len() implies d1[a]@ != d1[b]@ by {
            if b < i {
            } else if b == i {
            } else if a < i {
                assert(d0[a]@ != d0[b - 1]@);
            } else if a == i {
            } else {
                assert(d0[a - 1]@ != d0[b - 1]@);
            }
        }
        assert(data_set(d1) =~= data_set(d0).insert(rv)) by {
            assert forall|x: RecordView| #[trigger] data_set(d1).contains(x) implies data_set(
                d0,
            ).insert(rv).contains(x) by {
                let k = choose|k: int| 0 <= k < d1.len() && d1[k]@ == x;
                if k < i {
                    assert(d0[k]@ == x);
                } else if k > i {
                    assert(d0[k - 1]@ == x);
                }
            }
            assert forall|x: RecordView| #[trigger] data_set(d0).insert(rv).contains(x) implies data_set(
                d1,
            ).contains(x) by {
                if x == rv {
                    assert(d1[i as int]@ == x);
                } else {
                    let k = choose|k: int| 0 <= k < d0.len() && d0[k]@ == x;
                    if k < i {
                        assert(d1[k]@ == x);
                    } else {
                        assert(d1[k + 1]@ == x);
                    }
                }
            }
        }
    }
}

/// The records of the listed series that pass every filter.
pub open spec fn gathered(m: Seq<SeriesView>, ids: Seq<u32>, fv: Seq<(Seq<char>, Op, u64)>) -> Set<
    RecordView,
> {
    Set::new(
        |r: RecordView|
            passes_all(fv, r) && exists|q: int|
                0 <= q < ids.len() && (ids[q] as int) < m.len() && series_records(
                    m[ids[q] as int],
                ).contains(r),
    )
}

/// Whether the record passes every filter.
pub fn passes(filters: &Vec<Filter>, r: &Record) -> (res: bool)
    ensures
        res == passes_all(filters_view(filters@), r@),
{
    let mut k: usize = 0;
    while k < filters.len()
        invariant
            k <= filters@.len(),
            forall|j: int| 0 <= j < k ==> filter_passes(#[trigger] filters_view(filters@)[j], r@),
        decreases filters.len() - k,
    {
        let f = &filters[k];
        let ok = match r.get_metric(&f.name) {
            Some(x) => f.cmp.op.compare(x, f.cmp.threshold),
            None => false,
        };
        if !ok {
            assert(!filter_passes(filters_view(filters@)[k as int], r@));
            return false;
        }
        k = k + 1;
    }
    true
}

impl ResultSet {
    /// An empty packed set.
    pub fn empty() -> (r: ResultSet)
        ensures
            r.wf(),
            !r.unpacked,
            bitmap_items(r.series) == Set::<u32>::empty(),
            r.filters@.len() == 0,
            forall|m: Seq<SeriesView>| #[trigger] r.records(m) == Set::<RecordView>::empty(),
    {
        let r = ResultSet {
            unpacked: false,
            series: bitmap_new(),
            filters: Vec::new(),
            data: Vec::new(),
        };
        assert forall|m: Seq<SeriesView>| #[trigger] r.records(m) == Set::<RecordView>::empty() by {
            assert(r.records(m) =~= Set::<RecordView>::empty());
        }
        r
    }

    /// Materialises the set: the records of the listed series that pass every
    /// filter, ordered by timestamp (ties in the order the series are listed
    /// and the records were appended), without repeats. An unpacked set is
    /// left as it is.
    pub fn unpack(&mut self, block: &Block)
        requires
            old(self).wf(),
            block.wf(),
        ensures
            final(self).unpacked,
            final(self).wf(),
            final(self).records(block.series_view()) == old(self).records(block.series_view()),
    {
        if self.unpacked {
            return;
        }
        let ghost m = block.series_view();
        let ghost fv = filters_view(self.filters@);
        let ids = bitmap_to_vec(&self.series);
        let mut data: Vec<Record> = Vec::new();
        let mut k: usize = 0;
        assert(data_set(data@) =~= gathered(m, ids@.take(0), fv));
        while k < ids.len()
            invariant
                block.wf(),
                m == block.series_view(),
                fv == filters_view(self.filters@),
                k <= ids@.len(),
                sorted_unique(data@),
                data_set(data@) == gathered(m, ids@.take(k as int), fv),
            decreases ids.len() - k,
        {
            let id = ids[k] as usize;
            let ghost before = data_set(data@);
            if id < block.storage.len() {
                let recs = block.storage[id].get_records();
                let ghost rv = recs@.map_values(|x: Record| x@);
                let mut q: usize = 0;
                assert(data_set(data@) =~= before.union(
                    Set::new(
                        |r: RecordView|
                            passes_all(fv, r) && exists|u: int| 0 <= u < 0 && rv[u] == r,
                    ),
                ));
                while q < recs.len()
                    invariant
                        q <= recs@.len(),
                        rv == recs@.map_values(|x: Record| x@),
                        fv == filters_view(self.filters@),
                        sorted_unique(data@),
                        data_set(data@) == before.union(
                            Set::new(
                                |r: RecordView|
                                    passes_all(fv, r) && exists|u: int| 0 <= u < q && rv[u] == r,
                            ),
                        ),
                    decreases recs.len() - q,
                {
                    let ghost prev = data_set(data@);
                    if passes(&self.filters, &recs[q]) {
                        insert_sorted_unique(&mut data, recs[q].duplicate());
                    }
                    proof {
                        assert(rv[q as int] == recs@[q as int]@);
                        assert(data_set(data@) =~= before.union(
                            Set::new(
                                |r: RecordView|
                                    passes_all(fv, r) && exists|u: int|
                                        0 <= u < q + 1 && rv[u] == r,
                            ),
                        )) by {
                            assert forall|r: RecordView|
                                passes_all(fv, r) && (exists|u: int|
                                    0 <= u < q + 1 && rv[u] == r) implies #[trigger] data_set(
                                data@,
                            ).contains(r) by {
                                let u = choose|u: int| 0 <= u < q + 1 && rv[u] == r;
                                if u < q {
                                    assert(prev.contains(r));
                                }
                            }
                            assert forall|r: RecordView| #[trigger]
                                data_set(data@).contains(r) && !before.contains(r) implies passes_all(
                                fv,
                                r,
                            ) && (exists|u: int| 0 <= u < q + 1 && rv[u] == r) by {
                                if prev.contains(r) {
                                    let u = choose|u: int| 0 <= u < q && rv[u] == r;
                                    assert(0 <= u < q + 1 && rv[u] == r);
                                } else {
                                    assert(rv[q as int] == r);
                                }
                            }
                        }
                    }
                    q = q + 1;
                }
                proof {
                    assert(rv =~= series_records(m[id as int]));
                    assert(ids@.take(k + 1) =~= ids@.take(k as int).push(ids@[k as int]));
                    assert(data_set(data@) =~= gathered(m, ids@.take(k + 1), fv)) by {
                        let tk = ids@.take(k as int);
                        let tk1 = ids@.take(k + 1);
                        assert forall|r: RecordView| #[trigger]
                            gathered(m, tk1, fv).contains(r) implies data_set(data@).contains(r) by {
                            let qq = choose|qq: int|
                                0 <= qq < tk1.len() && (tk1[qq] as int) < m.len()
                                    && series_records(m[tk1[qq] as int]).contains(r);
                            if qq < k {
                                assert(tk[qq] == tk1[qq]);
                                assert(gathered(m, tk, fv).contains(r));
                            } else {
                                let u = choose|u: int| 0 <= u < rv.len() && rv[u] == r;
                                assert(0 <= u < recs@.len());
                            }
                        }
                        assert forall|r: RecordView| #[trigger]
                            data_set(data@).contains(r) implies gathered(m, tk1, fv).contains(r) by {
                            if before.contains(r) {
                                let qq = choose|qq: int|
                                    0 <= qq < tk.len() && (tk[qq] as int) < m.len()
                                        && series_records(m[tk[qq] as int]).contains(r);
                                assert(tk1[qq] == tk[qq]);
                            } else {
                                let u = choose|u: int| 0 <= u < recs@.len() && rv[u] == r;
                                assert(tk1[k as int] == id);
                                assert(series_records(m[tk1[k as int] as int])[u] == r);
                            }
                        }
                    }
                }
            } else {
                proof {
                    assert(ids@.take(k + 1) =~= ids@.take(k as int).push(ids@[k as int]));
                    assert(data_set(data@) =~= gathered(m, ids@.take(k + 1), fv)) by {
                        let tk = ids@.take(k as int);
                        let tk1 = ids@.take(k + 1);
                        assert forall|r: RecordView| #[trigger]
                            gathered(m, tk1, fv).contains(r) implies data_set(data@).contains(r) by {
                            let qq = choose|qq: int|
                                0 <= qq < tk1.len() && (tk1[qq] as int) < m.len()
                                    && series_records(m[tk1[qq] as int]).contains(r);
                            if qq < k {
                                assert(tk[qq] == tk1[qq]);
                                assert(gathered(m, tk, fv).contains(r));
                            }
                        }
                        assert forall|r: RecordView| #[trigger]
                            data_set(data@).contains(r) implies gathered(m, tk1, fv).contains(r) by {
                            let qq = choose|qq: int|
                                0 <= qq < tk.len() && (tk[qq] as int) < m.len()
                                    && series_records(m[tk[qq] as int]).contains(r);
                            assert(tk1[qq] == tk[qq]);
                        }
                    }
                }
            }
            k = k + 1;
        }
        proof {
            assert(ids@.take(ids@.len() as int) =~= ids@);
            assert(gathered(m, ids@, fv) =~= packed_set(m, bitmap_items(self.series), fv)) by {
                assert forall|r: RecordView| #[trigger] gathered(m, ids@, fv).contains(r) implies packed_set(
                    m,
                    bitmap_items(self.series),
                    fv,
                ).contains(r) by {
                    let qq = choose|qq: int|
                        0 <= qq < ids@.len() && (ids@[qq] as int) < m.len() && series_records(
                            m[ids@[qq] as int],
                        ).contains(r);
                    assert(ids@.to_set().contains(ids@[qq]));
                }
                assert forall|r: RecordView| #[trigger] packed_set(
                    m,
                    bitmap_items(self.series),
                    fv,
                ).contains(r) implies gathered(m, ids@, fv).contains(r) by {
                    let i = choose|i: u32|
                        bitmap_items(self.series).contains(i) && (i as int) < m.len()
                            && series_records(m[i as int]).contains(r);
                    assert(ids@.to_set().contains(i));
                    let qq = choose|qq: int| 0 <= qq < ids@.len() && ids@[qq] == i;
                    assert(0 <= qq < ids@.len() && (ids@[qq] as int) < m.len() && series_records(
                        m[ids@[qq] as int],
                    ).contains(r));
                }
            }
        }
        self.data = data;
        self.unpacked = true;
    }
}

/// A record of a series has the series' identity key and tokens.
pub proof fn lemma_series_record(s: SeriesView, r: RecordView)
    requires
        series_records(s).contains(r),
    ensures
        record_key(r) == series_key(s),
        record_tokens(r) == series_tokens(s),
{
    let u = choose|u: int| 0 <= u < series_records(s).len() && series_records(s)[u] == r;
    let p = s.payloads[u];
    assert(r == payload_record(s, p));
    assert(names_of(zip_values(s.variables, p.0)) =~= s.variables);
}

/// A record belongs to at most one series of a block.
pub proof fn lemma_record_in_one_series(block: &Block, r: RecordView, i: int, j: int)
    requires
        block.wf(),
        0 <= i < block.series_view().len(),
        0 <= j < block.series_view().len(),
        series_records(block.series_view()[i]).contains(r),
        series_records(block.series_view()[j]).contains(r),
    ensures
        i == j,
{
    let m = block.series_view();
    lemma_series_record(m[i], r);
    lemma_series_record(m[j], r);
    assert(m[i] == block.storage@[i]@);
    assert(m[j] == block.storage@[j]@);
    if i < j {
        assert(block.id_map@[i]@ != block.id_map@[j]@);
    } else if j < i {
        assert(block.id_map@[j]@ != block.id_map@[i]@);
    }
}

/// Whether the vector holds a record equal to `r`.
pub fn contains_record(data: &Vec<Record>, r: &Record) -> (res: bool)
    ensures
        res == data_set(data@).contains(r@),
{
    let mut k: usize = 0;
    while k < data.len()
        invariant
            k <= data@.len(),
            forall|j: int| 0 <= j < k ==> data@[j]@ != r@,
        decreases data.len() - k,
    {
        if data[k].same_as(r) {
            return true;
        }
        k = k + 1;
    }
    false
}

impl ResultSet {
    /// The union. Two packed sets without filters stay packed, their bitmaps
    /// joined; otherwise both are unpacked and their records merged by
    /// timestamp, equal records kept once.
    pub fn union(self, other: ResultSet, block: &Block) -> (r: ResultSet)
        requires
            self.wf(),
            other.wf(),
            block.wf(),
        ensures
            r.wf(),
            r.records(block.series_view()) == self.records(block.series_view()).union(
                other.records(block.series_view()),
            ),
            r.unpacked == (self.unpacked || other.unpacked || self.filters@.len() > 0
                || other.filters@.len() > 0),
            !r.unpacked ==> bitmap_items(r.series) == bitmap_items(self.series).union(
                bitmap_items(other.series),
            ) && r.filters@.len() == 0,
    {
        let ghost m = block.series_view();
        let mut a = self;
        let mut b = other;
        if !a.unpacked && !b.unpacked && a.filters.len() == 0 && b.filters.len() == 0 {
            let ghost ia = bitmap_items(a.series);
            bitmap_or_inplace(&mut a.series, &b.series);
            proof {
                let fv = filters_view(a.filters@);
                assert(fv =~= filters_view(b.filters@));
                assert(packed_set(m, bitmap_items(a.series), fv) =~= packed_set(m, ia, fv).union(
                    packed_set(m, bitmap_items(b.series), fv),
                )) by {
                    assert forall|r: RecordView| #[trigger]
                        packed_set(m, bitmap_items(a.series), fv).contains(r) implies packed_set(
                        m,
                        ia,
                        fv,
                    ).union(packed_set(m, bitmap_items(b.series), fv)).contains(r) by {
                        let i = choose|i: u32|
                            bitmap_items(a.series).contains(i) && (i as int) < m.len()
                                && series_records(m[i as int]).contains(r);
                        if ia.contains(i) {
                            assert(packed_set(m, ia, fv).contains(r));
                        } else {
                            assert(packed_set(m, bitmap_items(b.series), fv).contains(r));
                        }
                    }
                    assert forall|r: RecordView|
                        packed_set(m, ia, fv).union(packed_set(m, bitmap_items(b.series), fv)).contains(
                            r,
                        ) implies #[trigger] packed_set(m, bitmap_items(a.series), fv).contains(r) by {
                        if packed_set(m, ia, fv).contains(r) {
                            let i = choose|i: u32|
                                ia.contains(i) && (i as int) < m.len() && series_records(
                                    m[i as int],
                                ).contains(r);
                            assert(bitmap_items(a.series).contains(i));
                        } else {
                            let i = choose|i: u32|
                                bitmap_items(b.series).contains(i) && (i as int) < m.len()
                                    && series_records(m[i as int]).contains(r);
                            assert(bitmap_items(a.series).contains(i));
                        }
                    }
                }
            }
            return a;
        }
        let ghost sa = a.records(m);
        let ghost sb = b.records(m);
        a.unpack(block);
        b.unpack(block);
        let ghost d0 = data_set(a.data@);
        let mut k: usize = 0;
        while k < b.data.len()
            invariant
                k <= b.data@.len(),
                a.unpacked,
                sorted_unique(a.data@),
                data_set(a.data@) == d0.union(
                    Set::new(|x: RecordView| exists|u: int| 0 <= u < k && b.data@[u]@ == x),
                ),
            decreases b.data.len() - k,
        {
            let ghost prev = data_set(a.data@);
            insert_sorted_unique(&mut a.data, b.data[k].duplicate());
            proof {
                assert(data_set(a.data@) =~= d0.union(
                    Set::new(|x: RecordView| exists|u: int| 0 <= u < k + 1 && b.data@[u]@ == x),
                )) by {
                    assert forall|x: RecordView| #[trigger] data_set(a.data@).contains(x) && !d0.contains(
                        x,
                    ) implies exists|u: int| 0 <= u < k + 1 && b.data@[u]@ == x by {
                        if prev.contains(x) {
                            let u = choose|u: int| 0 <= u < k && b.data@[u]@ == x;
                            assert(0 <= u < k + 1 && b.data@[u]@ == x);
                        } else {
                            assert(b.data@[k as int]@ == x);
                        }
                    }
                    assert forall|x: RecordView|
                        (exists|u: int| 0 <= u < k + 1 && b.data@[u]@ == x) implies #[trigger] data_set(
                        a.data@,
                    ).contains(x) by {
                        let u = choose|u: int| 0 <= u < k + 1 && b.data@[u]@ == x;
                        if u < k {
                            assert(prev.contains(x));
                        }
                    }
                }
            }
            k = k + 1;
        }
        proof {
            assert(Set::new(|x: RecordView| exists|u: int| 0 <= u < b.data@.len() && b.data@[u]@ == x)
                =~= data_set(b.data@));
        }
        a
    }

    /// The intersection. Two packed sets stay packed: their bitmaps meet and
    /// their filters are joined; otherwise both are unpacked and the records
    /// of the first that the second holds too are kept, in timestamp order.
    pub fn intersection(self, other: ResultSet, block: &Block) -> (r: ResultSet)
        requires
            self.wf(),
            other.wf(),
            block.wf(),
        ensures
            r.wf(),
            r.records(block.series_view()) == self.records(block.series_view()).intersect(
                other.records(block.series_view()),
            ),
            r.unpacked == (self.unpacked || other.unpacked),
            !r.unpacked ==> bitmap_items(r.series) == bitmap_items(self.series).intersect(
                bitmap_items(other.series),
            ) && filters_view(r.filters@) == filters_view(self.filters@) + filters_view(
                other.filters@,
            ),
    {
        let ghost m = block.series_view();
        let mut a = self;
        let mut b = other;
        if !a.unpacked && !b.unpacked {
            let ghost ia = bitmap_items(a.series);
            let ghost fa = filters_view(a.filters@);
            let ghost fb = filters_view(b.filters@);
            bitmap_and_inplace(&mut a.series, &b.series);
            a.filters.append(&mut b.filters);
            proof {
                let fv = filters_view(a.filters@);
                assert(fv =~= fa + fb);
                let ib = bitmap_items(b.series);
                assert(packed_set(m, bitmap_items(a.series), fv) =~= packed_set(m, ia, fa).intersect(
                    packed_set(m, ib, fb),
                )) by {
                    assert forall|r: RecordView| #[trigger]
                        packed_set(m, bitmap_items(a.series), fv).contains(r) implies packed_set(
                        m,
                        ia,
                        fa,
                    ).contains(r) && packed_set(m, ib, fb).contains(r) by {
                        assert forall|k: int| 0 <= k < fa.len() implies filter_passes(
                            #[trigger] fa[k],
                            r,
                        ) by {
                            assert(fv[k] == fa[k]);
                        }
                        assert forall|k: int| 0 <= k < fb.len() implies filter_passes(
                            #[trigger] fb[k],
                            r,
                        ) by {
                            assert(fv[fa.len() + k] == fb[k]);
                        }
                    }
                    assert forall|r: RecordView|
                        packed_set(m, ia, fa).contains(r) && packed_set(m, ib, fb).contains(
                            r,
                        ) implies #[trigger] packed_set(m, bitmap_items(a.series), fv).contains(r) by {
                        let i = choose|i: u32|
                            ia.contains(i) && (i as int) < m.len() && series_records(
                                m[i as int],
                            ).contains(r);
                        let j = choose|j: u32|
                            ib.contains(j) && (j as int) < m.len() && series_records(
                                m[j as int],
                            ).contains(r);
                        lemma_record_in_one_series(block, r, i as int, j as int);
                        assert(bitmap_items(a.series).contains(i));
                        assert forall|k: int| 0 <= k < fv.len() implies filter_passes(
                            #[trigger] fv[k],
                            r,
                        ) by {
                            if k < fa.len() {
                                assert(fv[k] == fa[k]);
                            } else {
                                assert(fv[k] == fb[k - fa.len()]);
                            }
                        }
                    }
                }
            }
            return a;
        }
        let ghost sa = a.records(m);
        let ghost sb = b.records(m);
        a.unpack(block);
        b.unpack(block);
        let mut out: Vec<Record> = Vec::new();
        let mut k: usize = 0;
        while k < a.data.len()
            invariant
                k <= a.data@.len(),
                sorted_unique(out@),
                data_set(out@) == Set::new(
                    |x: RecordView|
                        (exists|u: int| 0 <= u < k && a.data@[u]@ == x) && data_set(
                            b.data@,
                        ).contains(x),
                ),
            decreases a.data.len() - k,
        {
            let ghost prev = data_set(out@);
            if contains_record(&b.data, &a.data[k]) {
                insert_sorted_unique(&mut out, a.data[k].duplicate());
            }
            proof {
                assert(data_set(out@) =~= Set::new(
                    |x: RecordView|
                        (exists|u: int| 0 <= u < k + 1 && a.data@[u]@ == x) && data_set(
                            b.data@,
                        ).contains(x),
                )) by {
                    assert forall|x: RecordView| #[trigger] data_set(out@).contains(x) implies (exists|
                        u: int,
                    | 0 <= u < k + 1 && a.data@[u]@ == x) && data_set(b.data@).contains(x) by {
                        if prev.contains(x) {
                            let u = choose|u: int| 0 <= u < k && a.data@[u]@ == x;
                            assert(0 <= u < k + 1 && a.data@[u]@ == x);
                        } else {
                            assert(a.data@[k as int]@ == x);
                        }
                    }
                    assert forall|x: RecordView|
                        (exists|u: int| 0 <= u < k + 1 && a.data@[u]@ == x) && data_set(
                            b.data@,
                        ).contains(x) implies #[trigger] data_set(out@).contains(x) by {
                        let u = choose|u: int| 0 <= u < k + 1 && a.data@[u]@ == x;
                        if u < k {
                            assert(prev.contains(x));
                        }
                    }
                }
            }
            k = k + 1;
        }
        proof {
            assert(data_set(out@) =~= data_set(a.data@).intersect(data_set(b.data@)));
        }
        a.data = out;
        a
    }

    /// A copy of the records, in order.
    pub fn into_vec(&self) -> (r: Vec<Record>)
        ensures
            r@.map_values(|x: Record| x@) == self.data@.map_values(|x: Record| x@),
    {
        let mut out: Vec<Record> = Vec::new();
        let mut k: usize = 0;
        while k < self.data.len()
            invariant
                k <= self.data@.len(),
                out@.len() == k,
                forall|j: int| 0 <= j < k ==> (#[trigger] out@[j])@ == self.data@[j]@,
            decreases self.data.len() - k,
        {
            out.push(self.data[k].duplicate());
            k = k + 1;
        }
        assert(out@.map_values(|x: Record| x@) =~= self.data@.map_values(|x: Record| x@));
        out
    }
}

proof fn lemma_lookup_named(vs: Seq<(Seq<char>, u64)>, n: Seq<char>)
    requires
        lookup(vs, n) is Some,
    ensures
        names_of(vs).contains(n),
    decreases vs.len(),
{
    if vs.last().0 == n {
        assert(names_of(vs)[vs.len() - 1] == n);
    } else {
        lemma_lookup_named(vs.drop_last(), n);
        let k = choose|k: int| 0 <= k < names_of(vs.drop_last()).len() && names_of(vs.drop_last())[k] == n;
        assert(names_of(vs)[k] == n);
    }
}

/// A packed set of the series holding token `t`, under the filters `fv`,
/// stands for the records of the block that hold `t` and pass the filters.
proof fn lemma_posting_records(block: &Block, t: Seq<char>, fv: Seq<(Seq<char>, Op, u64)>, r: RecordView)
    requires
        block.wf(),
    ensures
        packed_set(block.series_view(), posting(block.series_view(), t), fv).contains(r) == (
        block_records(block.series_view()).contains(r) && record_tokens(r).contains(t)
            && passes_all(fv, r)),
{
    let m = block.series_view();
    if packed_set(m, posting(m, t), fv).contains(r) {
        let i = choose|i: u32|
            posting(m, t).contains(i) && (i as int) < m.len() && series_records(m[i as int]).contains(r);
        lemma_series_record(m[i as int], r);
    }
    if block_records(m).contains(r) && record_tokens(r).contains(t) && passes_all(fv, r) {
        let i = choose|i: int| 0 <= i < m.len() && series_records(m[i]).contains(r);
        lemma_series_record(m[i], r);
        assert(posting(m, t).contains(i as u32));
    }
}

/// The series ids of a leaf's packed set: the posting list of `k=v` for
/// `LabelKey(k) Eq LabelValue(v)`, that of `n` for `Variable(n) op Metric(t)`,
/// and none for any other leaf.
pub open spec fn leaf_ids(c: Condition, m: Seq<SeriesView>) -> Set<u32> {
    match (c.lhs, c.rhs) {
        (Type::LabelKey(k), Type::LabelValue(v)) => if c.op == Op::Eq {
            posting(m, k@ + seq!['='] + v@)
        } else {
            Set::empty()
        },
        (Type::Variable(n), Type::Metric(_)) => posting(m, n@),
        _ => Set::empty(),
    }
}

/// The deferred filters of a leaf: `n op t` for `Variable(n) op Metric(t)`,
/// none otherwise.
pub open spec fn leaf_filters(c: Condition) -> Seq<(Seq<char>, Op, u64)> {
    match (c.lhs, c.rhs) {
        (Type::Variable(n), Type::Metric(t)) => seq![(n@, c.op, t)],
        _ => Seq::empty(),
    }
}

/// No leaf of the tree carries a metric filter.
pub open spec fn filter_free(c: Conditions) -> bool
    decreases c,
{
    match c {
        Conditions::Leaf(x) => leaf_filters(x).len() == 0,
        Conditions::And(a, b) => filter_free(*a) && filter_free(*b),
        Conditions::Or(a, b) => filter_free(*a) && filter_free(*b),
    }
}

/// The series ids of a filter-free tree's packed set: the leaves' ids, met
/// under AND and joined under OR.
pub open spec fn tree_ids(c: Conditions, m: Seq<SeriesView>) -> Set<u32>
    decreases c,
{
    match c {
        Conditions::Leaf(x) => leaf_ids(x, m),
        Conditions::And(a, b) => tree_ids(*a, m).intersect(tree_ids(*b, m)),
        Conditions::Or(a, b) => tree_ids(*a, m).union(tree_ids(*b, m)),
    }
}

impl Condition {
    /// The leaf's result set: for `LabelKey(k) Eq LabelValue(v)` the posting
    /// list of `k=v`; for `Variable(n) op Metric(t)` the posting list of `n`
    /// with the filter `n op t`; for any other leaf an empty set.
    pub fn eval(&self, block: &Block) -> (r: ResultSet)
        requires
            block.wf(),
        ensures
            r.wf(),
            !r.unpacked,
            r.records(block.series_view()) == select_set(Conditions::Leaf(*self), block.series_view()),
            bitmap_items(r.series) == leaf_ids(*self, block.series_view()),
            filters_view(r.filters@) == leaf_filters(*self),
    {
        let ghost m = block.series_view();
        match (&self.lhs, &self.rhs) {
            (Type::LabelKey(k), Type::LabelValue(v)) => {
                if !matches!(self.op, Op::Eq) {
                    let r = ResultSet::empty();
                    assert(r.records(m) =~= select_set(Conditions::Leaf(*self), m));
                    return r;
                }
                let tok = make_label_token(k, v);
                let series = match block.search_index(&tok) {
                    Some(b) => bitmap_clone(b),
                    None => bitmap_new(),
                };
                let r = ResultSet { unpacked: false, series, filters: Vec::new(), data: Vec::new() };
                proof {
                    assert(bitmap_items(r.series) =~= posting(m, tok@));
                    assert(r.records(m) =~= select_set(Conditions::Leaf(*self), m)) by {
                        assert forall|x: RecordView| #[trigger] r.records(m).contains(x) == select_set(
                            Conditions::Leaf(*self),
                            m,
                        ).contains(x) by {
                            lemma_posting_records(block, tok@, filters_view(r.filters@), x);
                        }
                    }
                }
                r
            },
            (Type::Variable(n), Type::Metric(t)) => {
                let series = match block.search_index(n) {
                    Some(b) => bitmap_clone(b),
                    None => bitmap_new(),
                };
                let mut filters: Vec<Filter> = Vec::new();
                filters.push(Filter { name: n.clone(), cmp: FilterOp { op: self.op, threshold: *t } });
                let r = ResultSet { unpacked: false, series, filters, data: Vec::new() };
                proof {
                    let fv = filters_view(r.filters@);
                    assert(bitmap_items(r.series) =~= posting(m, n@));
                    assert(r.records(m) =~= select_set(Conditions::Leaf(*self), m)) by {
                        assert forall|x: RecordView| #[trigger] r.records(m).contains(x) == select_set(
                            Conditions::Leaf(*self),
                            m,
                        ).contains(x) by {
                            lemma_posting_records(block, n@, fv, x);
                            assert(passes_all(fv, x) == filter_passes(fv[0], x));
                            if lookup(x.variables, n@) is Some {
                                lemma_lookup_named(x.variables, n@);
                                let q = choose|q: int| 0 <= q < names_of(x.variables).len() && names_of(x.variables)[q] == n@;
                                assert(record_tokens(x)[x.labels.len() + q] == n@);
                            }
                        }
                    }
                }
                r
            },
            _ => {
                let r = ResultSet::empty();
                assert(r.records(m) =~= select_set(Conditions::Leaf(*self), m));
                r
            },
        }
    }
}

impl Conditions {
    /// The tree's result set: leaves as `Condition::eval`, AND as the
    /// intersection and OR as the union of the children's sets.
    pub fn eval(&self, block: &Block) -> (r: ResultSet)
        requires
            block.wf(),
        ensures
            r.wf(),
            r.records(block.series_view()) == select_set(*self, block.series_view()),
            filter_free(*self) ==> !r.unpacked && r.filters@.len() == 0 && bitmap_items(r.series)
                == tree_ids(*self, block.series_view()),
        decreases self,
    {
        let ghost m = block.series_view();
        match self {
            Conditions::Leaf(c) => c.eval(block),
            Conditions::And(a, b) => {
                let r1 = a.eval(block);
                let r2 = b.eval(block);
                let r = r1.intersection(r2, block);
                assert(r.records(m) =~= select_set(*self, m));
                r
            },
            Conditions::Or(a, b) => {
                let r1 = a.eval(block);
                let r2 = b.eval(block);
                let r = r1.union(r2, block);
                assert(r.records(m) =~= select_set(*self, m));
                r
            },
        }
    }
}

impl Select {
    /// The result set of the statement's predicate.
    pub fn eval(&self, block: &Block) -> (r: ResultSet)
        requires
            block.wf(),
        ensures
            r.wf(),
            r.records(block.series_view()) == select_set(self.predicate.condition, block.series_view()),
    {
        self.predicate.condition.eval(block)
    }
}

/// The records of the block of which the normal form holds are those of which
/// the tree holds.
pub proof fn lemma_dnf_same_records(c: Conditions, m: Seq<SeriesView>)
    ensures
        select_set(crate::predicate::dnf_of(c), m) == select_set(c, m),
{
    crate::predicate::lemma_dnf_equivalent(c);
    assert(select_set(crate::predicate::dnf_of(c), m) =~= select_set(c, m));
}

/// Answers a statement: its predicate in normal form is evaluated over the
/// block and unpacked. The result holds exactly the records of the block of
/// which the predicate holds, by ascending timestamp, each once.
pub fn execute_select(statement: Select, block: &Block) -> (r: Vec<Record>)
    requires
        block.wf(),
    ensures
        data_set(r@) == select_set(statement.predicate.condition, block.series_view()),
        sorted_unique(r@),
{
    let ghost c = statement.predicate.condition;
    let normal = crate::predicate::dnf(statement);
    let mut rs = normal.eval(block);
    rs.unpack(block);
    proof {
        lemma_dnf_same_records(c, block.series_view());
    }
    let out = rs.data;
    out
}

} // verus!
