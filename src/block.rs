//! The in-memory block: series stored densely by id, an inverted index from
//! token to the bitmap of series ids holding it, and the block's time bounds.
use vstd::prelude::*;
use croaring::Bitmap;
use crate::bitmap::{bitmap_add, bitmap_clone, bitmap_items, bitmap_new};
use crate::order::{insert_pair, keys_ascending, lemma_pairs_map_ascending, pairs_map};
use crate::record::{names_of, record_key, strings_view, Record, RecordView};
use crate::series::{
    payload_of, payloads_view, same_shape, series_key, series_of, series_tokens, Series, SeriesView,
};

verus! {

/// The series as mathematical values.
pub open spec fn storage_view(s: Seq<Series>) -> Seq<SeriesView> {
    s.map_values(|x: Series| x@)
}

/// The ids of the series that hold token `t`.
pub open spec fn posting(m: Seq<SeriesView>, t: Seq<char>) -> Set<u32> {
    Set::new(|i: u32| (i as int) < m.len() && series_tokens(m[i as int]).contains(t))
}

/// The position of the series with key `k`, if one has it.
pub open spec fn has_key(m: Seq<SeriesView>, k: Seq<char>) -> bool {
    exists|i: int| 0 <= i < m.len() && series_key(m[i]) == k
}

/// The position of a series with key `k`.
pub open spec fn key_pos(m: Seq<SeriesView>, k: Seq<char>) -> int {
    choose|i: int| 0 <= i < m.len() && series_key(m[i]) == k
}

/// The series after a record is written: appended to the series with its
/// identity key, or held by a new series with the next id.
pub open spec fn insert_series(m: Seq<SeriesView>, r: RecordView) -> Seq<SeriesView> {
    if has_key(m, record_key(r)) {
        let i = key_pos(m, record_key(r));
        m.update(i, SeriesView { payloads: m[i].payloads.push(payload_of(r)), ..m[i] })
    } else {
        m.push(series_of(m.len(), r))
    }
}

/// A write is taken unless the series with its key has another shape, or a
/// new series would need an id beyond 32 bits.
pub open spec fn accepts(m: Seq<SeriesView>, r: RecordView) -> bool {
    if has_key(m, record_key(r)) {
        same_shape(m[key_pos(m, record_key(r))], r)
    } else {
        m.len() < u32::MAX
    }
}

/// The ids that series `n` adds to the posting list of `t`.
pub open spec fn extra(toks: Seq<Seq<char>>, t: Seq<char>, n: u32) -> Set<u32> {
    if toks.contains(t) {
        set![n]
    } else {
        Set::empty()
    }
}

/// The least of an optional bound and a value.
pub open spec fn lower(b: Option<i64>, t: i64) -> Option<i64> {
    match b {
        None => Some(t),
        Some(s) => Some(if t < s { t } else { s }),
    }
}

/// The greatest of an optional bound and a value.
pub open spec fn upper(b: Option<i64>, t: i64) -> Option<i64> {
    match b {
        None => Some(t),
        Some(s) => Some(if t > s { t } else { s }),
    }
}

/// The working set of series with its inverted index.
pub struct Block {
    pub index: Vec<(String, Bitmap)>,
    pub storage: Vec<Series>,
    pub id_map: Vec<String>,
    pub start_timestamp: Option<i64>,
    pub end_timestamp: Option<i64>,
    pub frozen: bool,
}

impl Block {
    pub open spec fn series_view(&self) -> Seq<SeriesView> {
        storage_view(self.storage@)
    }

    pub open spec fn index_map(&self) -> Map<Seq<char>, Bitmap> {
        pairs_map(self.index@)
    }

    /// Each index entry holds exactly the series with its token, and every
    /// token of every series has an entry.
    pub open spec fn index_exact(&self) -> bool {
        &&& keys_ascending(self.index@)
        &&& forall|t: Seq<char>| #[trigger]
            self.index_map().contains_key(t) ==> bitmap_items(self.index_map()[t]) == posting(
                self.series_view(),
                t,
            )
        &&& forall|i: int, k: int|
            0 <= i < self.storage@.len() && 0 <= k < series_tokens(self.storage@[i]@).len()
                ==> #[trigger] self.index_map().contains_key(
                #[trigger] series_tokens(self.storage@[i]@)[k],
            )
        &&& forall|t: Seq<char>| #[trigger]
            self.index_map().contains_key(t) ==> posting(self.series_view(), t) != Set::<
                u32,
            >::empty()
    }

    /// Every record's timestamp lies within the block's bounds, which are
    /// absent exactly when the block is empty.
    pub open spec fn bounds_hold(&self) -> bool {
        &&& (self.storage@.len() == 0) == (self.start_timestamp is None)
        &&& (self.start_timestamp is None) == (self.end_timestamp is None)
        &&& forall|i: int, j: int|
            0 <= i < self.storage@.len() && 0 <= j < self.storage@[i].records@.len()
                ==> self.start_timestamp->0 <= (#[trigger] self.storage@[i].records@[j]).timestamp
                <= self.end_timestamp->0
        &&& self.start_timestamp matches Some(t) ==> exists|i: int, j: int|
            0 <= i < self.storage@.len() && 0 <= j < self.storage@[i].records@.len()
                && (#[trigger] self.storage@[i].records@[j]).timestamp == t
        &&& self.end_timestamp matches Some(t) ==> exists|i: int, j: int|
            0 <= i < self.storage@.len() && 0 <= j < self.storage@[i].records@.len()
                && (#[trigger] self.storage@[i].records@[j]).timestamp == t
    }

    pub open spec fn wf(&self) -> bool {
        &&& self.storage@.len() == self.id_map@.len()
        &&& self.storage@.len() <= u32::MAX
        &&& forall|i: int|
            0 <= i < self.storage@.len() ==> {
                &&& (#[trigger] self.storage@[i]).wf()
                &&& self.storage@[i].id == i
                &&& self.storage@[i].records@.len() > 0
                &&& self.id_map@[i]@ == series_key(self.storage@[i]@)
            }
        &&& forall|i: int, j: int|
            0 <= i < j < self.id_map@.len() ==> #[trigger] self.id_map@[i]@
                != #[trigger] self.id_map@[j]@
        &&& self.index_exact()
        &&& self.bounds_hold()
    }

    /// An empty, mutable block.
    pub fn new() -> (r: Block)
        ensures
            r.wf(),
            r.series_view().len() == 0,
            r.index@.len() == 0,
            r.start_timestamp is None,
            r.end_timestamp is None,
            !r.frozen,
    {
        let r = Block {
            index: Vec::new(),
            storage: Vec::new(),
            id_map: Vec::new(),
            start_timestamp: None,
            end_timestamp: None,
            frozen: false,
        };
        assert(r.index_map() == Map::<Seq<char>, Bitmap>::empty());
        r
    }

    /// The series, indexed by id.
    pub fn get_storage(&self) -> (r: &Vec<Series>)
        ensures
            r == &self.storage,
    {
        &self.storage
    }

    /// The position of the index entry for `t`.
    fn find_token(&self, t: &String) -> (r: Option<usize>)
        requires
            keys_ascending(self.index@),
        ensures
            match r {
                Some(p) => p < self.index@.len() && self.index@[p as int].0@ == t@
                    && self.index_map().contains_key(t@) && self.index_map()[t@]
                    == self.index@[p as int].1,
                None => !self.index_map().contains_key(t@),
            },
    {
        let mut p: usize = 0;
        while p < self.index.len()
            invariant
                p <= self.index@.len(),
                keys_ascending(self.index@),
                forall|q: int| 0 <= q < p ==> self.index@[q].0@ != t@,
            decreases self.index.len() - p,
        {
            if self.index[p].0 == *t {
                proof {
                    lemma_pairs_map_ascending(self.index@);
                }
                return Some(p);
            }
            p = p + 1;
        }
        proof {
            lemma_pairs_map_ascending(self.index@);
            if self.index_map().contains_key(t@) {
                let q = choose|q: int| 0 <= q < self.index@.len() && self.index@[q].0@ == t@;
                assert(self.index@[q].0@ != t@);
            }
        }
        None
    }

    /// The posting list of a token: the ids of exactly the series that hold
    /// it, or `None` where no series does.
    pub fn search_index(&self, key: &String) -> (r: Option<&Bitmap>)
        requires
            self.wf(),
        ensures
            match r {
                Some(b) => bitmap_items(*b) == posting(self.series_view(), key@),
                None => posting(self.series_view(), key@) == Set::<u32>::empty(),
            },
            r is None <==> posting(self.series_view(), key@) == Set::<u32>::empty(),
    {
        match self.find_token(key) {
            Some(p) => Some(&self.index[p].1),
            None => {
                proof {
                    assert(posting(self.series_view(), key@) =~= Set::<u32>::empty()) by {
                        assert forall|i: u32| !#[trigger] posting(self.series_view(), key@).contains(
                            i,
                        ) by {
                            if posting(self.series_view(), key@).contains(i) {
                                let s = self.storage@[i as int]@;
                                let k = choose|k: int|
                                    0 <= k < series_tokens(s).len() && series_tokens(s)[k]
                                        == key@;
                                assert(self.index_map().contains_key(
                                    series_tokens(self.storage@[i as int]@)[k],
                                ));
                            }
                        }
                    }
                }
                None
            },
        }
    }

    /// The id of the series with identity key `k`.
    fn find_key(&self, k: &String) -> (r: Option<usize>)
        requires
            self.wf(),
        ensures
            match r {
                Some(i) => i < self.id_map@.len() && self.id_map@[i as int]@ == k@,
                None => forall|i: int| 0 <= i < self.id_map@.len() ==> self.id_map@[i]@ != k@,
            },
    {
        let mut i: usize = 0;
        while i < self.id_map.len()
            invariant
                i <= self.id_map@.len(),
                forall|j: int| 0 <= j < i ==> self.id_map@[j]@ != k@,
            decreases self.id_map.len() - i,
        {
            if self.id_map[i] == *k {
                return Some(i);
            }
            i = i + 1;
        }
        None
    }

    /// Adds the last series, which holds `record`, to the index.
    fn index_last_series(&mut self, record: &Record)
        requires
            old(self).storage@.len() > 0,
            old(self).storage@.len() <= u32::MAX,
            old(self).series_view().last() == series_of(
                (old(self).storage@.len() - 1) as nat,
                record@,
            ),
            keys_ascending(old(self).index@),
            forall|t: Seq<char>| #[trigger]
                old(self).index_map().contains_key(t) ==> bitmap_items(old(self).index_map()[t])
                    == posting(old(self).series_view().drop_last(), t),
            forall|i: int, k: int|
                0 <= i < old(self).storage@.len() - 1 && 0 <= k < series_tokens(
                    old(self).storage@[i]@,
                ).len() ==> #[trigger] old(self).index_map().contains_key(
                    #[trigger] series_tokens(old(self).storage@[i]@)[k],
                ),
            forall|t: Seq<char>| #[trigger]
                old(self).index_map().contains_key(t) ==> posting(
                    old(self).series_view().drop_last(),
                    t,
                ) != Set::<u32>::empty(),
        ensures
            final(self).storage == old(self).storage,
            final(self).id_map == old(self).id_map,
            final(self).start_timestamp == old(self).start_timestamp,
            final(self).end_timestamp == old(self).end_timestamp,
            final(self).frozen == old(self).frozen,
            final(self).index_exact(),
    {
        let n = self.storage.len() - 1;
        let ghost m0 = self.series_view().drop_last();
        let ghost m1 = self.series_view();
        let mut toks = record.get_labels();
        let mut names = record.get_metrics();
        toks.append(&mut names);
        let ghost tv = strings_view(toks@);
        assert(tv =~= series_tokens(m1[n as int]));
        let mut j: usize = 0;
        proof {
            assert forall|t: Seq<char>| #[trigger]
                self.index_map().contains_key(t) implies posting(m0, t).union(
                    extra(tv.take(0), t, n as u32),
                ) != Set::<u32>::empty() by {
                assert(old(self).index_map().contains_key(t));
                assert(posting(m0, t).union(extra(tv.take(0), t, n as u32)) =~= posting(m0, t));
            }
        }
        while j < toks.len()
            invariant
                j <= toks@.len(),
                n < u32::MAX,
                n == self.storage@.len() - 1,
                tv == strings_view(toks@),
                m1 == self.series_view(),
                m0 == m1.drop_last(),
                self.storage == old(self).storage,
                self.id_map == old(self).id_map,
                self.start_timestamp == old(self).start_timestamp,
                self.end_timestamp == old(self).end_timestamp,
                self.frozen == old(self).frozen,
                keys_ascending(self.index@),
                forall|t: Seq<char>| #[trigger]
                    self.index_map().contains_key(t) ==> bitmap_items(self.index_map()[t])
                        == posting(m0, t).union(extra(tv.take(j as int), t, n as u32)),
                forall|t: Seq<char>| #[trigger]
                    self.index_map().contains_key(t) ==> posting(m0, t).union(
                        extra(tv.take(j as int), t, n as u32),
                    ) != Set::<u32>::empty(),
                forall|k: int| 0 <= k < j ==> #[trigger] self.index_map().contains_key(tv[k]),
                forall|i: int, k: int|
                    0 <= i < n && 0 <= k < series_tokens(self.storage@[i]@).len()
                        ==> #[trigger] self.index_map().contains_key(
                        #[trigger] series_tokens(self.storage@[i]@)[k],
                    ),
            decreases toks@.len() - j,
        {
            let t = &toks[j];
            let ghost tj = t@;
            let ghost before = self.index_map();
            let mut b = match self.find_token(t) {
                Some(p) => bitmap_clone(&self.index[p].1),
                None => bitmap_new(),
            };
            bitmap_add(&mut b, n as u32);
            proof {
                assert(tv[j as int] == tj);
                assert(tv.take(j + 1) =~= tv.take(j as int).push(tj));
                assert(tv.take(j + 1)[j as int] == tj);
                assert(tv.take(j + 1).contains(tj));
                if before.contains_key(tj) {
                    assert(bitmap_items(b) =~= posting(m0, tj).union(
                        extra(tv.take(j + 1), tj, n as u32),
                    ));
                } else {
                    let tb = tv.take(j as int);
                    assert(!tb.contains(tj)) by {
                        if tb.contains(tj) {
                            let k = choose|k: int| 0 <= k < tb.len() && tb[k] == tj;
                            assert(before.contains_key(tv[k]));
                        }
                    }
                    assert(posting(m0, tj) =~= Set::<u32>::empty()) by {
                        assert forall|i: u32| !#[trigger] posting(m0, tj).contains(i) by {
                            if posting(m0, tj).contains(i) {
                                let s = m0[i as int];
                                let k = choose|k: int|
                                    0 <= k < series_tokens(s).len() && series_tokens(s)[k] == tj;
                                assert(self.storage@[i as int]@ == s);
                                assert(before.contains_key(
                                    series_tokens(self.storage@[i as int]@)[k],
                                ));
                            }
                        }
                    }
                    assert(bitmap_items(b) =~= posting(m0, tj).union(
                        extra(tv.take(j + 1), tj, n as u32),
                    ));
                }
            }
            insert_pair(&mut self.index, t.clone(), b);
            proof {
                assert forall|t2: Seq<char>| #[trigger]
                    self.index_map().contains_key(t2) implies bitmap_items(self.index_map()[t2])
                    == posting(m0, t2).union(extra(tv.take(j + 1), t2, n as u32)) by {
                    if t2 != tj {
                        assert(extra(tv.take(j + 1), t2, n as u32) == extra(
                            tv.take(j as int),
                            t2,
                            n as u32,
                        )) by {
                            let ta = tv.take(j + 1);
                            let tb = tv.take(j as int);
                            if ta.contains(t2) {
                                let k = choose|k: int| 0 <= k < ta.len() && ta[k] == t2;
                                assert(tb[k] == t2);
                            }
                            if tb.contains(t2) {
                                let k = choose|k: int| 0 <= k < tb.len() && tb[k] == t2;
                                assert(ta[k] == t2);
                            }
                        }
                    }
                }
                assert forall|t2: Seq<char>| #[trigger]
                    self.index_map().contains_key(t2) implies posting(m0, t2).union(
                        extra(tv.take(j + 1), t2, n as u32),
                    ) != Set::<u32>::empty() by {
                    if t2 == tj {
                        assert(extra(tv.take(j + 1), tj, n as u32).contains(n as u32));
                        assert(posting(m0, t2).union(extra(tv.take(j + 1), t2, n as u32)).contains(
                            n as u32,
                        ));
                    } else {
                        let ta = tv.take(j + 1);
                        let tb = tv.take(j as int);
                        assert(before.contains_key(t2));
                        assert(extra(ta, t2, n as u32) == extra(tb, t2, n as u32)) by {
                            if ta.contains(t2) {
                                let k = choose|k: int| 0 <= k < ta.len() && ta[k] == t2;
                                assert(tb[k] == t2);
                            }
                            if tb.contains(t2) {
                                let k = choose|k: int| 0 <= k < tb.len() && tb[k] == t2;
                                assert(ta[k] == t2);
                            }
                        }
                    }
                }
                assert forall|k: int| 0 <= k < j + 1 implies #[trigger] self.index_map().contains_key(
                    tv[k],
                ) by {
                    if k < j {
                        assert(before.contains_key(tv[k]));
                    }
                }
            }
            j = j + 1;
        }
        proof {
            assert(tv.take(toks@.len() as int) =~= tv);
            let m1 = self.series_view();
            assert forall|t: Seq<char>| #[trigger]
                self.index_map().contains_key(t) implies bitmap_items(self.index_map()[t])
                == posting(m1, t) && posting(m1, t) != Set::<u32>::empty() by {
                assert(posting(m1, t) =~= posting(m0, t).union(extra(tv, t, n as u32))) by {
                    assert forall|i: u32| #[trigger] posting(m1, t).contains(i) == posting(
                        m0,
                        t,
                    ).union(extra(tv, t, n as u32)).contains(i) by {
                        if (i as int) < n {
                            assert(m1[i as int] == m0[i as int]);
                        }
                    }
                }
            }
            assert forall|i: int, k: int|
                0 <= i < self.storage@.len() && 0 <= k < series_tokens(self.storage@[i]@).len()
                    implies #[trigger] self.index_map().contains_key(
                #[trigger] series_tokens(self.storage@[i]@)[k],
            ) by {
                if i == n {
                    assert(self.storage@[i]@ == m1[n as int]);
                    assert(series_tokens(self.storage@[i]@)[k] == tv[k]);
                }
            }
        }
    }

    /// Writes a record: it joins the series with its identity key, or a new
    /// series with the next id whose tokens are then indexed, and the block's
    /// time bounds widen to its timestamp. A frozen block takes no write, nor
    /// does one where `accepts` fails; then nothing changes.
    #[verifier::rlimit(100)]
    pub fn insert(&mut self, record: &Record) -> (accepted: bool)
        requires
            old(self).wf(),
            record.wf(),
        ensures
            final(self).wf(),
            accepted == (!old(self).frozen && accepts(old(self).series_view(), record@)),
            accepted ==> {
                &&& final(self).series_view() == insert_series(old(self).series_view(), record@)
                &&& final(self).start_timestamp == lower(
                    old(self).start_timestamp,
                    record@.timestamp,
                )
                &&& final(self).end_timestamp == upper(old(self).end_timestamp, record@.timestamp)
                &&& final(self).frozen == old(self).frozen
            },
            accepted && has_key(old(self).series_view(), record_key(record@)) ==> final(self).index
                == old(self).index && final(self).id_map == old(self).id_map,
            !accepted ==> *final(self) == *old(self),
    {
        if self.frozen {
            return false;
        }
        let ghost m0 = self.series_view();
        let ghost mut wi: int = 0;
        let ghost mut wj: int = 0;
        let key = record.get_key();
        let found = self.find_key(&key);
        match found {
            Some(id) => {
                proof {
                    assert(series_key(m0[id as int]) == record_key(record@));
                    assert(has_key(m0, record_key(record@)));
                    let q = key_pos(m0, record_key(record@));
                    assert(self.id_map@[q]@ == self.id_map@[id as int]@);
                    assert(q == id);
                }
                if !self.storage[id].matches(record) {
                    return false;
                }
            },
            None => {
                proof {
                    if has_key(m0, record_key(record@)) {
                        let q = key_pos(m0, record_key(record@));
                        assert(self.id_map@[q]@ == record_key(record@));
                    }
                }
                if self.storage.len() >= 4294967295 {
                    return false;
                }
            },
        }
        let ts = record.timestamp;
        self.start_timestamp = match self.start_timestamp {
            None => Some(ts),
            Some(s) => Some(if ts < s { ts } else { s }),
        };
        self.end_timestamp = match self.end_timestamp {
            None => Some(ts),
            Some(e) => Some(if ts > e { ts } else { e }),
        };
        match found {
            Some(id) => {
                let mut s = self.storage.remove(id);
                s.insert(record);
                self.storage.insert(id, s);
                proof {
                    wi = id as int;
                    wj = old(self).storage@[id as int].records@.len() as int;
                    assert(self.storage@[wi]@.payloads.len() == m0[wi].payloads.len() + 1);
                    assert(payloads_view(self.storage@[wi].records@).len() == self.storage@[wi].records@.len());
                    assert(payloads_view(old(self).storage@[wi].records@).len() == old(self).storage@[wi].records@.len());
                    assert(m0[wi] == old(self).storage@[wi]@);
                    assert forall|i: int| 0 <= i < old(self).storage@.len() implies old(
                        self,
                    ).storage@[i].records@.len() <= #[trigger] self.storage@[i].records@.len() by {
                        if i != id {
                            assert(self.storage@[i] == old(self).storage@[i]);
                        }
                    }
                    let m1 = self.series_view();
                    let su = SeriesView {
                        payloads: m0[id as int].payloads.push(payload_of(record@)),
                        ..m0[id as int]
                    };
                    assert(m1 =~= m0.update(id as int, su));
                    assert(series_tokens(su) == series_tokens(m0[id as int]));
                    assert forall|t: Seq<char>| #[trigger]
                        self.index_map().contains_key(t) implies bitmap_items(self.index_map()[t])
                        == posting(m1, t) && posting(m1, t) != Set::<u32>::empty() by {
                        assert(self.index_map() == old(self).index_map());
                        assert(old(self).index_map().contains_key(t));
                        assert(posting(m0, t) != Set::<u32>::empty());
                        assert(posting(m1, t) =~= posting(m0, t)) by {
                            assert forall|i: u32| #[trigger] posting(m1, t).contains(i) == posting(
                                m0,
                                t,
                            ).contains(i) by {
                                if (i as int) < m0.len() && i != id {
                                    assert(m1[i as int] == m0[i as int]);
                                }
                            }
                        }
                    }
                    assert forall|i: int, k: int|
                        0 <= i < self.storage@.len() && 0 <= k < series_tokens(
                            self.storage@[i]@,
                        ).len() implies #[trigger] self.index_map().contains_key(
                        #[trigger] series_tokens(self.storage@[i]@)[k],
                    ) by {
                        assert(self.storage@[i]@ == m1[i]);
                        assert(self.index_map() == old(self).index_map());
                        if i == id {
                            assert(series_tokens(self.storage@[i]@)[k] == series_tokens(
                                old(self).storage@[i]@,
                            )[k]);
                        } else {
                            assert(self.storage@[i] == old(self).storage@[i]);
                        }
                    }
                    assert forall|i: int| 0 <= i < self.storage@.len() implies {
                        &&& (#[trigger] self.storage@[i]).wf()
                        &&& self.storage@[i].id == i
                        &&& self.storage@[i].records@.len() > 0
                        &&& self.id_map@[i]@ == series_key(self.storage@[i]@)
                    } by {
                        if i != id {
                            assert(self.storage@[i] == old(self).storage@[i]);
                        } else {
                            assert(self.storage@[i]@ == m1[i]);
                            assert(self.storage@[i]@ == su);
                            assert(self.storage@[i].records@.len() == su.payloads.len());
                            assert(series_key(su) == series_key(m0[i]));
                        }
                    }
                    assert forall|i: int, j: int|
                        0 <= i < self.storage@.len() && 0 <= j < self.storage@[i].records@.len()
                            implies (if i < old(self).storage@.len() && j < old(
                        self,
                    ).storage@[i].records@.len() {
                        (#[trigger] self.storage@[i].records@[j]).timestamp == old(
                            self,
                        ).storage@[i].records@[j].timestamp
                    } else {
                        self.storage@[i].records@[j].timestamp == record.timestamp
                    }) by {
                        assert(self.storage@[i]@ == m1[i]);
                        if i == id {
                            assert(self.storage@[i]@ == su);
                            assert(payloads_view(self.storage@[i].records@)[j] == su.payloads[j]);
                            assert(self.storage@[i].records@[j]@ == su.payloads[j]);
                            assert(m0[i] == old(self).storage@[i]@);
                            let ol = old(self).storage@[i].records@.len();
                            assert(payloads_view(self.storage@[i].records@).len()
                                == self.storage@[i].records@.len());
                            assert(payloads_view(old(self).storage@[i].records@).len() == ol);
                            assert(m0[i].payloads.len() == ol);
                            if j < ol {
                                assert(payloads_view(old(self).storage@[i].records@)[j]
                                    == m0[i].payloads[j]);
                                assert(su.payloads[j] == m0[i].payloads[j]);
                                assert(old(self).storage@[i].records@[j]@ == m0[i].payloads[j]);
                            } else {
                                assert(j == ol);
                                assert(su.payloads[j] == payload_of(record@));
                            }
                        } else {
                            assert(self.storage@[i] == old(self).storage@[i]);
                        }
                    }
                }
            },
            None => {
                let n = self.storage.len();
                let s = Series::new(n, record);
                self.storage.push(s);
                self.id_map.push(key);
                proof {
                    assert(self.series_view() =~= m0.push(series_of(n as nat, record@)));
                    assert(self.series_view().drop_last() =~= m0);
                    assert(self.index_map() == old(self).index_map());
                    assert forall|t: Seq<char>| #[trigger]
                        self.index_map().contains_key(t) implies bitmap_items(self.index_map()[t])
                        == posting(self.series_view().drop_last(), t) by {
                        assert(old(self).index_map().contains_key(t));
                    }
                    assert forall|i: int, k: int|
                        0 <= i < self.storage@.len() - 1 && 0 <= k < series_tokens(
                            self.storage@[i]@,
                        ).len() implies #[trigger] self.index_map().contains_key(
                        #[trigger] series_tokens(self.storage@[i]@)[k],
                    ) by {
                        assert(self.storage@[i] == old(self).storage@[i]);
                        assert(old(self).index_map().contains_key(
                            series_tokens(old(self).storage@[i]@)[k],
                        ));
                    }
                }
                let ghost m1 = self.series_view();
                proof {
                    assert(self.index_map() == old(self).index_map());
                    assert forall|t: Seq<char>| #[trigger]
                        self.index_map().contains_key(t) implies posting(
                            self.series_view().drop_last(),
                            t,
                        ) != Set::<u32>::empty() by {
                        assert(old(self).index_map().contains_key(t));
                    }
                }
                self.index_last_series(record);
                proof {
                    wi = n as int;
                    wj = 0;
                    assert(self.storage@[wi]@ == self.series_view()[wi]);
                    assert(payloads_view(self.storage@[wi].records@).len() == 1);
                    assert forall|i: int| 0 <= i < old(self).storage@.len() implies old(
                        self,
                    ).storage@[i].records@.len() <= #[trigger] self.storage@[i].records@.len() by {
                        assert(self.storage@[i] == old(self).storage@[i]);
                    }
                    assert(self.series_view() == m1);
                    assert forall|i: int| 0 <= i < self.storage@.len() implies {
                        &&& (#[trigger] self.storage@[i]).wf()
                        &&& self.storage@[i].id == i
                        &&& self.storage@[i].records@.len() > 0
                        &&& self.id_map@[i]@ == series_key(self.storage@[i]@)
                    } by {
                        if i < n {
                            assert(self.storage@[i] == old(self).storage@[i]);
                            assert(self.id_map@[i] == old(self).id_map@[i]);
                        } else {
                            assert(self.storage@[i]@.payloads.len() == 1);
                        }
                    }
                    assert forall|i: int, j: int|
                        0 <= i < j < self.id_map@.len() implies #[trigger] self.id_map@[i]@
                        != #[trigger] self.id_map@[j]@ by {
                        if j < n {
                            assert(self.id_map@[i] == old(self).id_map@[i]);
                            assert(self.id_map@[j] == old(self).id_map@[j]);
                        } else {
                            assert(self.id_map@[i] == old(self).id_map@[i]);
                        }
                    }
                    assert forall|i: int, j: int|
                        0 <= i < self.storage@.len() && 0 <= j < self.storage@[i].records@.len()
                            implies (if i < old(self).storage@.len() && j < old(
                        self,
                    ).storage@[i].records@.len() {
                        (#[trigger] self.storage@[i].records@[j]).timestamp == old(
                            self,
                        ).storage@[i].records@[j].timestamp
                    } else {
                        self.storage@[i].records@[j].timestamp == record.timestamp
                    }) by {
                        if i < n {
                            assert(self.storage@[i] == old(self).storage@[i]);
                        } else {
                            assert(self.storage@[i]@ == self.series_view()[i]);
                            assert(self.storage@[i]@ == series_of(n as nat, record@));
                            assert(self.storage@[i]@.payloads.len() == 1);
                            assert(j == 0);
                            assert(payloads_view(self.storage@[i].records@)[j] == payload_of(
                                record@,
                            ));
                        }
                    }
                }
            },
        }
        proof {
            assert forall|i: int, j: int|
                0 <= i < self.storage@.len() && 0 <= j < self.storage@[i].records@.len()
                    implies self.start_timestamp->0 <= (#[trigger] self.storage@[i].records@[j]).timestamp
                <= self.end_timestamp->0 by {
                if i < old(self).storage@.len() && j < old(self).storage@[i].records@.len() {
                    assert(old(self).start_timestamp->0 <= old(self).storage@[i].records@[j].timestamp
                        <= old(self).end_timestamp->0);
                }
            }
            assert(0 <= wi < self.storage@.len() && 0 <= wj < self.storage@[wi].records@.len());
            assert(self.storage@[wi].records@[wj].timestamp == ts);
            assert(self.start_timestamp matches Some(t) ==> exists|i: int, j: int|
                0 <= i < self.storage@.len() && 0 <= j < self.storage@[i].records@.len()
                    && (#[trigger] self.storage@[i].records@[j]).timestamp == t) by {
                match old(self).start_timestamp {
                    Some(s0) => {
                        if ts >= s0 {
                            let (oi, oj) = choose|i: int, j: int|
                                0 <= i < old(self).storage@.len() && 0 <= j < old(
                                    self,
                                ).storage@[i].records@.len() && (#[trigger] old(
                                    self,
                                ).storage@[i].records@[j]).timestamp == s0;
                            assert(self.storage@[oi].records@[oj].timestamp == s0);
                        }
                    },
                    None => {},
                }
            }
            assert(self.end_timestamp matches Some(t) ==> exists|i: int, j: int|
                0 <= i < self.storage@.len() && 0 <= j < self.storage@[i].records@.len()
                    && (#[trigger] self.storage@[i].records@[j]).timestamp == t) by {
                match old(self).end_timestamp {
                    Some(e0) => {
                        if ts <= e0 {
                            let (oi, oj) = choose|i: int, j: int|
                                0 <= i < old(self).storage@.len() && 0 <= j < old(
                                    self,
                                ).storage@[i].records@.len() && (#[trigger] old(
                                    self,
                                ).storage@[i].records@[j]).timestamp == e0;
                            assert(self.storage@[oi].records@[oj].timestamp == e0);
                        }
                    },
                    None => {},
                }
            }
            assert(self.bounds_hold());
            assert(self.index_exact());
        }
        true
    }

    /// Freezes the block: it takes no more writes until it is reset.
    pub fn freeze(&mut self)
        ensures
            *final(self) == (Block { frozen: true, ..*old(self) }),
    {
        self.frozen = true;
    }

    /// Empties the block and makes it mutable again.
    pub fn flush(&mut self)
        ensures
            final(self).wf(),
            final(self).series_view().len() == 0,
            final(self).index@.len() == 0,
            final(self).start_timestamp is None,
            final(self).end_timestamp is None,
            !final(self).frozen,
    {
        *self = Block::new();
    }
}

/// The series after the records are written one after another into an
/// empty block.
pub open spec fn apply_writes(ws: Seq<RecordView>) -> Seq<SeriesView>
    decreases ws.len(),
{
    if ws.len() == 0 {
        Seq::empty()
    } else {
        insert_series(apply_writes(ws.drop_last()), ws.last())
    }
}

/// The records with identity key `k`, in order.
pub open spec fn with_key(ws: Seq<RecordView>, k: Seq<char>) -> Seq<RecordView>
    decreases ws.len(),
{
    if ws.len() == 0 {
        Seq::empty()
    } else if record_key(ws.last()) == k {
        with_key(ws.drop_last(), k).push(ws.last())
    } else {
        with_key(ws.drop_last(), k)
    }
}

/// The distinct identity keys of the records.
pub open spec fn key_set(ws: Seq<RecordView>) -> Set<Seq<char>> {
    Set::new(|k: Seq<char>| exists|q: int| 0 <= q < ws.len() && record_key(ws[q]) == k)
}

/// Records with equal identity keys have equal names, labels and variable
/// names.
pub open spec fn keys_determine_shape(ws: Seq<RecordView>) -> bool {
    forall|i: int, j: int|
        0 <= i < ws.len() && 0 <= j < ws.len() && record_key(ws[i]) == record_key(ws[j]) ==> {
            &&& ws[i].name == ws[j].name
            &&& ws[i].labels == ws[j].labels
            &&& names_of(ws[i].variables) == names_of(ws[j].variables)
        }
}

proof fn lemma_payload_record(s: SeriesView, r: RecordView)
    requires
        same_shape(s, r),
    ensures
        crate::series::payload_record(s, payload_of(r)) == r,
{
    assert(crate::series::zip_values(s.variables, payload_of(r).0) =~= r.variables);
}

/// Writing records whose equal identity keys come with equal names, labels
/// and variable names leaves one series per distinct key, and each series
/// holds, in order, exactly the records written with its key.
pub proof fn lemma_series_per_key(ws: Seq<RecordView>)
    requires
        keys_determine_shape(ws),
    ensures
        key_set(ws).finite(),
        apply_writes(ws).len() == key_set(ws).len(),
        forall|i: int, j: int|
            0 <= i < j < apply_writes(ws).len() ==> series_key(apply_writes(ws)[i]) != series_key(
                apply_writes(ws)[j],
            ),
        forall|k: Seq<char>| #[trigger]
            key_set(ws).contains(k) <==> has_key(apply_writes(ws), k),
        forall|i: int|
            0 <= i < apply_writes(ws).len() ==> crate::series::series_records(
                #[trigger] apply_writes(ws)[i],
            ) == with_key(ws, series_key(apply_writes(ws)[i])),
        forall|i: int|
            0 <= i < apply_writes(ws).len() ==> exists|q: int|
                0 <= q < ws.len() && record_key(ws[q]) == series_key(#[trigger] apply_writes(ws)[i])
                    && same_shape(apply_writes(ws)[i], ws[q]),
    decreases ws.len(),
{
    if ws.len() == 0 {
        assert(key_set(ws) =~= Set::<Seq<char>>::empty());
        return;
    }
    let init = ws.drop_last();
    let r = ws.last();
    let k = record_key(r);
    assert(keys_determine_shape(init)) by {
        assert forall|i: int, j: int|
            0 <= i < init.len() && 0 <= j < init.len() && record_key(init[i]) == record_key(
                init[j],
            ) implies {
            &&& init[i].name == init[j].name
            &&& init[i].labels == init[j].labels
            &&& names_of(init[i].variables) == names_of(init[j].variables)
        } by {
            assert(init[i] == ws[i] && init[j] == ws[j]);
        }
    }
    lemma_series_per_key(init);
    let m = apply_writes(init);
    let m2 = apply_writes(ws);
    assert(m2 == insert_series(m, r));
    assert forall|k2: Seq<char>| #[trigger] with_key(ws, k2) == (if k2 == k {
        with_key(init, k2).push(r)
    } else {
        with_key(init, k2)
    }) by {}
    if has_key(m, k) {
        let i = key_pos(m, k);
        let su = SeriesView { payloads: m[i].payloads.push(payload_of(r)), ..m[i] };
        assert(m2 == m.update(i, su));
        assert(key_set(ws) =~= key_set(init)) by {
            assert forall|k2: Seq<char>| key_set(ws).contains(k2) implies key_set(init).contains(
                k2,
            ) by {
                let q = choose|q: int| 0 <= q < ws.len() && record_key(ws[q]) == k2;
                if q < init.len() {
                    assert(init[q] == ws[q]);
                } else {
                    assert(key_set(init).contains(k));
                }
            }
            assert forall|k2: Seq<char>| key_set(init).contains(k2) implies key_set(ws).contains(
                k2,
            ) by {
                let q = choose|q: int| 0 <= q < init.len() && record_key(init[q]) == k2;
                assert(ws[q] == init[q]);
            }
        }
        let q = choose|q: int|
            0 <= q < init.len() && record_key(init[q]) == series_key(m[i]) && same_shape(
                m[i],
                init[q],
            );
        assert(init[q] == ws[q]);
        assert(same_shape(m[i], r));
        lemma_payload_record(m[i], r);
        assert(crate::series::series_records(su) =~= crate::series::series_records(m[i]).push(r));
        assert forall|a: int, b: int| 0 <= a < b < m2.len() implies series_key(m2[a]) != series_key(
            m2[b],
        ) by {
            assert(series_key(m2[a]) == series_key(m[a]));
            assert(series_key(m2[b]) == series_key(m[b]));
        }
        assert forall|k2: Seq<char>| #[trigger] key_set(ws).contains(k2) <==> has_key(m2, k2) by {
            if has_key(m, k2) {
                let j = choose|j: int| 0 <= j < m.len() && series_key(m[j]) == k2;
                assert(series_key(m2[j]) == series_key(m[j]));
            }
            if has_key(m2, k2) {
                let j = choose|j: int| 0 <= j < m2.len() && series_key(m2[j]) == k2;
                assert(series_key(m2[j]) == series_key(m[j]));
            }
        }
        assert forall|j: int| 0 <= j < m2.len() implies crate::series::series_records(
            #[trigger] m2[j],
        ) == with_key(ws, series_key(m2[j])) by {
            if j == i {
            } else {
                assert(m2[j] == m[j]);
                assert(series_key(m[j]) != k);
            }
        }
        assert forall|j: int| 0 <= j < m2.len() implies exists|q: int|
            0 <= q < ws.len() && record_key(ws[q]) == series_key(#[trigger] m2[j]) && same_shape(
                m2[j],
                ws[q],
            ) by {
            let q = choose|q: int|
                0 <= q < init.len() && record_key(init[q]) == series_key(m[j]) && same_shape(
                    m[j],
                    init[q],
                );
            assert(ws[q] == init[q]);
        }
    } else {
        let sn = crate::series::series_of(m.len(), r);
        assert(m2 == m.push(sn));
        assert(!key_set(init).contains(k));
        assert(key_set(ws) =~= key_set(init).insert(k)) by {
            assert forall|k2: Seq<char>| key_set(ws).contains(k2) implies key_set(init).insert(
                k,
            ).contains(k2) by {
                let q = choose|q: int| 0 <= q < ws.len() && record_key(ws[q]) == k2;
                if q < init.len() {
                    assert(init[q] == ws[q]);
                }
            }
            assert forall|k2: Seq<char>| key_set(init).insert(k).contains(k2) implies key_set(
                ws,
            ).contains(k2) by {
                if k2 == k {
                    assert(record_key(ws[ws.len() - 1]) == k);
                } else {
                    let q = choose|q: int| 0 <= q < init.len() && record_key(init[q]) == k2;
                    assert(ws[q] == init[q]);
                }
            }
        }
        assert(series_key(sn) == k);
        assert(with_key(init, k) =~= Seq::<RecordView>::empty()) by {
            lemma_with_key_absent(init, k);
        }
        lemma_payload_record(sn, r);
        assert(crate::series::series_records(sn) =~= seq![r]);
        assert(with_key(ws, k) =~= seq![r]);
        assert forall|a: int, b: int| 0 <= a < b < m2.len() implies series_key(m2[a]) != series_key(
            m2[b],
        ) by {
            if b == m.len() {
                assert(m2[a] == m[a]);
                if series_key(m[a]) == k {
                    assert(has_key(m, k));
                }
            } else {
                assert(m2[a] == m[a] && m2[b] == m[b]);
            }
        }
        assert forall|k2: Seq<char>| #[trigger] key_set(ws).contains(k2) <==> has_key(m2, k2) by {
            if has_key(m, k2) {
                let j = choose|j: int| 0 <= j < m.len() && series_key(m[j]) == k2;
                assert(m2[j] == m[j]);
            }
            if has_key(m2, k2) {
                let j = choose|j: int| 0 <= j < m2.len() && series_key(m2[j]) == k2;
                if j < m.len() {
                    assert(m2[j] == m[j]);
                }
            }
            if k2 == k {
                assert(series_key(m2[m.len() as int]) == k);
            }
        }
        assert forall|j: int| 0 <= j < m2.len() implies crate::series::series_records(
            #[trigger] m2[j],
        ) == with_key(ws, series_key(m2[j])) by {
            if j < m.len() {
                assert(m2[j] == m[j]);
                if series_key(m[j]) == k {
                    assert(has_key(m, k));
                }
            }
        }
        assert forall|j: int| 0 <= j < m2.len() implies exists|q: int|
            0 <= q < ws.len() && record_key(ws[q]) == series_key(#[trigger] m2[j]) && same_shape(
                m2[j],
                ws[q],
            ) by {
            if j < m.len() {
                assert(m2[j] == m[j]);
                let q = choose|q: int|
                    0 <= q < init.len() && record_key(init[q]) == series_key(m[j]) && same_shape(
                        m[j],
                        init[q],
                    );
                assert(ws[q] == init[q]);
            } else {
                assert(record_key(ws[ws.len() - 1]) == series_key(m2[j]));
            }
        }
    }
}

proof fn lemma_with_key_absent(ws: Seq<RecordView>, k: Seq<char>)
    requires
        !key_set(ws).contains(k),
    ensures
        with_key(ws, k) == Seq::<RecordView>::empty(),
    decreases ws.len(),
{
    if ws.len() > 0 {
        let init = ws.drop_last();
        assert(!key_set(init).contains(k)) by {
            if key_set(init).contains(k) {
                let q = choose|q: int| 0 <= q < init.len() && record_key(init[q]) == k;
                assert(ws[q] == init[q]);
            }
        }
        lemma_with_key_absent(init, k);
        assert(record_key(ws[ws.len() - 1]) != k);
    }
}

} // verus!
