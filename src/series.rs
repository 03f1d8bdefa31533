//! Series: the records that share one identity key, stored by column.
use vstd::prelude::*;
use crate::order::keys_ascending;
use crate::record::{
    append_all, append_labels, identity_key, label_pairs_view, names_of,
    strings_view, tokens_of, Record, RecordView,
};

verus! {

/// One sample of a series: its metric values, in the order of the series'
/// variable names, and its timestamp in milliseconds.
#[derive(Debug, Clone, PartialEq)]
pub struct SeriesRecord {
    pub metrics: Vec<u64>,
    pub timestamp: i64,
}

impl View for SeriesRecord {
    type V = (Seq<u64>, i64);

    open spec fn view(&self) -> (Seq<u64>, i64) {
        (self.metrics@, self.timestamp)
    }
}

/// A series as mathematical values.
pub struct SeriesView {
    pub id: nat,
    pub name: Seq<char>,
    pub labels: Seq<(Seq<char>, Seq<char>)>,
    pub variables: Seq<Seq<char>>,
    pub payloads: Seq<(Seq<u64>, i64)>,
}

/// The records that share one identity key.
#[derive(Debug, Clone, PartialEq)]
pub struct Series {
    pub id: usize,
    pub name: String,
    pub labels: Vec<(String, String)>,
    pub variables: Vec<String>,
    pub records: Vec<SeriesRecord>,
}

pub open spec fn payloads_view(s: Seq<SeriesRecord>) -> Seq<(Seq<u64>, i64)> {
    s.map_values(|p: SeriesRecord| p@)
}

impl View for Series {
    type V = SeriesView;

    open spec fn view(&self) -> SeriesView {
        SeriesView {
            id: self.id as nat,
            name: self.name@,
            labels: label_pairs_view(self.labels@),
            variables: strings_view(self.variables@),
            payloads: payloads_view(self.records@),
        }
    }
}

/// The names ascend strictly.
pub open spec fn names_ascending(s: Seq<String>) -> bool {
    forall|i: int, j: int|
        0 <= i < j < s.len() ==> crate::order::key_lt(#[trigger] s[i]@, #[trigger] s[j]@)
}

pub open spec fn series_key(s: SeriesView) -> Seq<char> {
    identity_key(s.name, s.labels, s.variables)
}

pub open spec fn series_tokens(s: SeriesView) -> Seq<Seq<char>> {
    tokens_of(s.labels, s.variables)
}

/// Variable names paired with metric values, position by position.
pub open spec fn zip_values(names: Seq<Seq<char>>, values: Seq<u64>) -> Seq<(Seq<char>, u64)> {
    Seq::new(names.len(), |i: int| (names[i], values[i]))
}

/// The record that a payload of the series stands for.
pub open spec fn payload_record(s: SeriesView, p: (Seq<u64>, i64)) -> RecordView {
    RecordView {
        name: s.name,
        labels: s.labels,
        variables: zip_values(s.variables, p.0),
        timestamp: p.1,
    }
}

/// The records of a series, in the order they were appended.
pub open spec fn series_records(s: SeriesView) -> Seq<RecordView> {
    s.payloads.map_values(|p: (Seq<u64>, i64)| payload_record(s, p))
}

/// The payload of a record: its metric values in variable order, and its
/// timestamp.
pub open spec fn payload_of(r: RecordView) -> (Seq<u64>, i64) {
    (r.variables.map_values(|p: (Seq<char>, u64)| p.1), r.timestamp)
}

/// A new series with id `id` holding one record.
pub open spec fn series_of(id: nat, r: RecordView) -> SeriesView {
    SeriesView {
        id,
        name: r.name,
        labels: r.labels,
        variables: names_of(r.variables),
        payloads: seq![payload_of(r)],
    }
}

/// The record has the measurement name, labels and variable names of the
/// series.
pub open spec fn same_shape(s: SeriesView, r: RecordView) -> bool {
    s.name == r.name && s.labels == r.labels && s.variables == names_of(r.variables)
}

impl SeriesRecord {
    /// The payload of a record.
    pub fn from_record(record: &Record) -> (r: SeriesRecord)
        ensures
            r@ == payload_of(record@),
    {
        let mut metrics: Vec<u64> = Vec::new();
        let mut i: usize = 0;
        while i < record.variables.len()
            invariant
                i <= record.variables.len(),
                metrics@.len() == i,
                forall|j: int| 0 <= j < i ==> #[trigger] metrics@[j] == record.variables@[j].1,
            decreases record.variables.len() - i,
        {
            metrics.push(record.variables[i].1);
            i = i + 1;
        }
        assert(metrics@ =~= payload_of(record@).0);
        SeriesRecord { metrics, timestamp: record.timestamp }
    }

    /// The record that this payload of `series` stands for.
    pub fn to_record(&self, series: &Series) -> (r: Record)
        requires
            series.wf(),
            self.metrics@.len() == series.variables@.len(),
        ensures
            r@ == payload_record(series@, self@),
            r.wf(),
    {
        let labels = series.get_labels();
        let mut variables: Vec<(String, u64)> = Vec::new();
        let mut i: usize = 0;
        while i < series.variables.len()
            invariant
                i <= series.variables.len(),
                self.metrics@.len() == series.variables@.len(),
                variables@.len() == i,
                forall|j: int|
                    0 <= j < i ==> #[trigger] variables@[j].0@ == series.variables@[j]@
                        && variables@[j].1 == self.metrics@[j],
            decreases series.variables.len() - i,
        {
            let name = series.variables[i].clone();
            let value = self.metrics[i];
            variables.push((name, value));
            assert(variables@[i as int].0@ == series.variables@[i as int]@);
            i = i + 1;
        }
        let r = Record { name: series.name.clone(), labels, variables, timestamp: self.timestamp };
        proof {
            assert(r@.variables =~= zip_values(series@.variables, self@.0));
            assert(label_pairs_view(r.labels@).len() == label_pairs_view(series.labels@).len());
            assert forall|a: int, b: int| 0 <= a < b < r.labels@.len() implies crate::order::key_lt(
                #[trigger] r.labels@[a].0@,
                #[trigger] r.labels@[b].0@,
            ) by {
                assert(label_pairs_view(r.labels@)[a] == label_pairs_view(series.labels@)[a]);
                assert(label_pairs_view(r.labels@)[b] == label_pairs_view(series.labels@)[b]);
                assert(crate::order::key_lt(series.labels@[a].0@, series.labels@[b].0@));
            }
            assert forall|a: int, b: int|
                0 <= a < b < r.variables@.len() implies crate::order::key_lt(
                #[trigger] r.variables@[a].0@,
                #[trigger] r.variables@[b].0@,
            ) by {
                assert(crate::order::key_lt(series.variables@[a]@, series.variables@[b]@));
            }
        }
        r
    }
}

impl Series {
    /// Labels ascend by key, names ascend, and every payload has one value per
    /// variable name.
    pub open spec fn wf(&self) -> bool {
        &&& keys_ascending(self.labels@)
        &&& names_ascending(self.variables@)
        &&& forall|i: int|
            0 <= i < self.records@.len() ==> (#[trigger] self.records@[i]).metrics@.len()
                == self.variables@.len()
    }

    /// A series with id `id` holding the one record.
    pub fn new(id: usize, record: &Record) -> (r: Series)
        requires
            record.wf(),
        ensures
            r@ == series_of(id as nat, record@),
            r.wf(),
    {
        let labels = record.get_populated_labels();
        let variables = record.get_metrics();
        let payload = SeriesRecord::from_record(record);
        let mut records: Vec<SeriesRecord> = Vec::new();
        records.push(payload);
        let r = Series { id, name: record.get_name(), labels, variables, records };
        proof {
            assert(r@.payloads =~= seq![payload_of(record@)]);
            assert(label_pairs_view(r.labels@).len() == record@.labels.len());
            assert(strings_view(r.variables@).len() == names_of(record@.variables).len());
            assert forall|a: int, b: int| 0 <= a < b < r.labels@.len() implies crate::order::key_lt(
                #[trigger] r.labels@[a].0@,
                #[trigger] r.labels@[b].0@,
            ) by {
                assert(label_pairs_view(r.labels@)[a] == record@.labels[a]);
                assert(label_pairs_view(r.labels@)[b] == record@.labels[b]);
                assert(crate::order::key_lt(record.labels@[a].0@, record.labels@[b].0@));
            }
            assert forall|a: int, b: int| 0 <= a < b < r.variables@.len() implies crate::order::key_lt(
                #[trigger] r.variables@[a]@,
                #[trigger] r.variables@[b]@,
            ) by {
                assert(strings_view(r.variables@)[a] == names_of(record@.variables)[a]);
                assert(strings_view(r.variables@)[b] == names_of(record@.variables)[b]);
                assert(crate::order::key_lt(record.variables@[a].0@, record.variables@[b].0@));
            }
            assert(r.records@[0].metrics@.len() == record.variables@.len());
        }
        r
    }

    /// The identity key shared by the series' records.
    pub fn get_key(&self) -> (r: String)
        ensures
            r@ == series_key(self@),
    {
        let mut k = self.name.clone();
        append_labels(&mut k, &self.labels);
        append_all(&mut k, &self.variables);
        k
    }

    pub fn get_name(&self) -> (r: String)
        ensures
            r@ == self@.name,
    {
        self.name.clone()
    }

    /// The labels as `(key, value)` pairs in ascending key order.
    pub fn get_labels(&self) -> (r: Vec<(String, String)>)
        ensures
            label_pairs_view(r@) == self@.labels,
    {
        let mut out: Vec<(String, String)> = Vec::new();
        let mut i: usize = 0;
        while i < self.labels.len()
            invariant
                i <= self.labels.len(),
                out@.len() == i,
                forall|j: int|
                    0 <= j < i ==> #[trigger] out@[j].0@ == self.labels@[j].0@ && out@[j].1@
                        == self.labels@[j].1@,
            decreases self.labels.len() - i,
        {
            out.push((self.labels[i].0.clone(), self.labels[i].1.clone()));
            i = i + 1;
        }
        assert(label_pairs_view(out@) =~= self@.labels);
        out
    }

    /// The variable names in ascending order.
    pub fn get_variables(&self) -> (r: Vec<String>)
        ensures
            strings_view(r@) == self@.variables,
    {
        let mut out: Vec<String> = Vec::new();
        let mut i: usize = 0;
        while i < self.variables.len()
            invariant
                i <= self.variables.len(),
                out@.len() == i,
                forall|j: int| 0 <= j < i ==> #[trigger] out@[j]@ == self.variables@[j]@,
            decreases self.variables.len() - i,
        {
            out.push(self.variables[i].clone());
            i = i + 1;
        }
        assert(strings_view(out@) =~= self@.variables);
        out
    }

    /// The series' records, in the order they were appended.
    pub fn get_records(&self) -> (r: Vec<Record>)
        requires
            self.wf(),
        ensures
            r@.map_values(|x: Record| x@) == series_records(self@),
            forall|i: int| 0 <= i < r@.len() ==> (#[trigger] r@[i]).wf(),
    {
        let mut out: Vec<Record> = Vec::new();
        let mut i: usize = 0;
        while i < self.records.len()
            invariant
                self.wf(),
                i <= self.records.len(),
                out@.len() == i,
                forall|j: int|
                    0 <= j < i ==> (#[trigger] out@[j])@ == payload_record(
                        self@,
                        self.records@[j]@,
                    ) && out@[j].wf(),
            decreases self.records.len() - i,
        {
            out.push(self.records[i].to_record(self));
            i = i + 1;
        }
        assert(out@.map_values(|x: Record| x@) =~= series_records(self@));
        out
    }

    /// Whether the record has this series' name, labels and variable names.
    pub fn matches(&self, record: &Record) -> (r: bool)
        ensures
            r == same_shape(self@, record@),
    {
        if self.name != record.name || self.labels.len() != record.labels.len()
            || self.variables.len() != record.variables.len() {
            proof {
                if same_shape(self@, record@) {
                    assert(self@.labels.len() == record@.labels.len());
                    assert(self@.variables.len() == names_of(record@.variables).len());
                }
            }
            return false;
        }
        let mut i: usize = 0;
        while i < self.labels.len()
            invariant
                i <= self.labels.len(),
                self.labels.len() == record.labels.len(),
                forall|j: int| 0 <= j < i ==> #[trigger] self@.labels[j] == record@.labels[j],
            decreases self.labels.len() - i,
        {
            if self.labels[i].0 != record.labels[i].0 || self.labels[i].1 != record.labels[i].1 {
                proof {
                    if same_shape(self@, record@) {
                        assert(self@.labels[i as int] == record@.labels[i as int]);
                    }
                }
                return false;
            }
            i = i + 1;
        }
        let mut i: usize = 0;
        while i < self.variables.len()
            invariant
                i <= self.variables.len(),
                self.variables.len() == record.variables.len(),
                forall|j: int|
                    0 <= j < i ==> #[trigger] self@.variables[j] == names_of(record@.variables)[j],
            decreases self.variables.len() - i,
        {
            if self.variables[i] != record.variables[i].0 {
                proof {
                    if same_shape(self@, record@) {
                        assert(self@.variables[i as int] == names_of(record@.variables)[i as int]);
                    }
                }
                return false;
            }
            i = i + 1;
        }
        assert(self@.labels =~= record@.labels);
        assert(self@.variables =~= names_of(record@.variables));
        true
    }

    /// Appends the record's payload.
    pub fn insert(&mut self, record: &Record)
        requires
            old(self).wf(),
            record@.variables.len() == old(self).variables@.len(),
        ensures
            final(self).wf(),
            final(self)@ == (SeriesView {
                payloads: old(self)@.payloads.push(payload_of(record@)),
                ..old(self)@
            }),
    {
        let p = SeriesRecord::from_record(record);
        self.records.push(p);
        assert(self@.payloads =~= old(self)@.payloads.push(payload_of(record@)));
    }
}

} // verus!
