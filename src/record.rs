//! Records: one labeled, time-stamped sample. Labels and variables are held in
//! ascending key order, so a record has one canonical form.
use vstd::prelude::*;
use vstd::string::*;
use crate::order::{insert_pair, key_lt, keys_ascending, pairs_map};
use crate::predicate::lookup;

verus! {

/// A record as mathematical values. A metric value is the bit pattern of an
/// IEEE-754 64-bit float; the timestamp counts milliseconds since the epoch.
pub struct RecordView {
    pub name: Seq<char>,
    pub labels: Seq<(Seq<char>, Seq<char>)>,
    pub variables: Seq<(Seq<char>, u64)>,
    pub timestamp: i64,
}

/// A labeled metric sample.
#[derive(Debug, Clone, PartialEq, Hash)]
pub struct Record {
    pub name: String,
    pub labels: Vec<(String, String)>,
    pub variables: Vec<(String, u64)>,
    pub timestamp: i64,
}

pub open spec fn label_pairs_view(s: Seq<(String, String)>) -> Seq<(Seq<char>, Seq<char>)> {
    s.map_values(|p: (String, String)| (p.0@, p.1@))
}

pub open spec fn variable_pairs_view(s: Seq<(String, u64)>) -> Seq<(Seq<char>, u64)> {
    s.map_values(|p: (String, u64)| (p.0@, p.1))
}

pub open spec fn strings_view(s: Seq<String>) -> Seq<Seq<char>> {
    s.map_values(|x: String| x@)
}

impl View for Record {
    type V = RecordView;

    open spec fn view(&self) -> RecordView {
        RecordView {
            name: self.name@,
            labels: label_pairs_view(self.labels@),
            variables: variable_pairs_view(self.variables@),
            timestamp: self.timestamp,
        }
    }
}

/// Each label key followed by its value, in order.
pub open spec fn labels_text(ls: Seq<(Seq<char>, Seq<char>)>) -> Seq<char>
    decreases ls.len(),
{
    if ls.len() == 0 {
        Seq::empty()
    } else {
        labels_text(ls.drop_last()) + ls.last().0 + ls.last().1
    }
}

/// The strings one after another.
pub open spec fn concat_all(ss: Seq<Seq<char>>) -> Seq<char>
    decreases ss.len(),
{
    if ss.len() == 0 {
        Seq::empty()
    } else {
        concat_all(ss.drop_last()) + ss.last()
    }
}

pub open spec fn names_of(vs: Seq<(Seq<char>, u64)>) -> Seq<Seq<char>> {
    vs.map_values(|p: (Seq<char>, u64)| p.0)
}

/// The identity key of a measurement name, its labels and its variable names,
/// each in ascending key order.
pub open spec fn identity_key(
    name: Seq<char>,
    labels: Seq<(Seq<char>, Seq<char>)>,
    names: Seq<Seq<char>>,
) -> Seq<char> {
    name + labels_text(labels) + concat_all(names)
}

pub open spec fn record_key(r: RecordView) -> Seq<char> {
    identity_key(r.name, r.labels, names_of(r.variables))
}

/// The index token of a label: `key=value`.
pub open spec fn label_token(p: (Seq<char>, Seq<char>)) -> Seq<char> {
    p.0 + seq!['='] + p.1
}

pub open spec fn label_tokens(ls: Seq<(Seq<char>, Seq<char>)>) -> Seq<Seq<char>> {
    ls.map_values(|p: (Seq<char>, Seq<char>)| label_token(p))
}

/// The tokens under which a series is indexed: its labels as `key=value`,
/// then its variable names.
pub open spec fn tokens_of(labels: Seq<(Seq<char>, Seq<char>)>, names: Seq<Seq<char>>) -> Seq<
    Seq<char>,
> {
    label_tokens(labels) + names
}

pub open spec fn record_tokens(r: RecordView) -> Seq<Seq<char>> {
    tokens_of(r.labels, names_of(r.variables))
}

/// Appends each key and value of the labels to `out`.
pub fn append_labels(out: &mut String, labels: &Vec<(String, String)>)
    ensures
        final(out)@ == old(out)@ + labels_text(label_pairs_view(labels@)),
{
    let ghost start = out@;
    let mut i: usize = 0;
    while i < labels.len()
        invariant
            i <= labels.len(),
            out@ == start + labels_text(label_pairs_view(labels@.take(i as int))),
        decreases labels.len() - i,
    {
        out.append(labels[i].0.as_str());
        out.append(labels[i].1.as_str());
        proof {
            let t = label_pairs_view(labels@.take(i + 1));
            assert(t.drop_last() =~= label_pairs_view(labels@.take(i as int)));
        }
        i = i + 1;
    }
    assert(labels@.take(labels.len() as int) =~= labels@);
}

/// Appends the strings one after another to `out`.
pub fn append_all(out: &mut String, names: &Vec<String>)
    ensures
        final(out)@ == old(out)@ + concat_all(strings_view(names@)),
{
    let ghost start = out@;
    let mut i: usize = 0;
    while i < names.len()
        invariant
            i <= names.len(),
            out@ == start + concat_all(strings_view(names@.take(i as int))),
        decreases names.len() - i,
    {
        out.append(names[i].as_str());
        proof {
            let t = strings_view(names@.take(i + 1));
            assert(t.drop_last() =~= strings_view(names@.take(i as int)));
        }
        i = i + 1;
    }
    assert(names@.take(names.len() as int) =~= names@);
}

/// The token `key=value`.
pub fn make_label_token(key: &String, value: &String) -> (r: String)
    ensures
        r@ == label_token((key@, value@)),
{
    let mut t = key.clone();
    t.append("=");
    t.append(value.as_str());
    proof {
        reveal_strlit("=");
    }
    t
}

impl Record {
    /// The record's labels and variables ascend by key.
    pub open spec fn wf(&self) -> bool {
        keys_ascending(self.labels@) && keys_ascending(self.variables@)
    }

    /// The labels as a map from key to value.
    pub open spec fn label_map(&self) -> Map<Seq<char>, String> {
        pairs_map(self.labels@)
    }

    /// The variables as a map from name to value.
    pub open spec fn variable_map(&self) -> Map<Seq<char>, u64> {
        pairs_map(self.variables@)
    }

    /// A record of the given labels and variables, each a list of pairs read
    /// as a map: where a key repeats, its last pair counts.
    pub fn new(
        name: String,
        labels: Vec<(String, String)>,
        variables: Vec<(String, u64)>,
        timestamp: i64,
    ) -> (r: Record)
        ensures
            r.wf(),
            r@.name == name@,
            r.label_map() == pairs_map(labels@),
            r.variable_map() == pairs_map(variables@),
            r@.timestamp == timestamp,
    {
        let mut ls: Vec<(String, String)> = Vec::new();
        let mut labels = labels;
        let ghost l0 = labels@;
        let mut vs: Vec<(String, u64)> = Vec::new();
        let mut variables = variables;
        let ghost v0 = variables@;
        // Taken from the back, so that the first of equal keys is put last.
        let mut taken: Vec<(String, String)> = Vec::new();
        while labels.len() > 0
            invariant
                labels@ + taken@.reverse() == l0,
            decreases labels.len(),
        {
            let p = labels.pop().unwrap();
            taken.push(p);
            proof {
                assert(labels@ + taken@.reverse() =~= l0);
            }
        }
        assert(taken@.reverse() =~= l0);
        while taken.len() > 0
            invariant
                keys_ascending(ls@),
                pairs_map(ls@) == pairs_map(l0.take(l0.len() - taken@.len())),
                taken@.reverse() =~= l0.skip(l0.len() - taken@.len()),
                taken@.len() <= l0.len(),
            decreases taken.len(),
        {
            let ghost before = taken@;
            let (k, v) = taken.pop().unwrap();
            let ghost n = l0.len() - before.len();
            proof {
                assert(before.last() == before.reverse()[0]);
                assert(l0[n] == (k, v));
                assert(l0.take(n + 1).drop_last() =~= l0.take(n));
                assert(taken@ =~= before.drop_last());
                assert(taken@.reverse() =~= before.reverse().drop_first());
                assert(l0.skip(n).drop_first() =~= l0.skip(n + 1));
            }
            insert_pair(&mut ls, k, v);
        }
        assert(l0.take(l0.len() as int) =~= l0);
        let mut taken_v: Vec<(String, u64)> = Vec::new();
        while variables.len() > 0
            invariant
                variables@ + taken_v@.reverse() == v0,
            decreases variables.len(),
        {
            let p = variables.pop().unwrap();
            taken_v.push(p);
            proof {
                assert(variables@ + taken_v@.reverse() =~= v0);
            }
        }
        assert(taken_v@.reverse() =~= v0);
        while taken_v.len() > 0
            invariant
                keys_ascending(vs@),
                pairs_map(vs@) == pairs_map(v0.take(v0.len() - taken_v@.len())),
                taken_v@.reverse() =~= v0.skip(v0.len() - taken_v@.len()),
                taken_v@.len() <= v0.len(),
            decreases taken_v.len(),
        {
            let ghost before = taken_v@;
            let (k, v) = taken_v.pop().unwrap();
            let ghost n = v0.len() - before.len();
            proof {
                assert(before.last() == before.reverse()[0]);
                assert(v0[n] == (k, v));
                assert(v0.take(n + 1).drop_last() =~= v0.take(n));
                assert(taken_v@ =~= before.drop_last());
                assert(taken_v@.reverse() =~= before.reverse().drop_first());
                assert(v0.skip(n).drop_first() =~= v0.skip(n + 1));
            }
            insert_pair(&mut vs, k, v);
        }
        assert(v0.take(v0.len() as int) =~= v0);
        Record { name, labels: ls, variables: vs, timestamp }
    }

    /// The identity key: the name, each label key and value, then each
    /// variable name, labels and variables in ascending key order.
    pub fn get_key(&self) -> (r: String)
        ensures
            r@ == record_key(self@),
    {
        let mut k = self.name.clone();
        append_labels(&mut k, &self.labels);
        let names = self.get_metrics();
        append_all(&mut k, &names);
        k
    }

    pub fn get_name(&self) -> (r: String)
        ensures
            r@ == self@.name,
    {
        self.name.clone()
    }

    pub fn get_timestamp(&self) -> (r: i64)
        ensures
            r == self@.timestamp,
    {
        self.timestamp
    }

    /// The labels as `(key, value)` pairs in ascending key order.
    pub fn get_populated_labels(&self) -> (r: Vec<(String, String)>)
        ensures
            label_pairs_view(r@) == self@.labels,
    {
        let mut out: Vec<(String, String)> = Vec::new();
        let mut i: usize = 0;
        while i < self.labels.len()
            invariant
                i <= self.labels.len(),
                out@.len() == i,
                forall|j: int|
                    0 <= j < i ==> #[trigger] out@[j].0@ == self.labels@[j].0@ && out@[j].1@
                        == self.labels@[j].1@,
            decreases self.labels.len() - i,
        {
            out.push((self.labels[i].0.clone(), self.labels[i].1.clone()));
            i = i + 1;
        }
        assert(label_pairs_view(out@) =~= self@.labels);
        out
    }

    /// The variables as `(name, value)` pairs in ascending name order.
    pub fn get_populated_variables(&self) -> (r: Vec<(String, u64)>)
        ensures
            variable_pairs_view(r@) == self@.variables,
    {
        let mut out: Vec<(String, u64)> = Vec::new();
        let mut i: usize = 0;
        while i < self.variables.len()
            invariant
                i <= self.variables.len(),
                out@.len() == i,
                forall|j: int|
                    0 <= j < i ==> #[trigger] out@[j].0@ == self.variables@[j].0@ && out@[j].1
                        == self.variables@[j].1,
            decreases self.variables.len() - i,
        {
            out.push((self.variables[i].0.clone(), self.variables[i].1));
            i = i + 1;
        }
        assert(variable_pairs_view(out@) =~= self@.variables);
        out
    }

    /// The label tokens `key=value`, in ascending key order.
    pub fn get_labels(&self) -> (r: Vec<String>)
        ensures
            strings_view(r@) == label_tokens(self@.labels),
    {
        let mut out: Vec<String> = Vec::new();
        let mut i: usize = 0;
        while i < self.labels.len()
            invariant
                i <= self.labels.len(),
                out@.len() == i,
                forall|j: int|
                    0 <= j < i ==> #[trigger] out@[j]@ == label_token(
                        (self.labels@[j].0@, self.labels@[j].1@),
                    ),
            decreases self.labels.len() - i,
        {
            out.push(make_label_token(&self.labels[i].0, &self.labels[i].1));
            i = i + 1;
        }
        assert(strings_view(out@) =~= label_tokens(self@.labels));
        out
    }

    /// The variable names, in ascending order.
    pub fn get_metrics(&self) -> (r: Vec<String>)
        ensures
            strings_view(r@) == names_of(self@.variables),
    {
        let mut out: Vec<String> = Vec::new();
        let mut i: usize = 0;
        while i < self.variables.len()
            invariant
                i <= self.variables.len(),
                out@.len() == i,
                forall|j: int| 0 <= j < i ==> #[trigger] out@[j]@ == self.variables@[j].0@,
            decreases self.variables.len() - i,
        {
            out.push(self.variables[i].0.clone());
            i = i + 1;
        }
        assert(strings_view(out@) =~= names_of(self@.variables));
        out
    }

    /// The value of the named variable, if the record has it.
    pub fn get_metric(&self, key: &String) -> (r: Option<u64>)
        ensures
            r == lookup(self@.variables, key@),
    {
        let mut i: usize = self.variables.len();
        assert(self@.variables.take(i as int) =~= self@.variables);
        while i > 0
            invariant
                i <= self.variables.len(),
                lookup(self@.variables, key@) == lookup(self@.variables.take(i as int), key@),
            decreases i,
        {
            proof {
                assert(self@.variables.take(i as int).drop_last() =~= self@.variables.take(
                    i - 1,
                ));
            }
            if self.variables[i - 1].0 == *key {
                return Some(self.variables[i - 1].1);
            }
            i = i - 1;
        }
        None
    }

    /// A copy of the record.
    pub fn duplicate(&self) -> (r: Record)
        ensures
            r@ == self@,
            r.wf() == self.wf(),
    {
        let r = Record {
            name: self.name.clone(),
            labels: self.get_populated_labels(),
            variables: self.get_populated_variables(),
            timestamp: self.timestamp,
        };
        proof {
            assert(r.labels@.len() == self.labels@.len()) by {
                assert(label_pairs_view(r.labels@).len() == label_pairs_view(self.labels@).len());
            }
            assert(r.variables@.len() == self.variables@.len()) by {
                assert(variable_pairs_view(r.variables@).len() == variable_pairs_view(
                    self.variables@,
                ).len());
            }
            assert forall|a: int| 0 <= a < r.labels@.len() implies #[trigger] r.labels@[a].0@
                == self.labels@[a].0@ by {
                assert(label_pairs_view(r.labels@)[a] == label_pairs_view(self.labels@)[a]);
            }
            assert forall|a: int| 0 <= a < r.variables@.len() implies #[trigger] r.variables@[
                a].0@ == self.variables@[a].0@ by {
                assert(variable_pairs_view(r.variables@)[a] == variable_pairs_view(
                    self.variables@,
                )[a]);
            }
            if self.wf() {
                assert(keys_ascending(r.labels@)) by {
                    assert forall|a: int, b: int| 0 <= a < b < r.labels@.len() implies key_lt(
                        #[trigger] r.labels@[a].0@,
                        #[trigger] r.labels@[b].0@,
                    ) by {
                        assert(key_lt(self.labels@[a].0@, self.labels@[b].0@));
                    }
                }
                assert(keys_ascending(r.variables@)) by {
                    assert forall|a: int, b: int| 0 <= a < b < r.variables@.len() implies key_lt(
                        #[trigger] r.variables@[a].0@,
                        #[trigger] r.variables@[b].0@,
                    ) by {
                        assert(key_lt(self.variables@[a].0@, self.variables@[b].0@));
                    }
                }
            }
            if r.wf() {
                assert(keys_ascending(self.labels@)) by {
                    assert forall|a: int, b: int| 0 <= a < b < self.labels@.len() implies key_lt(
                        #[trigger] self.labels@[a].0@,
                        #[trigger] self.labels@[b].0@,
                    ) by {
                        assert(key_lt(r.labels@[a].0@, r.labels@[b].0@));
                    }
                }
                assert(keys_ascending(self.variables@)) by {
                    assert forall|a: int, b: int|
                        0 <= a < b < self.variables@.len() implies key_lt(
                        #[trigger] self.variables@[a].0@,
                        #[trigger] self.variables@[b].0@,
                    ) by {
                        assert(key_lt(r.variables@[a].0@, r.variables@[b].0@));
                    }
                }
            }
        }
        r
    }

    /// Whether two records agree in name, labels, variable values (as bit
    /// patterns) and timestamp.
    pub fn same_as(&self, other: &Record) -> (r: bool)
        ensures
            r == (self@ == other@),
    {
        if self.timestamp != other.timestamp || self.name != other.name || self.labels.len()
            != other.labels.len() || self.variables.len() != other.variables.len() {
            proof {
                if self@ == other@ {
                    assert(self@.labels.len() == other@.labels.len());
                    assert(self@.variables.len() == other@.variables.len());
                }
            }
            return false;
        }
        let mut i: usize = 0;
        while i < self.labels.len()
            invariant
                i <= self.labels.len(),
                self.labels.len() == other.labels.len(),
                forall|j: int| 0 <= j < i ==> #[trigger] self@.labels[j] == other@.labels[j],
            decreases self.labels.len() - i,
        {
            if self.labels[i].0 != other.labels[i].0 || self.labels[i].1 != other.labels[i].1 {
                proof {
                    if self@ == other@ {
                        assert(self@.labels[i as int] == other@.labels[i as int]);
                    }
                }
                return false;
            }
            i = i + 1;
        }
        let mut i: usize = 0;
        while i < self.variables.len()
            invariant
                i <= self.variables.len(),
                self.variables.len() == other.variables.len(),
                forall|j: int| 0 <= j < i ==> #[trigger] self@.variables[j] == other@.variables[j],
            decreases self.variables.len() - i,
        {
            if self.variables[i].0 != other.variables[i].0 || self.variables[i].1
                != other.variables[i].1 {
                proof {
                    if self@ == other@ {
                        assert(self@.variables[i as int] == other@.variables[i as int]);
                    }
                }
                return false;
            }
            i = i + 1;
        }
        assert(self@.labels =~= other@.labels);
        assert(self@.variables =~= other@.variables);
        true
    }
}

} // verus!
