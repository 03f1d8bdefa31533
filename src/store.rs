//! Writing a frozen block to bytes and reading it back, and the packed handle
//! of a block file. The index keys go through an fst map, the other sections
//! through bincode.
use vstd::prelude::*;
use croaring::Bitmap;
use crate::bitmap::{bitmap_deserialize, bitmap_eq, bitmap_items, bitmap_serialize, roaring_read};
use crate::block::{accepts, has_key, key_pos, posting, storage_view, Block};
use crate::order::{key_lt, lemma_key_lt_transitive, str_lt};
use crate::codec::{
    decode_frame, encode_frame, frame_ok, frame_sections, le_word, sections_view, CodecError,
    HEADER_BYTES,
};
use crate::record::{label_pairs_view, names_of, record_key, strings_view, Record};
use crate::series::{payload_of, payload_record, payloads_view, series_key, series_tokens, Series, SeriesView};

verus! {

/// A series as the plain values that are written: id, name, labels,
/// variable names, and each payload's metric values and timestamp.
pub type SeriesParts = (u64, String, Vec<(String, String)>, Vec<String>, Vec<(Vec<u64>, i64)>);

pub open spec fn parts_view(p: SeriesParts) -> SeriesView {
    SeriesView {
        id: p.0 as nat,
        name: p.1@,
        labels: label_pairs_view(p.2@),
        variables: strings_view(p.3@),
        payloads: p.4@.map_values(|x: (Vec<u64>, i64)| (x.0@, x.1)),
    }
}

/// The bytes of an fst map from each key to its position.
pub uninterp spec fn fst_bytes(keys: Seq<Seq<char>>) -> Seq<u8>;

/// bincode's bytes of a list of byte strings.
pub uninterp spec fn bincode_blobs(v: Seq<Seq<u8>>) -> Seq<u8>;

/// bincode's bytes of a list of strings.
pub uninterp spec fn bincode_strings(v: Seq<Seq<char>>) -> Seq<u8>;

/// bincode's bytes of a list of (string, integer) pairs.
pub uninterp spec fn bincode_key_pairs(v: Seq<(Seq<char>, u64)>) -> Seq<u8>;

/// bincode's bytes of a list of series parts.
pub uninterp spec fn bincode_series(v: Seq<SeriesView>) -> Seq<u8>;

/// The keys that the stream of the fst map held by the bytes yields, if any.
pub uninterp spec fn fst_keys_read(b: Seq<u8>) -> Option<Seq<Seq<char>>>;

/// The list of byte strings that bincode reads from the bytes, if any.
pub uninterp spec fn bincode_blobs_read(b: Seq<u8>) -> Option<Seq<Seq<u8>>>;

/// The list of (string, integer) pairs that bincode reads from the bytes, if
/// any.
pub uninterp spec fn bincode_key_pairs_read(b: Seq<u8>) -> Option<Seq<(Seq<char>, u64)>>;

/// The list of strings that bincode reads from the bytes, if any.
pub uninterp spec fn bincode_strings_read(b: Seq<u8>) -> Option<Seq<Seq<char>>>;

/// The list of series parts that bincode reads from the bytes, if any.
pub uninterp spec fn bincode_series_read(b: Seq<u8>) -> Option<Seq<SeriesView>>;

/// The keys ascend strictly, by code point.
pub open spec fn keys_strictly_ascending(ks: Seq<Seq<char>>) -> bool {
    forall|i: int, j: int| 0 <= i < j < ks.len() ==> crate::order::key_lt(ks[i], ks[j])
}

/// Relies on fst's `MapBuilder::memory`, `MapBuilder::insert` and
/// `MapBuilder::into_inner`: the map of each key to its position, whose stream
/// yields the keys again in order. The builder
/// refuses a key not above the one before in byte order; keys ascending by
/// code point ascend in UTF-8 byte order too, so it takes them all.
#[verifier::external_body]
fn fst_build(keys: &Vec<String>) -> (r: Option<Vec<u8>>)
    ensures
        r matches Some(b) ==> b@ == fst_bytes(strings_view(keys@)),
        r matches Some(b) ==> fst_keys_read(b@) == Some(strings_view(keys@)),
        keys_strictly_ascending(strings_view(keys@)) ==> r is Some,
{
    let mut builder = fst::MapBuilder::memory();
    for (i, k) in keys.iter().enumerate() {
        if builder.insert(k, i as u64).is_err() {
            return None;
        }
    }
    builder.into_inner().ok()
}

/// Relies on `bincode::serialize` for a list of byte strings: it cannot fail
/// on this type, and `bincode::deserialize` reads its bytes back.
#[verifier::external_body]
fn encode_blobs(v: &Vec<Vec<u8>>) -> (r: Option<Vec<u8>>)
    ensures
        r is Some,
        r matches Some(b) ==> b@ == bincode_blobs(sections_view(v@)),
        r matches Some(b) ==> bincode_blobs_read(b@) == Some(sections_view(v@)),
{
    bincode::serialize(v).ok()
}

/// Relies on `bincode::deserialize` for a list of byte strings.
#[verifier::external_body]
fn decode_blobs(b: &Vec<u8>) -> (r: Option<Vec<Vec<u8>>>)
    ensures
        r matches Some(x) ==> bincode_blobs_read(b@) == Some(sections_view(x@)),
        r is None ==> bincode_blobs_read(b@) is None,
{
    bincode::deserialize(b).ok()
}

/// Relies on `bincode::serialize` for a list of strings: it cannot fail on
/// this type, and `bincode::deserialize` reads its bytes back.
#[verifier::external_body]
fn encode_strings(v: &Vec<String>) -> (r: Option<Vec<u8>>)
    ensures
        r is Some,
        r matches Some(b) ==> b@ == bincode_strings(strings_view(v@)),
        r matches Some(b) ==> bincode_strings_read(b@) == Some(strings_view(v@)),
{
    bincode::serialize(v).ok()
}

/// Relies on `bincode::deserialize` for a list of strings.
#[verifier::external_body]
fn decode_strings(b: &Vec<u8>) -> (r: Option<Vec<String>>)
    ensures
        r matches Some(x) ==> bincode_strings_read(b@) == Some(strings_view(x@)),
        r is None ==> bincode_strings_read(b@) is None,
{
    bincode::deserialize(b).ok()
}

pub open spec fn key_pairs_view(v: Seq<(String, u64)>) -> Seq<(Seq<char>, u64)> {
    v.map_values(|p: (String, u64)| (p.0@, p.1))
}

/// Relies on `bincode::serialize` for a list of (string, integer) pairs: it
/// cannot fail on this type, and `bincode::deserialize` reads its bytes back.
#[verifier::external_body]
fn encode_key_pairs(v: &Vec<(String, u64)>) -> (r: Option<Vec<u8>>)
    ensures
        r is Some,
        r matches Some(b) ==> b@ == bincode_key_pairs(key_pairs_view(v@)),
        r matches Some(b) ==> bincode_key_pairs_read(b@) == Some(key_pairs_view(v@)),
{
    bincode::serialize(v).ok()
}

/// Relies on `bincode::deserialize` for a list of (string, integer) pairs.
#[verifier::external_body]
fn decode_key_pairs(b: &Vec<u8>) -> (r: Option<Vec<(String, u64)>>)
    ensures
        r matches Some(x) ==> bincode_key_pairs_read(b@) == Some(key_pairs_view(x@)),
        r is None ==> bincode_key_pairs_read(b@) is None,
{
    bincode::deserialize(b).ok()
}

/// The series that the parts stand for.
pub open spec fn parts_views(x: Seq<SeriesParts>) -> Seq<SeriesView> {
    x.map_values(|p: SeriesParts| parts_view(p))
}

/// Relies on `bincode::serialize` for a list of series parts: it cannot fail
/// on this type, and `bincode::deserialize` reads its bytes back.
#[verifier::external_body]
fn encode_series(v: &Vec<SeriesParts>) -> (r: Option<Vec<u8>>)
    ensures
        r is Some,
        r matches Some(b) ==> b@ == bincode_series(parts_views(v@)),
        r matches Some(b) ==> bincode_series_read(b@) == Some(parts_views(v@)),
{
    bincode::serialize(v).ok()
}

/// Relies on `bincode::deserialize` for a list of series parts.
#[verifier::external_body]
fn decode_series(b: &Vec<u8>) -> (r: Option<Vec<SeriesParts>>)
    ensures
        r matches Some(x) ==> bincode_series_read(b@) == Some(parts_views(x@)),
        r is None ==> bincode_series_read(b@) is None,
{
    bincode::deserialize(b).ok()
}

pub open spec fn index_keys(index: Seq<(String, Bitmap)>) -> Seq<Seq<char>> {
    index.map_values(|p: (String, Bitmap)| p.0@)
}

/// Each identity key paired with its series id.
pub open spec fn id_pairs(ids: Seq<String>) -> Seq<(Seq<char>, u64)> {
    Seq::new(ids.len(), |i: int| (ids[i]@, i as u64))
}

impl Series {
    /// The series as the plain values that are written.
    pub fn to_parts(&self) -> (r: SeriesParts)
        ensures
            parts_view(r) == self@,
    {
        let mut payloads: Vec<(Vec<u64>, i64)> = Vec::new();
        let mut i: usize = 0;
        while i < self.records.len()
            invariant
                i <= self.records@.len(),
                payloads@.len() == i,
                forall|j: int|
                    0 <= j < i ==> (#[trigger] payloads@[j]).0@ == self.records@[j].metrics@
                        && payloads@[j].1 == self.records@[j].timestamp,
            decreases self.records.len() - i,
        {
            let mut m: Vec<u64> = Vec::new();
            let mut q: usize = 0;
            while q < self.records[i].metrics.len()
                invariant
                    i < self.records@.len(),
                    q <= self.records@[i as int].metrics@.len(),
                    m@ =~= self.records@[i as int].metrics@.subrange(0, q as int),
                decreases self.records@[i as int].metrics@.len() - q,
            {
                m.push(self.records[i].metrics[q]);
                q = q + 1;
            }
            assert(m@ =~= self.records@[i as int].metrics@);
            payloads.push((m, self.records[i].timestamp));
            i = i + 1;
        }
        let r = (self.id as u64, self.name.clone(), self.get_labels(), self.get_variables(), payloads);
        assert(parts_view(r).payloads =~= payloads_view(self.records@));
        r
    }
}

impl Block {
    /// Freezes the block and writes it: the header of offsets, the start and
    /// end timestamps, the index keys as an fst map from key to position, the
    /// posting lists in that order, the id-to-key list, the key-to-id pairs,
    /// and the series. A block without records has no bounds to write.
    pub fn to_bytes(&mut self) -> (r: Result<Vec<u8>, CodecError>)
        requires
            old(self).wf(),
        ensures
            *final(self) == (Block { frozen: true, ..*old(self) }),
            old(self).start_timestamp is None <==> r == Err::<Vec<u8>, CodecError>(
                CodecError::EmptyBlock,
            ),
            r matches Err(e) ==> e == CodecError::EmptyBlock || (e == CodecError::EncodeFailed
                && too_large(*old(self))),
            r matches Ok(b) ==> written_form(*old(self), b@),
    {
        self.frozen = true;
        let (start, end) = match (self.start_timestamp, self.end_timestamp) {
            (Some(s), Some(e)) => (s, e),
            _ => {
                return Err(CodecError::EmptyBlock);
            },
        };
        let mut keys: Vec<String> = Vec::new();
        let mut blobs: Vec<Vec<u8>> = Vec::new();
        let mut i: usize = 0;
        while i < self.index.len()
            invariant
                i <= self.index@.len(),
                keys@.len() == i,
                blobs@.len() == i,
                forall|j: int| 0 <= j < i ==> (#[trigger] keys@[j])@ == self.index@[j].0@,
                forall|j: int|
                    0 <= j < i ==> roaring_read((#[trigger] blobs@[j])@) == Some(
                        bitmap_items(self.index@[j].1),
                    ),
            decreases self.index.len() - i,
        {
            keys.push(self.index[i].0.clone());
            blobs.push(bitmap_serialize(&self.index[i].1));
            i = i + 1;
        }
        assert(strings_view(keys@) =~= index_keys(self.index@));
        assert(blobs_hold(sections_view(blobs@), self.index@));
        assert(keys_strictly_ascending(strings_view(keys@))) by {
            assert forall|a: int, b: int| 0 <= a < b < keys@.len() implies crate::order::key_lt(
                strings_view(keys@)[a],
                strings_view(keys@)[b],
            ) by {
                assert(crate::order::key_lt(self.index@[a].0@, self.index@[b].0@));
            }
        }
        let s3 = match fst_build(&keys) {
            Some(b) => b,
            None => {
                return Err(CodecError::EncodeFailed);
            },
        };
        let s4 = match encode_blobs(&blobs) {
            Some(b) => b,
            None => {
                return Err(CodecError::EncodeFailed);
            },
        };
        let s5 = match encode_strings(&self.id_map) {
            Some(b) => b,
            None => {
                return Err(CodecError::EncodeFailed);
            },
        };
        let mut pairs: Vec<(String, u64)> = Vec::new();
        let mut i: usize = 0;
        while i < self.id_map.len()
            invariant
                i <= self.id_map@.len(),
                self.id_map@.len() <= u32::MAX,
                pairs@.len() == i,
                forall|j: int|
                    0 <= j < i ==> (#[trigger] pairs@[j]).0@ == self.id_map@[j]@ && pairs@[j].1
                        == j as u64,
            decreases self.id_map.len() - i,
        {
            pairs.push((self.id_map[i].clone(), i as u64));
            i = i + 1;
        }
        assert(key_pairs_view(pairs@) =~= id_pairs(self.id_map@));
        let s6 = match encode_key_pairs(&pairs) {
            Some(b) => b,
            None => {
                return Err(CodecError::EncodeFailed);
            },
        };
        let mut parts: Vec<SeriesParts> = Vec::new();
        let mut i: usize = 0;
        while i < self.storage.len()
            invariant
                i <= self.storage@.len(),
                parts@.len() == i,
                forall|j: int| 0 <= j < i ==> parts_view(#[trigger] parts@[j]) == self.storage@[j]@,
            decreases self.storage.len() - i,
        {
            parts.push(self.storage[i].to_parts());
            i = i + 1;
        }
        assert(parts_views(parts@) =~= storage_view(self.storage@));
        let s7 = match encode_series(&parts) {
            Some(b) => b,
            None => {
                return Err(CodecError::EncodeFailed);
            },
        };
        let total: u128 = s3.len() as u128 + s4.len() as u128 + s5.len() as u128 + s6.len() as u128
            + s7.len() as u128;
        if total > (u64::MAX - 72) as u128 {
            assert(too_large(*old(self))) by {
                assert(blobs_hold(sections_view(blobs@), old(self).index@));
            }
            return Err(CodecError::EncodeFailed);
        }
        let mut sections: Vec<Vec<u8>> = Vec::new();
        sections.push(s3);
        sections.push(s4);
        sections.push(s5);
        sections.push(s6);
        sections.push(s7);
        let out = encode_frame(start, end, &sections);
        proof {
            crate::codec::lemma_frame_round_trip(start, end, sections_view(sections@));
        }
        Ok(out)
    }
}

/// Each byte string reads back, as a portable bitmap, as the ids of the index
/// entry at its position.
pub open spec fn blobs_hold(blobs: Seq<Seq<u8>>, index: Seq<(String, Bitmap)>) -> bool {
    &&& blobs.len() == index.len()
    &&& forall|i: int|
        0 <= i < blobs.len() ==> roaring_read(#[trigger] blobs[i]) == Some(
            bitmap_items(index[i].1),
        )
}

/// The sections of the block's frame would exceed what 64-bit offsets hold.
pub open spec fn too_large(blk: Block) -> bool {
    exists|blobs: Seq<Seq<u8>>|
        #![trigger bincode_blobs(blobs)]
        blobs_hold(blobs, blk.index@) && 72 + fst_bytes(index_keys(blk.index@)).len()
            + bincode_blobs(blobs).len() + bincode_strings(strings_view(blk.id_map@)).len()
            + bincode_key_pairs(id_pairs(blk.id_map@)).len() + bincode_series(
            blk.series_view(),
        ).len() > u64::MAX
}

/// The posting-list section: bincode's bytes of the portable bitmaps of the
/// index entries, in key order.
pub open spec fn postings_form(s: Seq<u8>, index: Seq<(String, Bitmap)>) -> bool {
    exists|blobs: Seq<Seq<u8>>|
        #![trigger bincode_blobs(blobs)]
        s == bincode_blobs(blobs) && bincode_blobs_read(s) == Some(blobs) && blobs_hold(blobs, index)
}

/// The bytes are a frame holding the block: its time bounds, the fst map of
/// its index keys, its posting lists in key order, its identity keys, the
/// key-to-id pairs and its series.
pub open spec fn written_form(blk: Block, b: Seq<u8>) -> bool {
    &&& frame_ok(b)
    &&& Some(le_word(b, HEADER_BYTES as int) as i64) == blk.start_timestamp
    &&& Some(le_word(b, HEADER_BYTES + 8) as i64) == blk.end_timestamp
    &&& frame_sections(b)[0] == fst_bytes(index_keys(blk.index@))
    &&& fst_keys_read(frame_sections(b)[0]) == Some(index_keys(blk.index@))
    &&& postings_form(frame_sections(b)[1], blk.index@)
    &&& frame_sections(b)[2] == bincode_strings(strings_view(blk.id_map@))
    &&& frame_sections(b)[3] == bincode_key_pairs(id_pairs(blk.id_map@))
    &&& frame_sections(b)[4] == bincode_series(blk.series_view())
    &&& bincode_strings_read(frame_sections(b)[2]) == Some(strings_view(blk.id_map@))
    &&& bincode_key_pairs_read(frame_sections(b)[3]) == Some(id_pairs(blk.id_map@))
    &&& bincode_series_read(frame_sections(b)[4]) == Some(blk.series_view())
}

/// The block was read from the bytes: a well-formed, mutable block with the
/// frame's time bounds, whose index keys are those of the fst section, whose
/// posting lists are those of the posting section, and whose identity keys,
/// key-to-id pairs and series are what their sections read back as.
pub open spec fn read_form(b: Seq<u8>, blk: Block) -> bool {
    &&& blk.wf()
    &&& !blk.frozen
    &&& frame_ok(b)
    &&& blk.start_timestamp == Some(le_word(b, HEADER_BYTES as int) as i64)
    &&& blk.end_timestamp == Some(le_word(b, HEADER_BYTES + 8) as i64)
    &&& frame_sections(b)[0] == fst_bytes(index_keys(blk.index@))
    &&& fst_keys_read(frame_sections(b)[0]) == Some(index_keys(blk.index@))
    &&& exists|blobs: Seq<Seq<u8>>|
        #![trigger blobs_hold(blobs, blk.index@)]
        bincode_blobs_read(frame_sections(b)[1]) == Some(blobs) && blobs_hold(blobs, blk.index@)
    &&& bincode_strings_read(frame_sections(b)[2]) == Some(strings_view(blk.id_map@))
    &&& bincode_key_pairs_read(frame_sections(b)[3]) == Some(id_pairs(blk.id_map@))
    &&& bincode_series_read(frame_sections(b)[4]) == Some(blk.series_view())
}

/// A block read back from the bytes written for `blk` equals `blk`: the same
/// time bounds, identity keys, series and index keys, and under each key the
/// same posting list.
pub proof fn lemma_read_back_equals_written(blk: Block, b: Seq<u8>, back: Block)
    requires
        blk.wf(),
        written_form(blk, b),
        read_form(b, back),
    ensures
        back.start_timestamp == blk.start_timestamp,
        back.end_timestamp == blk.end_timestamp,
        strings_view(back.id_map@) == strings_view(blk.id_map@),
        back.series_view() == blk.series_view(),
        index_keys(back.index@) == index_keys(blk.index@),
        forall|i: int|
            0 <= i < back.index@.len() ==> bitmap_items(#[trigger] back.index@[i].1)
                == bitmap_items(blk.index@[i].1),
{
    let bw = choose|blobs: Seq<Seq<u8>>|
        #![trigger bincode_blobs(blobs)]
        frame_sections(b)[1] == bincode_blobs(blobs) && bincode_blobs_read(frame_sections(b)[1])
            == Some(blobs) && blobs_hold(blobs, blk.index@);
    let br = choose|blobs: Seq<Seq<u8>>|
        #![trigger blobs_hold(blobs, back.index@)]
        bincode_blobs_read(frame_sections(b)[1]) == Some(blobs) && blobs_hold(blobs, back.index@);
    assert(bw == br);
    assert(back.series_view() == blk.series_view());
    assert forall|i: int| 0 <= i < back.index@.len() implies bitmap_items(
        #[trigger] back.index@[i].1,
    ) == bitmap_items(blk.index@[i].1) by {
        assert(roaring_read(bw[i]) == Some(bitmap_items(blk.index@[i].1)));
    }
}

/// Whether the series is the one that the parts stand for.
fn series_equals_parts(s: &Series, p: &SeriesParts) -> (r: bool)
    ensures
        r == (s@ == parts_view(*p)),
{
    let ghost pv = parts_view(*p);
    if s.id as u128 != p.0 as u128 || s.name != p.1 || s.labels.len() != p.2.len()
        || s.variables.len() != p.3.len() || s.records.len() != p.4.len() {
        proof {
            if s@ == pv {
                assert(s@.labels.len() == pv.labels.len());
                assert(s@.variables.len() == pv.variables.len());
                assert(s@.payloads.len() == pv.payloads.len());
            }
        }
        return false;
    }
    let mut i: usize = 0;
    while i < s.labels.len()
        invariant
            i <= s.labels@.len(),
            s.labels@.len() == p.2@.len(),
            forall|j: int| 0 <= j < i ==> #[trigger] s@.labels[j] == pv.labels[j],
            pv == parts_view(*p),
        decreases s.labels.len() - i,
    {
        if s.labels[i].0 != p.2[i].0 || s.labels[i].1 != p.2[i].1 {
            proof {
                if s@ == pv {
                    assert(s@.labels[i as int] == pv.labels[i as int]);
                }
            }
            return false;
        }
        i = i + 1;
    }
    let mut i: usize = 0;
    while i < s.variables.len()
        invariant
            i <= s.variables@.len(),
            s.variables@.len() == p.3@.len(),
            forall|j: int| 0 <= j < i ==> #[trigger] s@.variables[j] == pv.variables[j],
            pv == parts_view(*p),
        decreases s.variables.len() - i,
    {
        if s.variables[i] != p.3[i] {
            proof {
                if s@ == pv {
                    assert(s@.variables[i as int] == pv.variables[i as int]);
                }
            }
            return false;
        }
        i = i + 1;
    }
    let mut i: usize = 0;
    while i < s.records.len()
        invariant
            i <= s.records@.len(),
            s.records@.len() == p.4@.len(),
            forall|j: int| 0 <= j < i ==> #[trigger] s@.payloads[j] == pv.payloads[j],
            pv == parts_view(*p),
        decreases s.records.len() - i,
    {
        let a = &s.records[i].metrics;
        let b = &p.4[i].0;
        if s.records[i].timestamp != p.4[i].1 || a.len() != b.len() {
            proof {
                if s@ == pv {
                    assert(s@.payloads[i as int] == pv.payloads[i as int]);
                }
            }
            return false;
        }
        let mut q: usize = 0;
        while q < a.len()
            invariant
                q <= a@.len(),
                a@.len() == b@.len(),
                i < s.records@.len(),
                s.records@.len() == p.4@.len(),
                a@ == s.records@[i as int].metrics@,
                b@ == p.4@[i as int].0@,
                pv == parts_view(*p),
                forall|z: int| 0 <= z < q ==> a@[z] == b@[z],
            decreases a.len() - q,
        {
            if a[q] != b[q] {
                proof {
                    if s@ == pv {
                        assert(s@.payloads[i as int] == pv.payloads[i as int]);
                        assert(s@.payloads[i as int].0 == a@);
                        assert(pv.payloads[i as int].0 == b@);
                    }
                }
                return false;
            }
            q = q + 1;
        }
        assert(a@ =~= b@);
        assert(s@.payloads[i as int] == pv.payloads[i as int]);
        i = i + 1;
    }
    assert(s@.labels =~= pv.labels);
    assert(s@.variables =~= pv.variables);
    assert(s@.payloads =~= pv.payloads);
    true
}

/// Whether two lists of strings are equal.
fn same_strings(a: &Vec<String>, b: &Vec<String>) -> (r: bool)
    ensures
        r == (strings_view(a@) == strings_view(b@)),
{
    if a.len() != b.len() {
        assert(strings_view(a@).len() != strings_view(b@).len());
        return false;
    }
    let mut i: usize = 0;
    while i < a.len()
        invariant
            i <= a@.len(),
            a@.len() == b@.len(),
            forall|j: int| 0 <= j < i ==> (#[trigger] a@[j])@ == b@[j]@,
        decreases a.len() - i,
    {
        if a[i] != b[i] {
            assert(strings_view(a@)[i as int] != strings_view(b@)[i as int]);
            return false;
        }
        i = i + 1;
    }
    assert(strings_view(a@) =~= strings_view(b@));
    true
}

impl Block {
    /// Reads a block written by `to_bytes`. Its series are rebuilt by
    /// writing their records in id order into an empty block; the result is
    /// accepted only where that block has the stored ids, key-to-id pairs,
    /// time bounds, index keys (its fst map, built again, has the stored
    /// bytes) and posting lists. Any other bytes give `CorruptBlock`.
    pub fn from_bytes(bytes: &[u8]) -> (r: Result<Block, CodecError>)
        ensures
            !frame_ok(bytes@) ==> r is Err,
            r matches Err(e) ==> e == CodecError::CorruptBlock,
            r matches Ok(b) ==> read_form(bytes@, b),
            forall|blk: Block|
                #![trigger written_form(blk, bytes@)]
                blk.wf() && written_form(blk, bytes@) ==> r is Ok,
    {
        let ghost has = exists|blk: Block|
            #![trigger written_form(blk, bytes@)]
            blk.wf() && written_form(blk, bytes@);
        let ghost wb = choose|blk: Block|
            #![trigger written_form(blk, bytes@)]
            blk.wf() && written_form(blk, bytes@);
        let frame = match decode_frame(bytes) {
            Ok(f) => f,
            Err(e) => {
                proof {
                    if has {
                        assert(written_form(wb, bytes@));
                    }
                }
                return Err(e);
            },
        };
        let ghost fs = frame_sections(bytes@);
        assert(sections_view(frame.sections@).len() == frame.sections@.len());
        assert(frame.sections@[0]@ == fs[0]);
        assert(frame.sections@[1]@ == fs[1]);
        assert(frame.sections@[2]@ == fs[2]);
        assert(frame.sections@[3]@ == fs[3]);
        assert(frame.sections@[4]@ == fs[4]);
        let ghost bw = choose|blobs: Seq<Seq<u8>>|
            #![trigger bincode_blobs(blobs)]
            fs[1] == bincode_blobs(blobs) && bincode_blobs_read(fs[1]) == Some(blobs)
                && blobs_hold(blobs, wb.index@);
        proof {
            if has {
                assert(written_form(wb, bytes@));
                assert(postings_form(fs[1], wb.index@));
                assert(bincode_blobs_read(fs[1]) == Some(bw) && blobs_hold(bw, wb.index@));
                lemma_wf_rebuildable(wb);
            }
        }
        let blobs = match decode_blobs(&frame.sections[1]) {
            Some(v) => v,
            None => {
                return Err(CodecError::CorruptBlock);
            },
        };
        let ids = match decode_strings(&frame.sections[2]) {
            Some(v) => v,
            None => {
                return Err(CodecError::CorruptBlock);
            },
        };
        let pairs = match decode_key_pairs(&frame.sections[3]) {
            Some(v) => v,
            None => {
                return Err(CodecError::CorruptBlock);
            },
        };
        let parts = match decode_series(&frame.sections[4]) {
            Some(v) => v,
            None => {
                return Err(CodecError::CorruptBlock);
            },
        };
        let block = match rebuild(&parts) {
            Some(b) => b,
            None => {
                return Err(CodecError::CorruptBlock);
            },
        };
        proof {
            if has {
                assert(block.series_view() == wb.series_view());
                lemma_same_series_same_index(block, wb);
                assert(strings_view(block.id_map@) =~= strings_view(wb.id_map@)) by {
                    assert forall|i: int| 0 <= i < block.id_map@.len() implies block.id_map@[i]@
                        == wb.id_map@[i]@ by {
                        assert(block.storage@[i]@ == block.series_view()[i]);
                        assert(wb.storage@[i]@ == wb.series_view()[i]);
                    }
                }
                assert(key_pairs_view(pairs@).len() == pairs@.len());
                assert(strings_view(ids@).len() == ids@.len());
            }
        }
        if !same_strings(&ids, &block.id_map) || pairs.len() != ids.len() {
            return Err(CodecError::CorruptBlock);
        }
        proof {
            assert(strings_view(ids@).len() == ids@.len());
            assert(strings_view(block.id_map@).len() == block.id_map@.len());
            assert(id_pairs(ids@) =~= id_pairs(block.id_map@)) by {
                assert forall|j: int| 0 <= j < ids@.len() implies ids@[j]@ == block.id_map@[j]@ by {
                    assert(strings_view(ids@)[j] == strings_view(block.id_map@)[j]);
                }
            }
            if has {
                assert(id_pairs(wb.id_map@) =~= id_pairs(ids@)) by {
                    assert forall|j: int| 0 <= j < ids@.len() implies ids@[j]@ == wb.id_map@[j]@ by {
                        assert(strings_view(ids@)[j] == strings_view(wb.id_map@)[j]);
                    }
                }
            }
        }
        let mut i: usize = 0;
        while i < pairs.len()
            invariant
                i <= pairs@.len(),
                pairs@.len() == ids@.len(),
                has == exists|blk: Block|
                    #![trigger written_form(blk, bytes@)]
                    blk.wf() && written_form(blk, bytes@),
                has ==> key_pairs_view(pairs@) == id_pairs(ids@),
                forall|j: int| 0 <= j < i ==> #[trigger] key_pairs_view(pairs@)[j] == id_pairs(ids@)[j],
            decreases pairs.len() - i,
        {
            if pairs[i].0 != ids[i] || pairs[i].1 != i as u64 {
                proof {
                    if has {
                        assert(key_pairs_view(pairs@)[i as int] == id_pairs(ids@)[i as int]);
                    }
                }
                return Err(CodecError::CorruptBlock);
            }
            i = i + 1;
        }
        assert(key_pairs_view(pairs@) =~= id_pairs(ids@));
        let mut keys: Vec<String> = Vec::new();
        let mut i: usize = 0;
        while i < block.index.len()
            invariant
                i <= block.index@.len(),
                keys@.len() == i,
                forall|j: int| 0 <= j < i ==> (#[trigger] keys@[j])@ == block.index@[j].0@,
            decreases block.index.len() - i,
        {
            keys.push(block.index[i].0.clone());
            i = i + 1;
        }
        assert(strings_view(keys@) =~= index_keys(block.index@));
        assert(keys_strictly_ascending(strings_view(keys@))) by {
            assert forall|a: int, b: int| 0 <= a < b < keys@.len() implies key_lt(
                strings_view(keys@)[a],
                strings_view(keys@)[b],
            ) by {
                assert(key_lt(block.index@[a].0@, block.index@[b].0@));
            }
        }
        let fst = match fst_build(&keys) {
            Some(b) => b,
            None => {
                return Err(CodecError::CorruptBlock);
            },
        };
        if !same_bytes(&fst, &frame.sections[0]) {
            return Err(CodecError::CorruptBlock);
        }
        if blobs.len() != block.index.len() {
            return Err(CodecError::CorruptBlock);
        }
        proof {
            if has {
                crate::order::lemma_pairs_map_ascending(block.index@);
                crate::order::lemma_pairs_map_ascending(wb.index@);
                assert forall|j: int| 0 <= j < blobs@.len() implies roaring_read(
                    (#[trigger] blobs@[j])@,
                ) == Some(bitmap_items(block.index@[j].1)) by {
                    let t = block.index@[j].0@;
                    assert(index_keys(block.index@)[j] == index_keys(wb.index@)[j]);
                    assert(wb.index@[j].0@ == t);
                    assert(block.index_map()[t] == block.index@[j].1);
                    assert(wb.index_map()[t] == wb.index@[j].1);
                    assert(block.index_map().contains_key(t));
                    assert(wb.index_map().contains_key(t));
                    assert(sections_view(blobs@)[j] == bw[j]);
                }
            }
        }
        let mut i: usize = 0;
        while i < blobs.len()
            invariant
                i <= blobs@.len(),
                blobs@.len() == block.index@.len(),
                has == exists|blk: Block|
                    #![trigger written_form(blk, bytes@)]
                    blk.wf() && written_form(blk, bytes@),
                has ==> forall|j: int|
                    0 <= j < blobs@.len() ==> roaring_read((#[trigger] blobs@[j])@) == Some(
                        bitmap_items(block.index@[j].1),
                    ),
                forall|j: int|
                    0 <= j < i ==> roaring_read((#[trigger] blobs@[j])@) == Some(
                        bitmap_items(block.index@[j].1),
                    ),
            decreases blobs.len() - i,
        {
            match bitmap_deserialize(&blobs[i]) {
                Some(b) => {
                    if !bitmap_eq(&b, &block.index[i].1) {
                        return Err(CodecError::CorruptBlock);
                    }
                },
                None => {
                    return Err(CodecError::CorruptBlock);
                },
            }
            i = i + 1;
        }
        assert(blobs_hold(sections_view(blobs@), block.index@));
        proof {
            assert(bincode_blobs_read(fs[1]) == Some(sections_view(blobs@)));
        }
        if block.start_timestamp != Some(frame.start) || block.end_timestamp != Some(frame.end) {
            return Err(CodecError::CorruptBlock);
        }
        Ok(block)
    }
}

/// Whether two byte strings are equal.
fn same_bytes(a: &Vec<u8>, b: &Vec<u8>) -> (r: bool)
    ensures
        r == (a@ == b@),
{
    if a.len() != b.len() {
        return false;
    }
    let mut i: usize = 0;
    while i < a.len()
        invariant
            i <= a@.len(),
            a@.len() == b@.len(),
            forall|j: int| 0 <= j < i ==> a@[j] == b@[j],
        decreases a.len() - i,
    {
        if a[i] != b[i] {
            return false;
        }
        i = i + 1;
    }
    assert(a@ =~= b@);
    true
}

/// Label keys ascend strictly.
pub open spec fn labels_ascend(ls: Seq<(Seq<char>, Seq<char>)>) -> bool {
    forall|i: int, j: int| 0 <= i < j < ls.len() ==> key_lt(#[trigger] ls[i].0, #[trigger] ls[j].0)
}

/// Names ascend strictly.
pub open spec fn views_ascend(ns: Seq<Seq<char>>) -> bool {
    forall|i: int, j: int| 0 <= i < j < ns.len() ==> key_lt(#[trigger] ns[i], #[trigger] ns[j])
}

/// The series could be those of a well-formed block: ids are positions
/// within 32 bits, each series has a record, labels and variable names
/// ascend, every payload has one value per name, and identity keys differ.
pub open spec fn rebuildable(s: Seq<SeriesView>) -> bool {
    &&& s.len() <= u32::MAX
    &&& forall|q: int|
        0 <= q < s.len() ==> {
            &&& (#[trigger] s[q]).id == q
            &&& s[q].payloads.len() > 0
            &&& labels_ascend(s[q].labels)
            &&& views_ascend(s[q].variables)
            &&& forall|k: int|
                0 <= k < s[q].payloads.len() ==> (#[trigger] s[q].payloads[k]).0.len()
                    == s[q].variables.len()
        }
    &&& forall|a: int, b: int|
        0 <= a < b < s.len() ==> series_key(#[trigger] s[a]) != series_key(#[trigger] s[b])
}

proof fn lemma_wf_rebuildable(blk: Block)
    requires
        blk.wf(),
    ensures
        rebuildable(blk.series_view()),
{
    let s = blk.series_view();
    assert forall|q: int| 0 <= q < s.len() implies {
        &&& (#[trigger] s[q]).id == q
        &&& s[q].payloads.len() > 0
        &&& labels_ascend(s[q].labels)
        &&& views_ascend(s[q].variables)
        &&& forall|k: int|
            0 <= k < s[q].payloads.len() ==> (#[trigger] s[q].payloads[k]).0.len()
                == s[q].variables.len()
    } by {
        let se = blk.storage@[q];
        assert(s[q] == se@);
        assert(se.wf());
        assert forall|i: int, j: int| 0 <= i < j < s[q].labels.len() implies key_lt(
            #[trigger] s[q].labels[i].0,
            #[trigger] s[q].labels[j].0,
        ) by {
            assert(key_lt(se.labels@[i].0@, se.labels@[j].0@));
        }
        assert forall|i: int, j: int| 0 <= i < j < s[q].variables.len() implies key_lt(
            #[trigger] s[q].variables[i],
            #[trigger] s[q].variables[j],
        ) by {
            assert(key_lt(se.variables@[i]@, se.variables@[j]@));
        }
        assert forall|k: int| 0 <= k < s[q].payloads.len() implies (
        #[trigger] s[q].payloads[k]).0.len() == s[q].variables.len() by {
            assert(se.records@[k].metrics@.len() == se.variables@.len());
        }
    }
    assert forall|a: int, b: int| 0 <= a < b < s.len() implies series_key(#[trigger] s[a])
        != series_key(#[trigger] s[b]) by {
        assert(blk.id_map@[a]@ != blk.id_map@[b]@);
        assert(s[a] == blk.storage@[a]@);
        assert(s[b] == blk.storage@[b]@);
    }
}

proof fn lemma_ascending_unique(a: Seq<Seq<char>>, b: Seq<Seq<char>>)
    requires
        views_ascend(a),
        views_ascend(b),
        forall|x: Seq<char>| a.contains(x) <==> b.contains(x),
    ensures
        a == b,
    decreases a.len(),
{
    if a.len() == 0 {
        if b.len() > 0 {
            assert(b.contains(b[0]));
        }
        assert(a =~= b);
    } else if b.len() == 0 {
        assert(a.contains(a[0]));
    } else {
        assert(a.contains(a[0]));
        assert(b.contains(b[0]));
        let j = choose|j: int| 0 <= j < b.len() && b[j] == a[0];
        let i = choose|i: int| 0 <= i < a.len() && a[i] == b[0];
        if j > 0 {
            assert(key_lt(b[0], b[j]));
            if i > 0 {
                assert(key_lt(a[0], a[i]));
                lemma_key_lt_transitive(a[0], b[0], a[0]);
            }
            crate::order::lemma_key_lt_irreflexive(a[0]);
        }
        assert(a[0] == b[0]);
        let a1 = a.drop_first();
        let b1 = b.drop_first();
        assert forall|x: Seq<char>| a1.contains(x) <==> b1.contains(x) by {
            if a1.contains(x) {
                let p = choose|p: int| 0 <= p < a1.len() && a1[p] == x;
                assert(key_lt(a[0], a[p + 1]));
                crate::order::lemma_key_lt_irreflexive(a[0]);
                assert(b.contains(x));
                let q = choose|q: int| 0 <= q < b.len() && b[q] == x;
                assert(q != 0);
                assert(b1[q - 1] == x);
            }
            if b1.contains(x) {
                let p = choose|p: int| 0 <= p < b1.len() && b1[p] == x;
                assert(key_lt(b[0], b[p + 1]));
                crate::order::lemma_key_lt_irreflexive(b[0]);
                assert(a.contains(x));
                let q = choose|q: int| 0 <= q < a.len() && a[q] == x;
                assert(q != 0);
                assert(a1[q - 1] == x);
            }
        }
        lemma_ascending_unique(a1, b1);
        assert(a =~= seq![a[0]] + a1);
        assert(b =~= seq![b[0]] + b1);
    }
}

proof fn lemma_index_key_membership(blk: Block, t: Seq<char>)
    requires
        blk.wf(),
    ensures
        index_keys(blk.index@).contains(t) <==> posting(blk.series_view(), t) != Set::<
            u32,
        >::empty(),
{
    crate::order::lemma_pairs_map_ascending(blk.index@);
    let ks = index_keys(blk.index@);
    if ks.contains(t) {
        let i = choose|i: int| 0 <= i < ks.len() && ks[i] == t;
        assert(blk.index@[i].0@ == t);
        assert(blk.index_map().contains_key(t));
    }
    if posting(blk.series_view(), t) != Set::<u32>::empty() {
        assert(exists|x: u32| posting(blk.series_view(), t).contains(x)) by {
            assert(!(posting(blk.series_view(), t) =~= Set::<u32>::empty()));
        }
        let x = choose|x: u32| posting(blk.series_view(), t).contains(x);
        assert((x as int) < blk.series_view().len());
        let s = blk.series_view()[x as int];
        let k = choose|k: int| 0 <= k < series_tokens(s).len() && series_tokens(s)[k] == t;
        assert(s == blk.storage@[x as int]@);
        assert(blk.index_map().contains_key(series_tokens(blk.storage@[x as int]@)[k]));
        let i = choose|i: int| 0 <= i < blk.index@.len() && blk.index@[i].0@ == t;
        assert(ks[i] == t);
    }
}

/// Two well-formed blocks with the same series have the same index keys and
/// the same time bounds.
proof fn lemma_same_series_same_index(a: Block, b: Block)
    requires
        a.wf(),
        b.wf(),
        a.series_view() == b.series_view(),
    ensures
        index_keys(a.index@) == index_keys(b.index@),
        a.start_timestamp == b.start_timestamp,
        a.end_timestamp == b.end_timestamp,
{
    assert forall|x: Seq<char>| index_keys(a.index@).contains(x) <==> index_keys(
        b.index@,
    ).contains(x) by {
        lemma_index_key_membership(a, x);
        lemma_index_key_membership(b, x);
    }
    assert(views_ascend(index_keys(a.index@))) by {
        assert forall|i: int, j: int| 0 <= i < j < index_keys(a.index@).len() implies key_lt(
            #[trigger] index_keys(a.index@)[i],
            #[trigger] index_keys(a.index@)[j],
        ) by {
            assert(key_lt(a.index@[i].0@, a.index@[j].0@));
        }
    }
    assert(views_ascend(index_keys(b.index@))) by {
        assert forall|i: int, j: int| 0 <= i < j < index_keys(b.index@).len() implies key_lt(
            #[trigger] index_keys(b.index@)[i],
            #[trigger] index_keys(b.index@)[j],
        ) by {
            assert(key_lt(b.index@[i].0@, b.index@[j].0@));
        }
    }
    lemma_ascending_unique(index_keys(a.index@), index_keys(b.index@));
    let m = a.series_view();
    assert(a.storage@.len() == m.len() && b.storage@.len() == m.len());
    assert forall|i: int, j: int|
        0 <= i < m.len() && 0 <= j < a.storage@[i].records@.len() implies j < b.storage@[
        i].records@.len() && (#[trigger] a.storage@[i].records@[j]).timestamp
        == b.storage@[i].records@[j].timestamp by {
        assert(a.storage@[i]@ == m[i] && b.storage@[i]@ == m[i]);
        assert(payloads_view(a.storage@[i].records@)[j] == m[i].payloads[j]);
        assert(payloads_view(b.storage@[i].records@).len() == b.storage@[i].records@.len());
        assert(payloads_view(b.storage@[i].records@)[j] == m[i].payloads[j]);
    }
    assert forall|i: int, j: int|
        0 <= i < m.len() && 0 <= j < b.storage@[i].records@.len() implies j < a.storage@[
        i].records@.len() && (#[trigger] b.storage@[i].records@[j]).timestamp
        == a.storage@[i].records@[j].timestamp by {
        assert(a.storage@[i]@ == m[i] && b.storage@[i]@ == m[i]);
        assert(payloads_view(b.storage@[i].records@)[j] == m[i].payloads[j]);
        assert(payloads_view(a.storage@[i].records@).len() == a.storage@[i].records@.len());
        assert(payloads_view(a.storage@[i].records@)[j] == m[i].payloads[j]);
    }
    if let (Some(sa), Some(sb)) = (a.start_timestamp, b.start_timestamp) {
        let (i, j) = choose|i: int, j: int|
            0 <= i < a.storage@.len() && 0 <= j < a.storage@[i].records@.len()
                && (#[trigger] a.storage@[i].records@[j]).timestamp == sa;
        let (k, l) = choose|i: int, j: int|
            0 <= i < b.storage@.len() && 0 <= j < b.storage@[i].records@.len()
                && (#[trigger] b.storage@[i].records@[j]).timestamp == sb;
        assert(b.storage@[i].records@[j].timestamp == sa);
        assert(a.storage@[k].records@[l].timestamp == sb);
    }
    if let (Some(ea), Some(eb)) = (a.end_timestamp, b.end_timestamp) {
        let (i, j) = choose|i: int, j: int|
            0 <= i < a.storage@.len() && 0 <= j < a.storage@[i].records@.len()
                && (#[trigger] a.storage@[i].records@[j]).timestamp == ea;
        let (k, l) = choose|i: int, j: int|
            0 <= i < b.storage@.len() && 0 <= j < b.storage@[i].records@.len()
                && (#[trigger] b.storage@[i].records@[j]).timestamp == eb;
        assert(b.storage@[i].records@[j].timestamp == ea);
        assert(a.storage@[k].records@[l].timestamp == eb);
    }
}

/// Whether the label keys ascend strictly.
fn pairs_ascend(v: &Vec<(String, String)>) -> (r: bool)
    ensures
        r == labels_ascend(label_pairs_view(v@)),
{
    let ghost w = label_pairs_view(v@);
    let mut i: usize = 1;
    if v.len() == 0 {
        return true;
    }
    while i < v.len()
        invariant
            1 <= i <= v@.len(),
            w == label_pairs_view(v@),
            forall|a: int, b: int| 0 <= a < b < i ==> key_lt(#[trigger] w[a].0, #[trigger] w[b].0),
        decreases v.len() - i,
    {
        if !str_lt(v[i - 1].0.as_str(), v[i].0.as_str()) {
            assert(!key_lt(w[i - 1].0, w[i as int].0));
            return false;
        }
        assert forall|a: int, b: int| 0 <= a < b < i + 1 implies key_lt(
            #[trigger] w[a].0,
            #[trigger] w[b].0,
        ) by {
            if b == i && a < i - 1 {
                lemma_key_lt_transitive(w[a].0, w[i - 1].0, w[b].0);
            }
        }
        i = i + 1;
    }
    true
}

/// Whether the names ascend strictly.
fn strings_ascend(v: &Vec<String>) -> (r: bool)
    ensures
        r == views_ascend(strings_view(v@)),
{
    let ghost w = strings_view(v@);
    let mut i: usize = 1;
    if v.len() == 0 {
        return true;
    }
    while i < v.len()
        invariant
            1 <= i <= v@.len(),
            w == strings_view(v@),
            forall|a: int, b: int| 0 <= a < b < i ==> key_lt(#[trigger] w[a], #[trigger] w[b]),
        decreases v.len() - i,
    {
        if !str_lt(v[i - 1].as_str(), v[i].as_str()) {
            assert(!key_lt(w[i - 1], w[i as int]));
            return false;
        }
        assert forall|a: int, b: int| 0 <= a < b < i + 1 implies key_lt(
            #[trigger] w[a],
            #[trigger] w[b],
        ) by {
            if b == i && a < i - 1 {
                lemma_key_lt_transitive(w[a], w[i - 1], w[b]);
            }
        }
        i = i + 1;
    }
    true
}

/// The series after `k` of the payloads of series `q` have been written.
pub open spec fn partial(s: Seq<SeriesView>, q: int, k: int) -> Seq<SeriesView> {
    if k == 0 {
        s.take(q)
    } else {
        s.take(q).push(SeriesView { payloads: s[q].payloads.take(k), ..s[q] })
    }
}

/// The block obtained by writing the records of the parts, series by series
/// in id order, into an empty block; `None` unless that gives exactly one
/// series per part, each equal to its part, which it does for the series of
/// any well-formed block.
fn rebuild(parts: &Vec<SeriesParts>) -> (r: Option<Block>)
    ensures
        r matches Some(b) ==> b.wf() && !b.frozen && b.series_view() == parts_views(parts@),
        rebuildable(parts_views(parts@)) ==> r is Some,
{
    let ghost s = parts_views(parts@);
    let mut block = Block::new();
    assert(block.series_view() =~= s.take(0));
    let mut q: usize = 0;
    while q < parts.len()
        invariant
            q <= parts@.len(),
            s == parts_views(parts@),
            block.wf(),
            !block.frozen,
            block.storage@.len() == q,
            rebuildable(s) ==> block.series_view() == s.take(q as int),
        decreases parts.len() - q,
    {
        let p = &parts[q];
        proof {
            assert(s[q as int] == parts_view(*p));
        }
        if p.0 != q as u64 || p.4.len() == 0 || !pairs_ascend(&p.2) || !strings_ascend(&p.3) {
            proof {
                if rebuildable(s) {
                    assert(s[q as int].id == q);
                    assert(s[q as int].payloads.len() > 0);
                }
            }
            return None;
        }
        let mut k: usize = 0;
        while k < p.4.len()
            invariant
                q < parts@.len(),
                *p == parts@[q as int],
                s == parts_views(parts@),
                s[q as int] == parts_view(*p),
                labels_ascend(label_pairs_view(p.2@)),
                views_ascend(strings_view(p.3@)),
                k <= p.4@.len(),
                block.wf(),
                !block.frozen,
                k == 0 ==> block.storage@.len() == q,
                rebuildable(s) ==> block.series_view() == partial(s, q as int, k as int),
            decreases p.4.len() - k,
        {
            let metrics = &p.4[k].0;
            proof {
                assert(s[q as int].payloads[k as int] == (metrics@, p.4@[k as int].1));
            }
            if metrics.len() != p.3.len() {
                proof {
                    if rebuildable(s) {
                        assert(s[q as int].payloads[k as int].0.len() == s[q as int].variables.len());
                    }
                }
                return None;
            }
            let mut vars: Vec<(String, u64)> = Vec::new();
            let mut v: usize = 0;
            while v < p.3.len()
                invariant
                    v <= p.3@.len(),
                    metrics@.len() == p.3@.len(),
                    vars@.len() == v,
                    forall|j: int|
                        0 <= j < v ==> (#[trigger] vars@[j]).0@ == p.3@[j]@ && vars@[j].1
                            == metrics@[j],
                decreases p.3.len() - v,
            {
                let name = p.3[v].clone();
                vars.push((name, metrics[v]));
                v = v + 1;
            }
            let mut labels: Vec<(String, String)> = Vec::new();
            let mut l: usize = 0;
            while l < p.2.len()
                invariant
                    l <= p.2@.len(),
                    labels@.len() == l,
                    forall|j: int|
                        0 <= j < l ==> (#[trigger] labels@[j]).0@ == p.2@[j].0@ && labels@[j].1@
                            == p.2@[j].1@,
                decreases p.2.len() - l,
            {
                let key = p.2[l].0.clone();
                let value = p.2[l].1.clone();
                labels.push((key, value));
                l = l + 1;
            }
            let record = Record { name: p.1.clone(), labels, variables: vars, timestamp: p.4[k].1 };
            let ghost sq = s[q as int];
            proof {
                assert(record@.labels =~= sq.labels);
                assert(record@.variables =~= crate::series::zip_values(sq.variables, metrics@));
                assert(names_of(record@.variables) =~= sq.variables);
                assert(record@ == payload_record(sq, sq.payloads[k as int]));
                assert(payload_of(record@) == sq.payloads[k as int]) by {
                    assert(payload_of(record@).0 =~= metrics@);
                }
                assert(record_key(record@) == series_key(sq));
                assert(record.wf()) by {
                    assert forall|a: int, b: int| 0 <= a < b < record.labels@.len() implies key_lt(
                        #[trigger] record.labels@[a].0@,
                        #[trigger] record.labels@[b].0@,
                    ) by {
                        assert(key_lt(label_pairs_view(p.2@)[a].0, label_pairs_view(p.2@)[b].0));
                    }
                    assert forall|a: int, b: int|
                        0 <= a < b < record.variables@.len() implies key_lt(
                        #[trigger] record.variables@[a].0@,
                        #[trigger] record.variables@[b].0@,
                    ) by {
                        assert(key_lt(strings_view(p.3@)[a], strings_view(p.3@)[b]));
                    }
                }
            }
            let ghost before = block.series_view();
            let ok = block.insert(&record);
            proof {
                if rebuildable(s) {
                    let key = record_key(record@);
                    if k == 0 {
                        assert(!has_key(before, key)) by {
                            if has_key(before, key) {
                                let i = choose|i: int| 0 <= i < before.len() && series_key(before[i]) == key;
                                assert(before[i] == s[i]);
                            }
                        }
                        assert(accepts(before, record@));
                        assert(crate::series::series_of(before.len(), record@) =~= SeriesView {
                            payloads: sq.payloads.take(1),
                            ..sq
                        }) by {
                            assert(sq.payloads.take(1) =~= seq![sq.payloads[0]]);
                        }
                        assert(block.series_view() =~= partial(s, q as int, 1));
                    } else {
                        let t = SeriesView { payloads: sq.payloads.take(k as int), ..sq };
                        assert(before[q as int] == t);
                        assert(series_key(t) == key);
                        assert(has_key(before, key));
                        let i = key_pos(before, key);
                        if i != q {
                            assert(before[i] == s[i]);
                        }
                        assert(i == q);
                        assert(crate::series::same_shape(t, record@));
                        assert(accepts(before, record@));
                        assert(sq.payloads.take(k + 1) =~= sq.payloads.take(k as int).push(
                            sq.payloads[k as int],
                        ));
                        assert(block.series_view() =~= partial(s, q as int, k + 1));
                    }
                }
            }
            if !ok {
                return None;
            }
            k = k + 1;
        }
        proof {
            if rebuildable(s) {
                assert(s[q as int].payloads.take(p.4@.len() as int) =~= s[q as int].payloads);
                assert(s.take(q + 1) =~= s.take(q as int).push(s[q as int]));
                assert(block.series_view() =~= s.take(q + 1));
            }
        }
        if block.storage.len() != q + 1 {
            return None;
        }
        q = q + 1;
    }
    proof {
        if rebuildable(s) {
            assert(s.take(parts@.len() as int) =~= s);
        }
    }
    let mut q: usize = 0;
    while q < parts.len()
        invariant
            q <= parts@.len(),
            s == parts_views(parts@),
            block.storage@.len() == parts@.len(),
            rebuildable(s) ==> block.series_view() == s,
            forall|j: int| 0 <= j < q ==> #[trigger] block.series_view()[j] == parts_views(parts@)[j],
        decreases parts.len() - q,
    {
        if !series_equals_parts(&block.storage[q], &parts[q]) {
            proof {
                if rebuildable(s) {
                    assert(block.storage@[q as int]@ == block.series_view()[q as int]);
                    assert(s[q as int] == parts_view(parts@[q as int]));
                }
            }
            return None;
        }
        q = q + 1;
    }
    assert(block.series_view() =~= parts_views(parts@));
    Some(block)
}

/// The metadata of a block file: its time bounds and its index, with the
/// series left in the file.
pub struct PackedBlock {
    pub start_timestamp: Option<i64>,
    pub end_timestamp: Option<i64>,
    pub index: Vec<(String, Bitmap)>,
    pub filepath: String,
}

impl PackedBlock {
    /// Reads the time bounds and index of the block file at `filepath`, whose
    /// bytes are `bytes`. The index is checked against the whole file as
    /// `Block::from_bytes` checks it; bytes it refuses give `CorruptBlock`.
    pub fn from_bytes(filepath: String, bytes: &[u8]) -> (r: Result<PackedBlock, CodecError>)
        ensures
            !frame_ok(bytes@) ==> r is Err,
            r matches Err(e) ==> e == CodecError::CorruptBlock,
            r matches Ok(p) ==> {
                &&& p.filepath@ == filepath@
                &&& p.start_timestamp == Some(le_word(bytes@, HEADER_BYTES as int) as i64)
                &&& p.end_timestamp == Some(le_word(bytes@, HEADER_BYTES + 8) as i64)
                &&& frame_sections(bytes@)[0] == fst_bytes(index_keys(p.index@))
                &&& fst_keys_read(frame_sections(bytes@)[0]) == Some(index_keys(p.index@))
                &&& exists|blobs: Seq<Seq<u8>>|
                    #![trigger blobs_hold(blobs, p.index@)]
                    bincode_blobs_read(frame_sections(bytes@)[1]) == Some(blobs) && blobs_hold(
                        blobs,
                        p.index@,
                    )
            },
            forall|blk: Block|
                #![trigger written_form(blk, bytes@)]
                blk.wf() && written_form(blk, bytes@) ==> r is Ok,
    {
        match Block::from_bytes(bytes) {
            Ok(b) => Ok(PackedBlock {
                start_timestamp: b.start_timestamp,
                end_timestamp: b.end_timestamp,
                index: b.index,
                filepath,
            }),
            Err(e) => Err(e),
        }
    }

    /// The whole block, from the bytes of its file.
    pub fn unpack(&self, bytes: &[u8]) -> (r: Result<Block, CodecError>)
        ensures
            !frame_ok(bytes@) ==> r is Err,
            r matches Err(e) ==> e == CodecError::CorruptBlock,
            r matches Ok(b) ==> read_form(bytes@, b),
            forall|blk: Block|
                #![trigger written_form(blk, bytes@)]
                blk.wf() && written_form(blk, bytes@) ==> r is Ok,
    {
        Block::from_bytes(bytes)
    }
}

} // verus!
