//! The catalog of flushed blocks: block files by the start timestamp of the
//! block, several files possibly sharing one start.
use vstd::prelude::*;
use std::collections::BTreeMap;
use crate::block::Block;
use crate::record::strings_view;

verus! {

broadcast use vstd::std_specs::btree::group_btree_axioms;

/// How many writes pass between two flushes.
pub const FLUSH_FREQUENCY: u32 = 50000;

/// The flush is due after the `count`-th write.
pub fn flush_due(count: u64) -> (r: bool)
    ensures
        r == (count % (FLUSH_FREQUENCY as u64) == 0),
{
    count % (FLUSH_FREQUENCY as u64) == 0
}

/// The catalog as a map from start timestamp to file names.
pub open spec fn catalog_view(m: Map<i64, Vec<String>>) -> Map<i64, Seq<Seq<char>>> {
    Map::new(|k: i64| m.contains_key(k), |k: i64| strings_view(m[k]@))
}

/// bincode's bytes of the catalog map.
pub uninterp spec fn bincode_catalog(m: Map<i64, Seq<Seq<char>>>) -> Seq<u8>;

/// The catalog map that bincode reads from the bytes, if any.
pub uninterp spec fn bincode_catalog_read(b: Seq<u8>) -> Option<Map<i64, Seq<Seq<char>>>>;

/// Relies on `bincode::serialize` for an ordered map of file lists: it
/// cannot fail on this type, and `bincode::deserialize` reads its bytes back.
#[verifier::external_body]
fn encode_catalog(m: &BTreeMap<i64, Vec<String>>) -> (r: Option<Vec<u8>>)
    ensures
        r is Some,
        r matches Some(b) ==> b@ == bincode_catalog(catalog_view(m@)),
        r matches Some(b) ==> bincode_catalog_read(b@) == Some(catalog_view(m@)),
{
    bincode::serialize(m).ok()
}

/// Relies on `bincode::deserialize` for an ordered map of file lists.
#[verifier::external_body]
fn decode_catalog(b: &[u8]) -> (r: Option<BTreeMap<i64, Vec<String>>>)
    ensures
        r matches Some(m) ==> bincode_catalog_read(b@) == Some(catalog_view(m@)),
        r is None ==> bincode_catalog_read(b@) is None,
{
    bincode::deserialize(b).ok()
}

/// Block files by their block's start timestamp in milliseconds.
pub struct BlockIndex {
    pub index: BTreeMap<i64, Vec<String>>,
}

/// The files under `key` after `path` is recorded there.
pub open spec fn files_after(m: Map<i64, Vec<String>>, key: i64, path: String) -> Seq<String> {
    if m.contains_key(key) {
        m[key]@.push(path)
    } else {
        seq![path]
    }
}

impl BlockIndex {
    /// An empty catalog.
    pub fn new() -> (r: BlockIndex)
        ensures
            r.index@ == Map::<i64, Vec<String>>::empty(),
    {
        BlockIndex { index: BTreeMap::new() }
    }

    /// The catalog's bytes, as written to its file.
    pub fn to_bytes(&self) -> (r: Option<Vec<u8>>)
        ensures
            r is Some,
            r matches Some(b) ==> b@ == bincode_catalog(catalog_view(self.index@)),
            r matches Some(b) ==> bincode_catalog_read(b@) == Some(catalog_view(self.index@)),
    {
        encode_catalog(&self.index)
    }

    /// The catalog held by the bytes of its file; `None` where they hold
    /// none.
    pub fn from_bytes(bytes: &[u8]) -> (r: Option<BlockIndex>)
        ensures
            r matches Some(c) ==> bincode_catalog_read(bytes@) == Some(catalog_view(c.index@)),
            r is None ==> bincode_catalog_read(bytes@) is None,
    {
        match decode_catalog(bytes) {
            Some(index) => Some(BlockIndex { index }),
            None => None,
        }
    }

    /// Records `filepath` under `key`, after the files already there.
    pub fn insert(&mut self, key: i64, filepath: String)
        ensures
            final(self).index@.dom() == old(self).index@.dom().insert(key),
            final(self).index@[key]@ == files_after(old(self).index@, key, filepath),
            forall|k: i64|
                k != key && #[trigger] old(self).index@.contains_key(k)
                    ==> final(self).index@[k] == old(self).index@[k],
    {
        let mut files = match self.index.remove(&key) {
            Some(v) => v,
            None => Vec::new(),
        };
        files.push(filepath);
        self.index.insert(key, files);
        assert(self.index@.dom() =~= old(self).index@.dom().insert(key));
    }

    /// Records a flush: `block`, already written to `filepath`, is entered
    /// under its start timestamp and then emptied for new writes. A block
    /// without records is left as it is and nothing is entered.
    pub fn update(&mut self, block: &mut Block, filepath: String) -> (recorded: bool)
        requires
            old(block).wf(),
        ensures
            recorded == (old(block).start_timestamp is Some),
            recorded ==> {
                let key = old(block).start_timestamp->0;
                &&& final(self).index@.dom() == old(self).index@.dom().insert(key)
                &&& final(self).index@[key]@ == files_after(old(self).index@, key, filepath)
                &&& forall|k: i64|
                    k != key && #[trigger] old(self).index@.contains_key(k)
                        ==> final(self).index@[k] == old(self).index@[k]
                &&& final(block).wf()
                &&& final(block).series_view().len() == 0
                &&& final(block).start_timestamp is None
                &&& !final(block).frozen
            },
            !recorded ==> *final(self) == *old(self) && *final(block) == *old(block),
    {
        match block.start_timestamp {
            Some(start) => {
                self.insert(start, filepath);
                block.flush();
                true
            },
            None => false,
        }
    }
}

/// A catalog loads back from its own bytes as the same map of start times to
/// file names.
pub proof fn lemma_catalog_round_trip(c: BlockIndex, b: Seq<u8>, back: Option<BlockIndex>)
    requires
        b == bincode_catalog(catalog_view(c.index@)),
        bincode_catalog_read(b) == Some(catalog_view(c.index@)),
        back matches Some(d) ==> bincode_catalog_read(b) == Some(catalog_view(d.index@)),
        back is None ==> bincode_catalog_read(b) is None,
    ensures
        back matches Some(d) && catalog_view(d.index@) == catalog_view(c.index@),
{
}

} // verus!
